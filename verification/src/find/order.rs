//! The order in which paths are listed.
use vstd::prelude::*;
use vstd::utf8::{encode_utf8, is_ascii_chars_encode_utf8};

use crate::find::path::{
    behind_name, compare_paths, law_components_order_is_antisymmetric,
    law_components_order_is_transitive, lemma_common_parts, lemma_name_within, lemma_parts_below,
    listed_order, name_len, names_order, part_of, parts_in, parts_of, parts_order, start_of, Part,
};
use crate::text::lemma_encode_concat;

verus! {

#[derive(Debug, Clone, Copy, PartialEq, Eq, Structural)]
pub enum Order {
    Less,
    Equal,
    Greater,
}

/// `/` sorts below every other byte, so that a directory's own files come before those of one whose
/// name only begins like its own.
pub open spec fn key(byte: u8) -> u8 {
    if byte == 47 {
        0
    } else {
        byte
    }
}

/// The order of two paths, by their bytes.
pub open spec fn order_of(a: Seq<u8>, b: Seq<u8>) -> Order
    decreases a.len(),
{
    if a.len() == 0 {
        if b.len() == 0 {
            Order::Equal
        } else {
            Order::Less
        }
    } else if b.len() == 0 {
        Order::Greater
    } else if key(a[0]) < key(b[0]) {
        Order::Less
    } else if key(a[0]) > key(b[0]) {
        Order::Greater
    } else {
        order_of(a.drop_first(), b.drop_first())
    }
}

/// The order of two paths.
pub open spec fn paths_order(a: Seq<char>, b: Seq<char>) -> Order {
    order_of(encode_utf8(a), encode_utf8(b))
}

/// Component order without splitting components.
pub fn path_order(a: &str, b: &str) -> (r: Order)
    ensures
        r == paths_order(a@, b@),
{
    let x = a.as_bytes();
    let y = b.as_bytes();
    let mut i: usize = 0;
    assert(x@.skip(0) =~= x@ && y@.skip(0) =~= y@);
    while i < x.len() && i < y.len()
        invariant
            x@ == encode_utf8(a@),
            y@ == encode_utf8(b@),
            i <= x@.len(),
            i <= y@.len(),
            paths_order(a@, b@) == order_of(x@.skip(i as int), y@.skip(i as int)),
        decreases x@.len() - i,
    {
        let p = if x[i] == 47 {
            0
        } else {
            x[i]
        };
        let q = if y[i] == 47 {
            0
        } else {
            y[i]
        };
        if p < q {
            return Order::Less;
        }
        if p > q {
            return Order::Greater;
        }
        assert(x@.skip(i as int).drop_first() =~= x@.skip(i + 1));
        assert(y@.skip(i as int).drop_first() =~= y@.skip(i + 1));
        i = i + 1;
    }
    if i < x.len() {
        Order::Greater
    } else if i < y.len() {
        Order::Less
    } else {
        Order::Equal
    }
}

/// Swapping two paths turns their order round.
pub proof fn law_path_order_is_antisymmetric(a: Seq<u8>, b: Seq<u8>)
    ensures
        order_of(a, b) == Order::Less <==> order_of(b, a) == Order::Greater,
        order_of(a, b) == Order::Equal <==> order_of(b, a) == Order::Equal,
    decreases a.len(),
{
    if a.len() > 0 && b.len() > 0 {
        law_path_order_is_antisymmetric(a.drop_first(), b.drop_first());
    }
}

/// What is not after a path is not after any path that that one is not after.
pub proof fn law_path_order_is_transitive(a: Seq<u8>, b: Seq<u8>, c: Seq<u8>)
    requires
        order_of(a, b) != Order::Greater,
        order_of(b, c) != Order::Greater,
    ensures
        order_of(a, c) != Order::Greater,
        order_of(a, b) == Order::Less || order_of(b, c) == Order::Less ==> order_of(a, c)
            == Order::Less,
    decreases a.len(),
{
    if a.len() > 0 && b.len() > 0 && c.len() > 0 && key(a[0]) == key(b[0]) && key(b[0]) == key(
        c[0],
    ) {
        law_path_order_is_transitive(a.drop_first(), b.drop_first(), c.drop_first());
    }
}

/// Two paths without zero bytes are in no order only if they are the same path.
pub proof fn law_path_order_tells_paths_apart(a: Seq<u8>, b: Seq<u8>)
    requires
        forall|i: int| 0 <= i < a.len() ==> a[i] != 0,
        forall|i: int| 0 <= i < b.len() ==> b[i] != 0,
    ensures
        order_of(a, b) == Order::Equal <==> a == b,
    decreases a.len(),
{
    if a.len() > 0 && b.len() > 0 {
        let x = a.drop_first();
        let y = b.drop_first();
        assert forall|i: int| 0 <= i < x.len() implies x[i] != 0 by {
            assert(x[i] == a[i + 1]);
        }
        assert forall|i: int| 0 <= i < y.len() implies y[i] != 0 by {
            assert(y[i] == b[i + 1]);
        }
        law_path_order_tells_paths_apart(x, y);
        if order_of(a, b) == Order::Equal {
            assert(a[0] == b[0]);
            assert(a =~= seq![a[0]] + x);
            assert(b =~= seq![b[0]] + y);
        }
        if a == b {
            assert(x =~= y);
        }
    } else if a.len() == 0 && b.len() == 0 {
        assert(a =~= b);
    }
}

/// Nothing but names, with one separator between two.
pub open spec fn is_plain(bytes: Seq<u8>) -> bool
    decreases bytes.len(),
{
    bytes.len() == 0 || {
        let name = bytes.take(name_len(bytes) as int);
        &&& part_of(name) == seq![Part::Name(name)]
        &&& name_len(bytes) < bytes.len() ==> behind_name(bytes).len() > 0 && is_plain(
            behind_name(bytes),
        )
    }
}

pub open spec fn has_no_zero(bytes: Seq<u8>) -> bool {
    forall|i: int| 0 <= i < bytes.len() ==> #[trigger] bytes[i] != 0
}

proof fn lemma_skip_no_zero(bytes: Seq<u8>, n: int)
    requires
        has_no_zero(bytes),
        0 <= n <= bytes.len(),
    ensures
        has_no_zero(bytes.skip(n)),
{
    assert forall|i: int| 0 <= i < bytes.skip(n).len() implies #[trigger] bytes.skip(n)[i] != 0 by {
        assert(bytes.skip(n)[i] == bytes[i + n]);
    }
}

/// The first names decide, where they differ.
proof fn lemma_first_names(x: Seq<u8>, y: Seq<u8>)
    requires
        has_no_zero(x),
        has_no_zero(y),
    ensures
        ({
            let (n, m) = (name_len(x) as int, name_len(y) as int);
            let names = names_order(x.take(n), y.take(m));
            if names == Order::Equal {
                n == m && order_of(x, y) == order_of(x.skip(n), y.skip(m))
            } else {
                order_of(x, y) == names
            }
        }),
    decreases x.len(),
{
    let (n, m) = (name_len(x) as int, name_len(y) as int);
    lemma_name_within(x);
    lemma_name_within(y);
    assert(x.skip(0) =~= x && y.skip(0) =~= y);
    if n > 0 && m > 0 {
        let (a, b) = (x.drop_first(), y.drop_first());
        assert(x.take(n).drop_first() =~= a.take(n - 1));
        assert(y.take(m).drop_first() =~= b.take(m - 1));
        assert(x.take(n)[0] == x[0] && y.take(m)[0] == y[0]);
        if x[0] == y[0] {
            lemma_skip_no_zero(x, 1);
            lemma_skip_no_zero(y, 1);
            assert(a =~= x.skip(1) && b =~= y.skip(1));
            lemma_first_names(a, b);
            assert(a.skip(n - 1) =~= x.skip(n));
            assert(b.skip(m - 1) =~= y.skip(m));
        }
    }
}

proof fn lemma_plain_named(bytes: Seq<u8>)
    requires
        is_plain(bytes),
        bytes.len() > 0,
    ensures
        parts_in(bytes).len() > 0,
{
}

proof fn lemma_plain_order(x: Seq<u8>, y: Seq<u8>)
    requires
        has_no_zero(x),
        has_no_zero(y),
        is_plain(x),
        is_plain(y),
    ensures
        order_of(x, y) == parts_order(parts_in(x), parts_in(y)),
    decreases x.len(),
{
    let (n, m) = (name_len(x) as int, name_len(y) as int);
    lemma_name_within(x);
    lemma_name_within(y);
    if x.len() > 0 && y.len() > 0 {
        lemma_first_names(x, y);
        let (p, q) = (parts_in(x), parts_in(y));
        let (a, b) = (behind_name(x), behind_name(y));
        assert(p[0] == Part::Name(x.take(n)) && q[0] == Part::Name(y.take(m)));
        assert(p.drop_first() =~= parts_in(a));
        assert(q.drop_first() =~= parts_in(b));
        reveal_with_fuel(parts_order, 2);
        reveal_with_fuel(order_of, 2);
        if names_order(x.take(n), y.take(m)) == Order::Equal {
            let (c, d) = (x.skip(n), y.skip(m));
            if n < x.len() && m < y.len() {
                assert(c[0] == 47 && d[0] == 47);
                assert(c.drop_first() =~= a && d.drop_first() =~= b);
                lemma_skip_no_zero(x, n + 1);
                lemma_skip_no_zero(y, m + 1);
                lemma_plain_order(a, b);
            } else if n < x.len() {
                lemma_plain_named(a);
            } else if m < y.len() {
                lemma_plain_named(b);
            }
        }
    }
}

proof fn lemma_common_order(p: Seq<u8>, x: Seq<u8>, y: Seq<u8>)
    ensures
        order_of(p + x, p + y) == order_of(x, y),
    decreases p.len(),
{
    if p.len() > 0 {
        lemma_common_order(p.drop_first(), x, y);
        assert((p + x).drop_first() =~= p.drop_first() + x);
        assert((p + y).drop_first() =~= p.drop_first() + y);
    } else {
        assert(p + x =~= x && p + y =~= y);
    }
}

/// Comparing bytes, with the separator lowest, is comparing components, for any two files below one
/// directory, whose own path may be spelled as it likes.
pub proof fn law_path_order_is_the_order_of_components(
    root: Seq<char>,
    a: Seq<char>,
    b: Seq<char>,
)
    requires
        root.len() == 0 || root.last() == '/',
        is_plain(encode_utf8(a)),
        is_plain(encode_utf8(b)),
        has_no_zero(encode_utf8(a)),
        has_no_zero(encode_utf8(b)),
    ensures
        paths_order(root + a, root + b) == listed_order(root + a, root + b),
{
    let (p, x, y) = (encode_utf8(root), encode_utf8(a), encode_utf8(b));
    lemma_encode_concat(root, a);
    lemma_encode_concat(root, b);
    lemma_common_order(p, x, y);
    lemma_plain_order(x, y);
    if root.len() > 0 {
        assert(root =~= root.drop_last() + seq!['/']);
        lemma_encode_concat(root.drop_last(), seq!['/']);
        is_ascii_chars_encode_utf8(seq!['/']);
        assert(p.last() == 47);
    }
    lemma_name_within(x);
    lemma_name_within(y);
    lemma_parts_below(p, x);
    lemma_parts_below(p, y);
    lemma_common_parts(start_of(p) + parts_in(p), parts_in(x), parts_in(y));
}

/// A path to be listed: by its rank first, then by itself, then by how it was typed.
#[derive(Debug)]
pub struct Ranked {
    pub rank: usize,
    pub path: String,
    pub typed: String,
}

/// `a` may be listed before `b`.
pub open spec fn before(a: Ranked, b: Ranked) -> bool {
    ||| a.rank < b.rank
    ||| a.rank == b.rank && match listed_order(a.path@, b.path@) {
        Order::Less => true,
        Order::Greater => false,
        Order::Equal => listed_order(a.typed@, b.typed@) != Order::Greater,
    }
}

pub fn comes_before(a: &Ranked, b: &Ranked) -> (r: bool)
    ensures
        r == before(*a, *b),
{
    if a.rank != b.rank {
        return a.rank < b.rank;
    }
    match compare_paths(a.path.as_str(), b.path.as_str()) {
        Order::Less => true,
        Order::Greater => false,
        Order::Equal => match compare_paths(a.typed.as_str(), b.typed.as_str()) {
            Order::Greater => false,
            _ => true,
        },
    }
}

/// A thing that has its place in a list.
pub trait Placed: Sized {
    /// `self` may stand before `other`.
    spec fn precedes(self, other: Self) -> bool;

    proof fn lemma_total(a: Self, b: Self)
        ensures
            a.precedes(b) || b.precedes(a),
    ;

    proof fn lemma_transitive(a: Self, b: Self, c: Self)
        requires
            a.precedes(b),
            b.precedes(c),
        ensures
            a.precedes(c),
    ;

    fn stands_before(&self, other: &Self) -> (r: bool)
        ensures
            r == self.precedes(*other),
    ;
}

impl Placed for Ranked {
    open spec fn precedes(self, other: Ranked) -> bool {
        before(self, other)
    }

    proof fn lemma_total(a: Ranked, b: Ranked) {
        law_components_order_is_antisymmetric(parts_of(a.path@), parts_of(b.path@));
        law_components_order_is_antisymmetric(parts_of(b.path@), parts_of(a.path@));
        law_components_order_is_antisymmetric(parts_of(a.typed@), parts_of(b.typed@));
        law_components_order_is_antisymmetric(parts_of(b.typed@), parts_of(a.typed@));
    }

    proof fn lemma_transitive(a: Ranked, b: Ranked, c: Ranked) {
        if a.rank == b.rank && b.rank == c.rank {
            let (x, y, z) = (parts_of(a.path@), parts_of(b.path@), parts_of(c.path@));
            law_components_order_is_antisymmetric(x, y);
            law_components_order_is_antisymmetric(y, z);
            law_components_order_is_antisymmetric(x, z);
            law_components_order_is_transitive(x, y, z);
            if x == y && y == z {
                law_components_order_is_transitive(
                    parts_of(a.typed@),
                    parts_of(b.typed@),
                    parts_of(c.typed@),
                );
            }
        }
    }

    fn stands_before(&self, other: &Ranked) -> (r: bool) {
        comes_before(self, other)
    }
}

/// Each stands where it may.
pub open spec fn sorted<T: Placed>(list: Seq<T>) -> bool {
    forall|i: int, j: int| 0 <= i < j < list.len() ==> (#[trigger] list[i]).precedes(
        #[trigger] list[j],
    )
}

/// No two of them may change places.
pub open spec fn apart<T: Placed>(list: Seq<T>) -> bool {
    forall|i: int, j: int| 0 <= i < j < list.len() ==> !(#[trigger] list[j]).precedes(
        #[trigger] list[i],
    )
}

/// There is one order in which things may stand of which no two may change places.
pub proof fn law_there_is_one_order<T: Placed>(a: Seq<T>, b: Seq<T>)
    requires
        sorted(a),
        sorted(b),
        apart(a),
        a.to_multiset() == b.to_multiset(),
    ensures
        a == b,
    decreases a.len(),
{
    broadcast use vstd::seq_lib::group_to_multiset_ensures;

    assert(a.len() == b.len()) by {
        assert(a.len() == a.to_multiset().len());
        assert(b.len() == b.to_multiset().len());
    }
    if a.len() > 0 {
        let (x, y) = (a[0], b[0]);
        assert(b.contains(x)) by {
            assert(a.contains(x));
            assert(a.to_multiset().count(x) > 0);
        }
        assert(a.contains(y)) by {
            assert(b.contains(y));
            assert(b.to_multiset().count(y) > 0);
        }
        let i = choose|i: int| 0 <= i < a.len() && a[i] == y;
        let j = choose|j: int| 0 <= j < b.len() && b[j] == x;
        if i > 0 {
            // `y` stands behind `x` here and before it there.
            assert(!a[i].precedes(a[0]));
            if j > 0 {
                assert(b[0].precedes(b[j]));
            }
            assert(j == 0);
            T::lemma_total(x, x);
            assert(false);
        }
        let (rest, other) = (a.drop_first(), b.drop_first());
        assert(a =~= seq![x] + rest && b =~= seq![x] + other);
        assert(rest.to_multiset() =~= a.to_multiset().remove(x)) by {
            assert(rest =~= a.remove(0));
        }
        assert(other.to_multiset() =~= b.to_multiset().remove(x)) by {
            assert(other =~= b.remove(0));
        }
        assert forall|m: int, n: int| 0 <= m < n < rest.len() implies (#[trigger] rest[m]).precedes(
            #[trigger] rest[n],
        ) && !rest[n].precedes(rest[m]) by {
            assert(rest[m] == a[m + 1] && rest[n] == a[n + 1]);
        }
        assert forall|m: int, n: int| 0 <= m < n < other.len() implies (
        #[trigger] other[m]).precedes(#[trigger] other[n]) by {
            assert(other[m] == b[m + 1] && other[n] == b[n + 1]);
        }
        law_there_is_one_order(rest, other);
    } else {
        assert(a =~= b);
    }
}

/// Either may stand before the other.
pub open spec fn tied<T: Placed>(a: T, b: T) -> bool {
    a.precedes(b) && b.precedes(a)
}

/// Those of the list that are tied with `x`.
pub open spec fn ties<T: Placed>(list: Seq<T>, x: T) -> Seq<T> {
    list.filter(|y: T| tied(x, y))
}

/// `r` is the list put in order: each stands where it may, and those that are tied stand as they
/// did.
pub open spec fn is_put_in_order<T: Placed>(list: Seq<T>, r: Seq<T>) -> bool {
    &&& sorted(r)
    &&& r.to_multiset() == list.to_multiset()
    &&& r.len() == list.len()
    &&& forall|x: T| #[trigger] ties(r, x) == ties(list, x)
}

proof fn lemma_no_ties<T: Placed>(list: Seq<T>, x: T)
    requires
        forall|i: int| 0 <= i < list.len() ==> !tied(x, #[trigger] list[i]),
    ensures
        ties(list, x) == Seq::<T>::empty(),
    decreases list.len(),
{
    reveal(Seq::filter);
    if list.len() > 0 {
        assert forall|i: int| 0 <= i < list.drop_last().len() implies !tied(
            x,
            #[trigger] list.drop_last()[i],
        ) by {
            assert(list[i] == list.drop_last()[i]);
        }
        lemma_no_ties(list.drop_last(), x);
    }
}

proof fn lemma_ties_push<T: Placed>(list: Seq<T>, one: T, x: T)
    ensures
        ties(list.push(one), x) == (if tied(x, one) {
            ties(list, x).push(one)
        } else {
            ties(list, x)
        }),
{
    reveal(Seq::filter);
    assert(list.push(one).drop_last() =~= list);
}

/// Putting `one` behind all that may stand before it puts it behind all that it is tied with.
proof fn lemma_ties_inserted<T: Placed>(list: Seq<T>, at: int, one: T, x: T)
    requires
        0 <= at <= list.len(),
        forall|k: int| at <= k < list.len() ==> !(#[trigger] list[k]).precedes(one),
    ensures
        ties(list.insert(at, one), x) == (if tied(x, one) {
            ties(list, x).push(one)
        } else {
            ties(list, x)
        }),
{
    let (a, b) = (list.take(at), list.skip(at));
    let pred = |y: T| tied(x, y);
    assert(list.insert(at, one) =~= a.push(one) + b);
    assert(list =~= a + b);
    Seq::filter_distributes_over_add(a.push(one), b, pred);
    Seq::filter_distributes_over_add(a, b, pred);
    lemma_ties_push(a, one, x);
    if tied(x, one) {
        assert forall|i: int| 0 <= i < b.len() implies !tied(x, #[trigger] b[i]) by {
            assert(b[i] == list[i + at]);
            if tied(x, b[i]) {
                T::lemma_transitive(b[i], x, one);
            }
        }
        lemma_no_ties(b, x);
        assert(ties(a, x).push(one) + Seq::<T>::empty() =~= ties(a, x).push(one));
        assert(ties(a, x) + Seq::<T>::empty() =~= ties(a, x));
    }
}

/// The same list, last first.
fn turned<T>(list: Vec<T>) -> (r: Vec<T>)
    ensures
        r@ == list@.reverse(),
        r@.to_multiset() == list@.to_multiset(),
{
    let ghost all = list@;
    let mut rest = list;
    let mut out: Vec<T> = Vec::new();
    assert(out@ + rest@ =~= all);
    assert(rest@ =~= all.take(all.len() as int));
    assert(out@ =~= all.reverse().take(0));
    while rest.len() > 0
        invariant
            rest@.len() <= all.len(),
            rest@ == all.take(rest@.len() as int),
            out@ == all.reverse().take(all.len() - rest@.len()),
            (out@ + rest@).to_multiset() == all.to_multiset(),
        decreases rest@.len(),
    {
        let ghost had = out@;
        let ghost left = rest@;
        if let Some(one) = rest.pop() {
            out.push(one);
            proof {
                let after = rest@;
                assert(after =~= all.take(after.len() as int));
                assert(out@ =~= all.reverse().take(all.len() - after.len()));
                broadcast use vstd::seq_lib::group_to_multiset_ensures;

                vstd::seq_lib::lemma_multiset_commutative(had, left);
                vstd::seq_lib::lemma_multiset_commutative(out@, after);
                assert(left =~= after.push(one));
                assert(left.to_multiset() =~= after.to_multiset().insert(one));
                assert(out@.to_multiset() =~= had.to_multiset().insert(one));
                assert((out@ + after).to_multiset() =~= (had + left).to_multiset());
            }
        }
    }
    assert(out@ + rest@ =~= out@);
    out
}

/// The same things, in order.
pub fn sort<T: Placed>(list: Vec<T>) -> (r: Vec<T>)
    ensures
        is_put_in_order(list@, r@),
{
    let ghost all = list@;
    let mut rest = turned(list);
    let mut out: Vec<T> = Vec::new();
    let count = rest.len();
    let mut done: usize = 0;
    proof {
        assert(out@ + rest@ =~= rest@);
        assert(all.take(0) =~= out@);
        assert(rest@ =~= all.reverse().take(count as int));
    }
    while done < count
        invariant
            done <= count == all.len(),
            rest@.len() == count - done,
            rest@ == all.reverse().take(count - done),
            forall|x: T| #[trigger] ties(out@, x) == ties(all.take(done as int), x),
            out@.len() == done,
            sorted(out@),
            (out@ + rest@).to_multiset() == all.to_multiset(),
        decreases count - done,
    {
        let ghost had = out@;
        let ghost left = rest@;
        let one = match rest.pop() {
            Some(one) => one,
            None => return out,
        };
        let mut at: usize = out.len();
        while at > 0 && !out[at - 1].stands_before(&one)
            invariant
                at <= out@.len(),
                out@ == had,
                sorted(had),
                forall|k: int|
                    at <= k < had.len() ==> one.precedes(#[trigger] had[k]) && !had[k].precedes(one),
            decreases at,
        {
            proof {
                T::lemma_total(one, had[at - 1]);
            }
            at = at - 1;
        }
        out.insert(at, one);
        proof {
            let now = out@;
            assert forall|i: int, j: int| 0 <= i < j < now.len() implies (
            #[trigger] now[i]).precedes(#[trigger] now[j]) by {
                if j < at {
                } else if j == at {
                    if i < at - 1 {
                        T::lemma_transitive(had[i], had[at - 1], one);
                    }
                } else if i < at {
                    assert(now[j] == had[j - 1]);
                } else if i == at {
                    assert(now[j] == had[j - 1]);
                } else {
                    assert(now[i] == had[i - 1] && now[j] == had[j - 1]);
                }
            }
            let after = rest@;
            assert(after =~= all.reverse().take(count - done - 1));
            assert(one == all[done as int]);
            assert forall|x: T| #[trigger] ties(now, x) == ties(all.take(done + 1), x) by {
                lemma_ties_inserted(had, at as int, one, x);
                lemma_ties_push(all.take(done as int), one, x);
                assert(all.take(done + 1) =~= all.take(done as int).push(one));
                assert(now =~= had.insert(at as int, one));
                assert(ties(had, x) == ties(all.take(done as int), x));
            }
            vstd::seq_lib::lemma_multiset_commutative(had, left);
            vstd::seq_lib::lemma_multiset_commutative(now, after);
            assert(left =~= after.push(one));
            broadcast use vstd::seq_lib::group_to_multiset_ensures;

            assert(left.to_multiset() =~= after.to_multiset().insert(one));
            assert(now =~= had.insert(at as int, one));
            vstd::seq_lib::to_multiset_insert(had, at as int, one);
            assert(now.to_multiset() =~= had.to_multiset().insert(one));
            assert((now + after).to_multiset() =~= (had + left).to_multiset());
        }
        done = done + 1;
    }
    assert(out@ + rest@ =~= out@);
    assert(all.take(done as int) =~= all);
    out
}

} // verus!
