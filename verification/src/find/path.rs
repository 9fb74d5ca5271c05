//! The components a path is made of, and the order they put paths in.
use vstd::prelude::*;
use vstd::utf8::encode_utf8;

use crate::edit::bytes::append;
use crate::find::order::Order;

verus! {

/// A component of a path: the root, the current directory it starts from, a parent directory, or a
/// name.
pub enum Part {
    Root,
    Here,
    Up,
    Name(Seq<u8>),
}

/// How many bytes stand before the first separator.
pub open spec fn name_len(bytes: Seq<u8>) -> nat
    decreases bytes.len(),
{
    if bytes.len() == 0 || bytes[0] == 47 {
        0
    } else {
        1 + name_len(bytes.drop_first())
    }
}

/// What stands behind the first separator.
pub open spec fn behind_name(bytes: Seq<u8>) -> Seq<u8> {
    if name_len(bytes) < bytes.len() {
        bytes.skip(name_len(bytes) as int + 1)
    } else {
        Seq::empty()
    }
}

/// What stands between two separators: nothing and `.` are no components.
pub open spec fn part_of(name: Seq<u8>) -> Seq<Part> {
    if name.len() == 0 || name == seq![46u8] {
        Seq::empty()
    } else if name == seq![46u8, 46] {
        seq![Part::Up]
    } else {
        seq![Part::Name(name)]
    }
}

/// The components of a path, without what it starts from.
pub open spec fn parts_in(bytes: Seq<u8>) -> Seq<Part>
    decreases bytes.len(),
{
    if bytes.len() == 0 {
        Seq::empty()
    } else {
        part_of(bytes.take(name_len(bytes) as int)) + parts_in(behind_name(bytes))
    }
}

/// What a path starts from, where it says so.
pub open spec fn start_of(bytes: Seq<u8>) -> Seq<Part> {
    if bytes.len() > 0 && bytes[0] == 47 {
        seq![Part::Root]
    } else if bytes.take(name_len(bytes) as int) == seq![46u8] {
        seq![Part::Here]
    } else {
        Seq::empty()
    }
}

/// The components of a path.
pub open spec fn parts_of(path: Seq<char>) -> Seq<Part> {
    start_of(encode_utf8(path)) + parts_in(encode_utf8(path))
}

/// The bytes of two names, compared from the first on.
pub open spec fn names_order(a: Seq<u8>, b: Seq<u8>) -> Order
    decreases a.len(),
{
    if a.len() == 0 {
        if b.len() == 0 {
            Order::Equal
        } else {
            Order::Less
        }
    } else if b.len() == 0 {
        Order::Greater
    } else if a[0] < b[0] {
        Order::Less
    } else if a[0] > b[0] {
        Order::Greater
    } else {
        names_order(a.drop_first(), b.drop_first())
    }
}

/// The root comes first, then the current directory, then a parent directory, then names.
pub open spec fn rank_of(part: Part) -> int {
    match part {
        Part::Root => 0,
        Part::Here => 1,
        Part::Up => 2,
        Part::Name(_) => 3,
    }
}

/// The order of two components: two names by their bytes.
pub open spec fn part_order(a: Part, b: Part) -> Order {
    match (a, b) {
        (Part::Name(x), Part::Name(y)) => names_order(x, y),
        _ => if rank_of(a) < rank_of(b) {
            Order::Less
        } else if rank_of(a) > rank_of(b) {
            Order::Greater
        } else {
            Order::Equal
        },
    }
}

/// The order of two paths with these components: that of the first in which they differ, and what
/// another path begins with comes before it.
pub open spec fn parts_order(a: Seq<Part>, b: Seq<Part>) -> Order
    decreases a.len(),
{
    if a.len() == 0 {
        if b.len() == 0 {
            Order::Equal
        } else {
            Order::Less
        }
    } else if b.len() == 0 {
        Order::Greater
    } else if part_order(a[0], b[0]) != Order::Equal {
        part_order(a[0], b[0])
    } else {
        parts_order(a.drop_first(), b.drop_first())
    }
}

/// The order in which two paths are listed.
pub open spec fn listed_order(a: Seq<char>, b: Seq<char>) -> Order {
    parts_order(parts_of(a), parts_of(b))
}

/// A component of a path.
#[derive(Debug)]
pub enum Component {
    Root,
    Here,
    Up,
    Name(Vec<u8>),
}

impl View for Component {
    type V = Part;

    open spec fn view(&self) -> Part {
        match self {
            Component::Root => Part::Root,
            Component::Here => Part::Here,
            Component::Up => Part::Up,
            Component::Name(name) => Part::Name(name@),
        }
    }
}

/// The components in a list.
pub open spec fn parts_listed(list: Seq<Component>) -> Seq<Part> {
    list.map_values(|one: Component| one@)
}

proof fn lemma_name_len(bytes: Seq<u8>, n: int)
    requires
        0 <= n <= bytes.len(),
        forall|i: int| 0 <= i < n ==> bytes[i] != 47,
        n == bytes.len() || bytes[n] == 47,
    ensures
        name_len(bytes) == n,
    decreases n,
{
    if n > 0 {
        assert forall|i: int| 0 <= i < n - 1 implies bytes.drop_first()[i] != 47 by {
            assert(bytes[i + 1] != 47);
        }
        lemma_name_len(bytes.drop_first(), n - 1);
    }
}

/// Whether the name in `bytes[from..to]` is `dots` dots.
fn is_dots(bytes: &[u8], from: usize, to: usize, dots: usize) -> (r: bool)
    requires
        from <= to <= bytes@.len(),
    ensures
        r == (bytes@.subrange(from as int, to as int) == Seq::new(dots as nat, |i: int| 46u8)),
{
    let ghost name = bytes@.subrange(from as int, to as int);
    let ghost all = Seq::new(dots as nat, |i: int| 46u8);
    if to - from != dots {
        assert(name.len() != all.len());
        return false;
    }
    let mut i: usize = from;
    while i < to
        invariant
            from <= i <= to <= bytes@.len(),
            to - from == dots,
            name == bytes@.subrange(from as int, to as int),
            all == Seq::new(dots as nat, |i: int| 46u8),
            forall|k: int| 0 <= k < i - from ==> name[k] == 46,
        decreases to - i,
    {
        if bytes[i] != 46 {
            assert(name[i - from] != all[i - from]);
            return false;
        }
        i = i + 1;
    }
    assert(name =~= all);
    true
}

/// The end of the name that starts at `from`.
fn name_end(bytes: &[u8], from: usize) -> (r: usize)
    requires
        from <= bytes@.len(),
    ensures
        from <= r <= bytes@.len(),
        name_len(bytes@.skip(from as int)) == r - from,
{
    let mut end: usize = from;
    while end < bytes.len() && bytes[end] != 47
        invariant
            from <= end <= bytes@.len(),
            forall|i: int| from <= i < end ==> bytes@[i] != 47,
        decreases bytes@.len() - end,
    {
        end = end + 1;
    }
    proof {
        let rest = bytes@.skip(from as int);
        assert forall|i: int| 0 <= i < end - from implies rest[i] != 47 by {
            assert(rest[i] == bytes@[i + from]);
        }
        lemma_name_len(rest, end - from);
    }
    end
}

/// The components of a path.
pub fn components(path: &str) -> (r: Vec<Component>)
    ensures
        parts_listed(r@) == parts_of(path@),
{
    let bytes = path.as_bytes();
    let mut out: Vec<Component> = Vec::new();
    let ghost start = start_of(bytes@);
    let first = name_end(bytes, 0);
    assert(bytes@.skip(0) =~= bytes@);
    assert(bytes@.subrange(0, first as int) =~= bytes@.take(name_len(bytes@) as int));
    assert(Seq::new(1, |i: int| 46u8) =~= seq![46u8]);
    assert(Seq::new(2, |i: int| 46u8) =~= seq![46u8, 46]);
    if bytes.len() > 0 && bytes[0] == 47 {
        out.push(Component::Root);
        assert(parts_listed(out@) =~= start);
    } else if is_dots(bytes, 0, first, 1) {
        out.push(Component::Here);
        assert(parts_listed(out@) =~= start);
    }
    assert(parts_listed(out@) =~= start);
    let mut at: usize = 0;
    while at < bytes.len()
        invariant
            at <= bytes@.len(),
            bytes@ == encode_utf8(path@),
            parts_listed(out@) + parts_in(bytes@.skip(at as int)) == parts_of(path@),
            Seq::new(1, |i: int| 46u8) == seq![46u8],
            Seq::new(2, |i: int| 46u8) == seq![46u8, 46],
        decreases bytes@.len() - at,
    {
        let ghost rest = bytes@.skip(at as int);
        let ghost had = out@;
        let end = name_end(bytes, at);
        let ghost name = rest.take(name_len(rest) as int);
        assert(bytes@.subrange(at as int, end as int) =~= name);
        if end == at || is_dots(bytes, at, end, 1) {
            assert(part_of(name) =~= Seq::empty());
        } else if is_dots(bytes, at, end, 2) {
            out.push(Component::Up);
            assert(part_of(name) =~= seq![Part::Up]);
        } else {
            let mut copy: Vec<u8> = Vec::new();
            append(&mut copy, vstd::slice::slice_subrange(bytes, at, end));
            assert(copy@ =~= name);
            out.push(Component::Name(copy));
            assert(part_of(name) =~= seq![Part::Name(name)]);
        }
        assert(parts_listed(out@) =~= parts_listed(had) + part_of(name));
        if end < bytes.len() {
            assert(behind_name(rest) =~= bytes@.skip(end + 1));
            at = end + 1;
        } else {
            assert(behind_name(rest) =~= bytes@.skip(end as int));
            at = end;
        }
        assert(parts_listed(out@) + parts_in(bytes@.skip(at as int)) =~= parts_listed(had) + (
        part_of(name) + parts_in(behind_name(rest))));
    }
    assert(bytes@.skip(at as int) =~= Seq::empty());
    assert(parts_listed(out@) + parts_in(bytes@.skip(at as int)) =~= parts_listed(out@));
    out
}

fn compare_names(a: &Vec<u8>, b: &Vec<u8>) -> (r: Order)
    ensures
        r == names_order(a@, b@),
{
    let mut i: usize = 0;
    assert(a@.skip(0) =~= a@ && b@.skip(0) =~= b@);
    while i < a.len() && i < b.len()
        invariant
            i <= a@.len(),
            i <= b@.len(),
            names_order(a@, b@) == names_order(a@.skip(i as int), b@.skip(i as int)),
        decreases a@.len() - i,
    {
        if a[i] < b[i] {
            return Order::Less;
        }
        if a[i] > b[i] {
            return Order::Greater;
        }
        assert(a@.skip(i as int).drop_first() =~= a@.skip(i + 1));
        assert(b@.skip(i as int).drop_first() =~= b@.skip(i + 1));
        i = i + 1;
    }
    if i < a.len() {
        Order::Greater
    } else if i < b.len() {
        Order::Less
    } else {
        Order::Equal
    }
}

fn compare_components(a: &Component, b: &Component) -> (r: Order)
    ensures
        r == part_order(a@, b@),
{
    match (a, b) {
        (Component::Name(x), Component::Name(y)) => compare_names(x, y),
        (Component::Root, Component::Root) => Order::Equal,
        (Component::Root, _) => Order::Less,
        (_, Component::Root) => Order::Greater,
        (Component::Here, Component::Here) => Order::Equal,
        (Component::Here, _) => Order::Less,
        (_, Component::Here) => Order::Greater,
        (Component::Up, Component::Up) => Order::Equal,
        (Component::Up, _) => Order::Less,
        (_, Component::Up) => Order::Greater,
    }
}

/// Whether two components are the same.
pub fn is_same(a: &Component, b: &Component) -> (r: bool)
    ensures
        r == (a@ == b@),
{
    proof {
        lemma_part_order(a@, b@);
    }
    match compare_components(a, b) {
        Order::Equal => true,
        _ => false,
    }
}

/// The order of two paths, component by component.
pub fn compare_paths(a: &str, b: &str) -> (r: Order)
    ensures
        r == listed_order(a@, b@),
{
    let x = components(a);
    let y = components(b);
    let ghost (p, q) = (parts_listed(x@), parts_listed(y@));
    let mut i: usize = 0;
    assert(p.skip(0) =~= p && q.skip(0) =~= q);
    while i < x.len() && i < y.len()
        invariant
            p == parts_listed(x@),
            q == parts_listed(y@),
            i <= x@.len(),
            i <= y@.len(),
            listed_order(a@, b@) == parts_order(p.skip(i as int), q.skip(i as int)),
        decreases x@.len() - i,
    {
        assert(p.skip(i as int)[0] == x@[i as int]@);
        assert(q.skip(i as int)[0] == y@[i as int]@);
        match compare_components(&x[i], &y[i]) {
            Order::Equal => {},
            unlike => {
                return unlike;
            },
        }
        assert(p.skip(i as int).drop_first() =~= p.skip(i + 1));
        assert(q.skip(i as int).drop_first() =~= q.skip(i + 1));
        i = i + 1;
    }
    if i < x.len() {
        Order::Greater
    } else if i < y.len() {
        Order::Less
    } else {
        Order::Equal
    }
}

/// The same path, however it is spelled.
pub open spec fn same_path(a: Seq<char>, b: Seq<char>) -> bool {
    parts_of(a) == parts_of(b)
}

pub fn is_same_path(a: &str, b: &str) -> (r: bool)
    ensures
        r == same_path(a@, b@),
{
    proof {
        law_components_order_is_antisymmetric(parts_of(a@), parts_of(b@));
    }
    match compare_paths(a, b) {
        Order::Equal => true,
        _ => false,
    }
}

/// `path` is `root` or lies below it.
pub open spec fn is_under(path: Seq<char>, root: Seq<char>) -> bool {
    parts_of(root).is_prefix_of(parts_of(path))
}

proof fn lemma_names_order(a: Seq<u8>, b: Seq<u8>)
    ensures
        names_order(a, b) == Order::Less <==> names_order(b, a) == Order::Greater,
        names_order(a, b) == Order::Equal <==> a == b,
    decreases a.len(),
{
    if a.len() > 0 && b.len() > 0 {
        lemma_names_order(a.drop_first(), b.drop_first());
        assert(a =~= seq![a[0]] + a.drop_first());
        assert(b =~= seq![b[0]] + b.drop_first());
    } else if a.len() == 0 && b.len() == 0 {
        assert(a =~= b);
    }
}

proof fn lemma_names_transitive(a: Seq<u8>, b: Seq<u8>, c: Seq<u8>)
    requires
        names_order(a, b) != Order::Greater,
        names_order(b, c) != Order::Greater,
    ensures
        names_order(a, c) != Order::Greater,
        names_order(a, b) == Order::Less || names_order(b, c) == Order::Less ==> names_order(a, c)
            == Order::Less,
    decreases a.len(),
{
    if a.len() > 0 && b.len() > 0 && c.len() > 0 && a[0] == b[0] && b[0] == c[0] {
        lemma_names_transitive(a.drop_first(), b.drop_first(), c.drop_first());
    }
}

proof fn lemma_part_order(a: Part, b: Part)
    ensures
        part_order(a, b) == Order::Less <==> part_order(b, a) == Order::Greater,
        part_order(a, b) == Order::Equal <==> a == b,
{
    if let (Part::Name(x), Part::Name(y)) = (a, b) {
        lemma_names_order(x, y);
        lemma_names_order(y, x);
    }
}

proof fn lemma_part_transitive(a: Part, b: Part, c: Part)
    requires
        part_order(a, b) != Order::Greater,
        part_order(b, c) != Order::Greater,
    ensures
        part_order(a, c) != Order::Greater,
        part_order(a, b) == Order::Less || part_order(b, c) == Order::Less ==> part_order(a, c)
            == Order::Less,
{
    if let (Part::Name(x), Part::Name(y), Part::Name(z)) = (a, b, c) {
        lemma_names_transitive(x, y, z);
    }
}

/// Swapping two paths turns their order round, and only paths with the same components are in
/// none.
pub proof fn law_components_order_is_antisymmetric(a: Seq<Part>, b: Seq<Part>)
    ensures
        parts_order(a, b) == Order::Less <==> parts_order(b, a) == Order::Greater,
        parts_order(a, b) == Order::Equal <==> a == b,
    decreases a.len(),
{
    if a.len() > 0 && b.len() > 0 {
        lemma_part_order(a[0], b[0]);
        lemma_part_order(b[0], a[0]);
        law_components_order_is_antisymmetric(a.drop_first(), b.drop_first());
        assert(a =~= seq![a[0]] + a.drop_first());
        assert(b =~= seq![b[0]] + b.drop_first());
    } else if a.len() == 0 && b.len() == 0 {
        assert(a =~= b);
    }
}

/// What is not listed after a path is not listed after any path that that one is not listed after.
pub proof fn law_components_order_is_transitive(a: Seq<Part>, b: Seq<Part>, c: Seq<Part>)
    requires
        parts_order(a, b) != Order::Greater,
        parts_order(b, c) != Order::Greater,
    ensures
        parts_order(a, c) != Order::Greater,
        parts_order(a, b) == Order::Less || parts_order(b, c) == Order::Less ==> parts_order(a, c)
            == Order::Less,
    decreases a.len(),
{
    if a.len() > 0 && b.len() > 0 && c.len() > 0 {
        lemma_part_order(a[0], b[0]);
        lemma_part_order(b[0], c[0]);
        lemma_part_order(a[0], c[0]);
        lemma_part_transitive(a[0], b[0], c[0]);
        if a[0] == b[0] && b[0] == c[0] {
            law_components_order_is_transitive(a.drop_first(), b.drop_first(), c.drop_first());
        }
    }
}

/// Whatever is listed between a directory and something below it lies below it too.
pub proof fn law_what_lies_below_is_listed_together(a: Seq<Part>, b: Seq<Part>, c: Seq<Part>)
    requires
        parts_order(a, b) != Order::Greater,
        parts_order(b, c) != Order::Greater,
        a.is_prefix_of(c),
    ensures
        a.is_prefix_of(b),
    decreases a.len(),
{
    if a.len() > 0 {
        assert(a[0] == c[0]);
        lemma_part_order(a[0], b[0]);
        lemma_part_order(b[0], a[0]);
        let (x, y, z) = (a.drop_first(), b.drop_first(), c.drop_first());
        assert(x.is_prefix_of(z)) by {
            assert forall|i: int| 0 <= i < x.len() implies x[i] == z[i] by {
                assert(a[i + 1] == c[i + 1]);
            }
            assert(z.take(x.len() as int) =~= x);
        }
        law_what_lies_below_is_listed_together(x, y, z);
        assert(b.take(a.len() as int) =~= a) by {
            assert forall|i: int| 0 <= i < a.len() implies b[i] == a[i] by {
                if i > 0 {
                    assert(x[i - 1] == y[i - 1]);
                }
            }
        }
    } else {
        assert(b.take(0) =~= a);
    }
}

pub proof fn lemma_name_within(bytes: Seq<u8>)
    ensures
        name_len(bytes) <= bytes.len(),
        name_len(bytes) < bytes.len() ==> bytes[name_len(bytes) as int] == 47,
        forall|i: int| 0 <= i < name_len(bytes) ==> bytes[i] != 47,
    decreases bytes.len(),
{
    if bytes.len() > 0 && bytes[0] != 47 {
        let rest = bytes.drop_first();
        lemma_name_within(rest);
        assert forall|i: int| 0 <= i < name_len(bytes) implies bytes[i] != 47 by {
            if i > 0 {
                assert(rest[i - 1] == bytes[i]);
            }
        }
    }
}

/// What stands below a directory adds its components to those of the directory.
pub proof fn lemma_parts_below(dir: Seq<u8>, rest: Seq<u8>)
    requires
        dir.len() == 0 ==> start_of(rest).len() == 0,
        dir.len() > 0 ==> dir.last() == 47,
    ensures
        start_of(dir + rest) + parts_in(dir + rest) == (start_of(dir) + parts_in(dir)) + parts_in(
            rest,
        ),
{
    lemma_parts_joined(dir, rest);
    if dir.len() == 0 {
        assert(dir + rest =~= rest);
        assert(dir.take(0) =~= Seq::<u8>::empty());
        assert(start_of(dir).len() == 0) by {
            assert(dir.take(name_len(dir) as int).len() == 0);
        }
        assert(start_of(dir + rest) + parts_in(dir + rest) =~= (start_of(dir) + parts_in(dir))
            + parts_in(rest));
    } else {
        lemma_name_joined(dir, rest);
        let n = name_len(dir) as int;
        lemma_name_within(dir);
        assert((dir + rest).take(n) =~= dir.take(n));
        assert((dir + rest)[0] == dir[0]);
        assert(start_of(dir + rest) + parts_in(dir + rest) =~= (start_of(dir) + parts_in(dir))
            + parts_in(rest));
    }
}

proof fn lemma_name_joined(dir: Seq<u8>, rest: Seq<u8>)
    requires
        dir.len() > 0,
        dir.last() == 47,
    ensures
        name_len(dir + rest) == name_len(dir) < dir.len(),
{
    let n = name_len(dir) as int;
    lemma_name_within(dir);
    if n == dir.len() {
        assert(dir[n - 1] != 47);
    }
    assert forall|i: int| 0 <= i < n implies (dir + rest)[i] != 47 by {
        assert((dir + rest)[i] == dir[i]);
    }
    lemma_name_len(dir + rest, n);
}

proof fn lemma_parts_joined(dir: Seq<u8>, rest: Seq<u8>)
    requires
        dir.len() > 0 ==> dir.last() == 47,
    ensures
        parts_in(dir + rest) == parts_in(dir) + parts_in(rest),
    decreases dir.len(),
{
    if dir.len() == 0 {
        assert(dir + rest =~= rest);
        assert(parts_in(dir) + parts_in(rest) =~= parts_in(rest));
    } else {
        let n = name_len(dir) as int;
        lemma_name_joined(dir, rest);
        let more = behind_name(dir);
        assert(behind_name(dir + rest) =~= more + rest);
        assert((dir + rest).take(n) =~= dir.take(n));
        if more.len() > 0 {
            assert(more.last() == dir.last());
        }
        lemma_parts_joined(more, rest);
        let part = part_of(dir.take(n));
        assert(part + (parts_in(more) + parts_in(rest)) =~= (part + parts_in(more)) + parts_in(
            rest,
        ));
    }
}

/// Components that two paths begin with alike do not count for their order.
pub proof fn lemma_common_parts(p: Seq<Part>, a: Seq<Part>, b: Seq<Part>)
    ensures
        parts_order(p + a, p + b) == parts_order(a, b),
    decreases p.len(),
{
    if p.len() > 0 {
        lemma_part_order(p[0], p[0]);
        lemma_common_parts(p.drop_first(), a, b);
        assert((p + a).drop_first() =~= p.drop_first() + a);
        assert((p + b).drop_first() =~= p.drop_first() + b);
    } else {
        assert(p + a =~= a && p + b =~= b);
    }
}

/// Nothing and a single dot are no step of a path, two dots are a step up, and anything else is a
/// name.
pub proof fn law_a_step_is_a_name_or_goes_up(name: Seq<u8>)
    ensures
        part_of(Seq::empty()) == Seq::<Part>::empty(),
        part_of(seq![46u8]) == Seq::<Part>::empty(),
        part_of(seq![46u8, 46u8]) == seq![Part::Up],
        name.len() > 0 && name != seq![46u8] && name != seq![46u8, 46u8] ==> part_of(name)
            == seq![Part::Name(name)],
{
    assert(seq![46u8, 46u8].len() == 2 && seq![46u8].len() == 1);
}

/// A path that begins with a separator starts from the root, one that begins with a dot and no more of
/// a name from here, and any other says nothing of where it starts.
pub proof fn law_a_path_says_where_it_starts(rest: Seq<u8>)
    ensures
        start_of(seq![47u8] + rest) == seq![Part::Root],
        start_of(seq![46u8, 47u8] + rest) == seq![Part::Here],
        rest.len() > 0 && rest[0] != 46 && rest[0] != 47 ==> start_of(rest)
            == Seq::<Part>::empty(),
{
    let here = seq![46u8, 47u8] + rest;
    assert(here[0] == 46 && here.drop_first()[0] == 47);
    reveal_with_fuel(name_len, 3);
    assert(name_len(here) == 1);
    assert(here.take(1) =~= seq![46u8]);
    if rest.len() > 0 && rest[0] != 46 && rest[0] != 47 {
        let first = rest.take(name_len(rest) as int);
        if first == seq![46u8] {
            lemma_first_name_is_in(rest);
            assert(first[0] == rest[0]);
        }
    }
}

proof fn lemma_first_name_is_in(bytes: Seq<u8>)
    ensures
        name_len(bytes) <= bytes.len(),
    decreases bytes.len(),
{
    if bytes.len() > 0 {
        lemma_first_name_is_in(bytes.drop_first());
    }
}

} // verus!
