//! The small tables of a scan: the calls that wait for a result, and how often each verb was
//! called.
use vstd::prelude::*;

use crate::text;

verus! {

/// The calls that wait for a result: the name of the tool, by the call's id.
#[derive(Debug)]
pub struct Uses {
    pub list: Vec<(String, String)>,
}

/// What the list says: a later entry stands over an earlier one.
pub open spec fn uses_of(list: Seq<(String, String)>) -> Map<Seq<char>, Seq<char>>
    decreases list.len(),
{
    if list.len() == 0 {
        Map::empty()
    } else {
        uses_of(list.drop_last()).insert(list.last().0@, list.last().1@)
    }
}

impl View for Uses {
    type V = Map<Seq<char>, Seq<char>>;

    open spec fn view(&self) -> Map<Seq<char>, Seq<char>> {
        uses_of(self.list@)
    }
}

impl Uses {
    pub fn new() -> (r: Uses)
        ensures
            r@ == Map::<Seq<char>, Seq<char>>::empty(),
    {
        Uses { list: Vec::new() }
    }

    pub fn put(&mut self, id: String, name: String)
        ensures
            final(self)@ == old(self)@.insert(id@, name@),
    {
        let ghost before = self.list@;
        self.list.push((id, name));
        assert(self.list@.drop_last() =~= before);
    }

    /// Takes the call out, where it waits.
    pub fn take(&mut self, id: &str) -> (r: Option<String>)
        ensures
            match r {
                Some(name) => old(self)@.dom().contains(id@) && name@ == old(self)@[id@],
                None => !old(self)@.dom().contains(id@),
            },
            final(self)@ == old(self)@.remove(id@),
    {
        let ghost all = self.list@;
        let mut rest: Vec<(String, String)> = Vec::new();
        std::mem::swap(&mut rest, &mut self.list);
        let mut kept: Vec<(String, String)> = Vec::new();
        let mut found: Option<String> = None;
        let count = rest.len();
        let mut i: usize = 0;
        assert(rest@ =~= all.skip(0));
        assert(all.take(0) =~= Seq::empty());
        assert(uses_of(kept@) =~= uses_of(all.take(0)).remove(id@));
        while i < count
            invariant
                i <= count == all.len(),
                rest@ == all.skip(i as int),
                uses_of(kept@) == uses_of(all.take(i as int)).remove(id@),
                match found {
                    Some(name) => uses_of(all.take(i as int)).dom().contains(id@) && name@
                        == uses_of(all.take(i as int))[id@],
                    None => !uses_of(all.take(i as int)).dom().contains(id@),
                },
            decreases count - i,
        {
            let ghost had = kept@;
            let (key, name) = rest.remove(0);
            assert((key, name) == all[i as int]);
            assert(rest@ =~= all.skip(i + 1));
            assert(all.take(i + 1).drop_last() =~= all.take(i as int));
            let ghost now = uses_of(all.take(i + 1));
            if text::same(key.as_str(), id) {
                assert(now.remove(id@) =~= uses_of(all.take(i as int)).remove(id@));
                found = Some(name);
            } else {
                kept.push((key, name));
                assert(kept@.drop_last() =~= had);
                assert(uses_of(kept@) =~= now.remove(id@));
            }
            i = i + 1;
        }
        assert(all.take(i as int) =~= all);
        self.list = kept;
        found
    }
}

/// `a` stands before `b` in the order of their characters.
pub open spec fn lesser(a: Seq<char>, b: Seq<char>) -> bool
    decreases a.len(),
{
    if b.len() == 0 {
        false
    } else if a.len() == 0 {
        true
    } else if a[0] != b[0] {
        a[0] < b[0]
    } else {
        lesser(a.drop_first(), b.drop_first())
    }
}

proof fn lemma_lesser(a: Seq<char>, b: Seq<char>)
    ensures
        !(lesser(a, b) && lesser(b, a)),
        lesser(a, b) || lesser(b, a) || a == b,
        !lesser(a, a),
    decreases a.len(),
{
    if a.len() > 0 {
        lemma_lesser(a.drop_first(), a.drop_first());
        if b.len() > 0 {
            lemma_lesser(a.drop_first(), b.drop_first());
            if a[0] == b[0] && a.drop_first() == b.drop_first() {
                assert(a =~= seq![a[0]] + a.drop_first());
                assert(b =~= seq![b[0]] + b.drop_first());
            }
        }
    } else if b.len() == 0 {
        assert(a =~= b);
    }
}

proof fn lemma_lesser_trans(a: Seq<char>, b: Seq<char>, c: Seq<char>)
    requires
        lesser(a, b),
        lesser(b, c),
    ensures
        lesser(a, c),
    decreases a.len(),
{
    if a.len() > 0 && a[0] == b[0] && b[0] == c[0] {
        lemma_lesser_trans(a.drop_first(), b.drop_first(), c.drop_first());
    }
}

fn is_lesser(a: &str, b: &str) -> (r: bool)
    ensures
        r == lesser(a@, b@),
{
    let n = a.unicode_len();
    let m = b.unicode_len();
    let mut i: usize = 0;
    assert(a@.skip(0) =~= a@);
    assert(b@.skip(0) =~= b@);
    loop
        invariant
            i <= n == a@.len(),
            i <= m == b@.len(),
            lesser(a@, b@) == lesser(a@.skip(i as int), b@.skip(i as int)),
        decreases n - i,
    {
        if i >= m {
            return false;
        }
        if i >= n {
            return true;
        }
        let x = a.get_char(i);
        let y = b.get_char(i);
        assert(a@.skip(i as int)[0] == x && b@.skip(i as int)[0] == y);
        if x != y {
            return x < y;
        }
        assert(a@.skip(i as int).drop_first() =~= a@.skip(i + 1));
        assert(b@.skip(i as int).drop_first() =~= b@.skip(i + 1));
        i = i + 1;
    }
}

/// The verbs stand in order, each once.
pub open spec fn are_listed(list: Seq<(String, usize)>) -> bool {
    forall|i: int, j: int| 0 <= i < j < list.len() ==> lesser(#[trigger] list[i].0@, #[trigger] list[j].0@)
}

/// A list of verbs and how often each was called.
pub type Counts = Vec<(String, usize)>;

pub open spec fn has_verb(list: Seq<(String, usize)>, verb: Seq<char>) -> bool {
    exists|i: int| 0 <= i < list.len() && (#[trigger] list[i]).0@ == verb
}

pub open spec fn place_of(list: Seq<(String, usize)>, verb: Seq<char>) -> int {
    choose|i: int| 0 <= i < list.len() && (#[trigger] list[i]).0@ == verb
}

/// How often each verb was called.
pub open spec fn counts_of(list: Seq<(String, usize)>) -> Map<Seq<char>, nat> {
    Map::new(
        |verb: Seq<char>| has_verb(list, verb),
        |verb: Seq<char>| list[place_of(list, verb)].1 as nat,
    )
}

proof fn lemma_place(list: Seq<(String, usize)>, i: int)
    requires
        are_listed(list),
        0 <= i < list.len(),
    ensures
        has_verb(list, list[i].0@),
        place_of(list, list[i].0@) == i,
{
    let verb = list[i].0@;
    assert(has_verb(list, verb));
    let k = place_of(list, verb);
    assert(0 <= k < list.len() && list[k].0@ == verb);
    lemma_lesser(verb, verb);
    if k < i {
        assert(lesser(list[k].0@, list[i].0@));
    }
    if i < k {
        assert(lesser(list[i].0@, list[k].0@));
    }
}

/// Counts the verb once more; `false` where that cannot be held.
pub fn add_one(list: &mut Counts, verb: &str) -> (held: bool)
    requires
        are_listed(old(list)@),
    ensures
        are_listed(final(list)@),
        ({
            let before = counts_of(old(list)@);
            let count = if before.dom().contains(verb@) {
                before[verb@]
            } else {
                0
            };
            &&& held ==> counts_of(final(list)@) == before.insert(verb@, count + 1)
            &&& !held ==> count == usize::MAX && final(list)@ == old(list)@
        }),
{
    let ghost before = list@;
    let mut i: usize = 0;
    while i < list.len() && is_lesser(list[i].0.as_str(), verb)
        invariant
            i <= list@.len(),
            list@ == before,
            forall|k: int| 0 <= k < i ==> lesser((#[trigger] before[k]).0@, verb@),
        decreases list@.len() - i,
    {
        i = i + 1;
    }
    if i < list.len() && text::same(list[i].0.as_str(), verb) {
        proof {
            lemma_place(before, i as int);
        }
        let count = list[i].1;
        match count.checked_add(1) {
            None => return false,
            Some(more) => {
                let (key, _) = list.remove(i);
                list.insert(i, (key, more));
                proof {
                    let after = list@;
                    assert forall|k: int| 0 <= k < before.len() implies (#[trigger] after[k]).0
                        == before[k].0 && (k != i ==> after[k].1 == before[k].1) by {}
                    assert(after.len() == before.len());
                    assert(are_listed(after)) by {
                        assert forall|x: int, y: int| 0 <= x < y < after.len() implies lesser(
                            #[trigger] after[x].0@,
                            #[trigger] after[y].0@,
                        ) by {
                            assert(lesser(before[x].0@, before[y].0@));
                        }
                    }
                    lemma_updated(before, after, i as int, verb@, more);
                }
                return true;
            },
        }
    }
    proof {
        assert(!has_verb(before, verb@)) by {
            if has_verb(before, verb@) {
                let k = place_of(before, verb@);
                lemma_lesser(verb@, verb@);
                if k < i {
                    assert(lesser(before[k].0@, verb@));
                } else if k > i {
                    assert(lesser(before[i as int].0@, before[k].0@));
                }
            }
        }
    }
    list.insert(i, (verb.to_owned(), 1));
    proof {
        let after = list@;
        assert(are_listed(after)) by {
            assert forall|x: int, y: int| 0 <= x < y < after.len() implies lesser(
                #[trigger] after[x].0@,
                #[trigger] after[y].0@,
            ) by {
                if y < i {
                    assert(lesser(before[x].0@, before[y].0@));
                } else if y == i {
                    assert(lesser(before[x].0@, verb@));
                } else {
                    let z = y - 1;
                    assert(after[y] == before[z]);
                    if x < i {
                        assert(lesser(before[x].0@, before[z].0@));
                    } else if x == i {
                        lemma_lesser(before[i as int].0@, verb@);
                        if z > i {
                            assert(lesser(before[i as int].0@, before[z].0@));
                            lemma_lesser_trans(verb@, before[i as int].0@, before[z].0@);
                        }
                    } else {
                        assert(after[x] == before[x - 1]);
                        assert(lesser(before[x - 1].0@, before[z].0@));
                    }
                }
            }
        }
        lemma_inserted(before, after, i as int, verb@);
    }
    true
}

proof fn lemma_updated(
    before: Seq<(String, usize)>,
    after: Seq<(String, usize)>,
    at: int,
    verb: Seq<char>,
    more: usize,
)
    requires
        are_listed(before),
        are_listed(after),
        after.len() == before.len(),
        0 <= at < before.len(),
        before[at].0@ == verb,
        after[at].1 == more,
        forall|k: int|
            0 <= k < before.len() ==> (#[trigger] after[k]).0 == before[k].0 && (k != at
                ==> after[k].1 == before[k].1),
    ensures
        counts_of(after) == counts_of(before).insert(verb, more as nat),
{
    let (a, b) = (counts_of(after), counts_of(before).insert(verb, more as nat));
    assert forall|v: Seq<char>| a.dom().contains(v) <==> b.dom().contains(v) by {
        if has_verb(after, v) {
            let k = place_of(after, v);
            assert(before[k].0@ == v);
        }
        if has_verb(before, v) {
            let k = place_of(before, v);
            assert(after[k].0@ == v);
        }
        if v == verb {
            assert(after[at].0@ == v);
        }
    }
    assert forall|v: Seq<char>| a.dom().contains(v) implies a[v] == b[v] by {
        let k = place_of(after, v);
        assert(after[k].0@ == v);
        lemma_place(after, k);
        lemma_place(before, k);
        lemma_place(before, at);
        assert(before[k].0@ == v);
    }
    assert(a =~= b);
}

proof fn lemma_inserted(
    before: Seq<(String, usize)>,
    after: Seq<(String, usize)>,
    at: int,
    verb: Seq<char>,
)
    requires
        are_listed(before),
        are_listed(after),
        0 <= at <= before.len(),
        after.len() == before.len() + 1,
        after[at].0@ == verb && after[at].1 == 1,
        forall|k: int| 0 <= k < at ==> after[k] == before[k],
        forall|k: int| at <= k < before.len() ==> after[k + 1] == #[trigger] before[k],
        !has_verb(before, verb),
    ensures
        counts_of(after) == counts_of(before).insert(verb, 1),
{
    let (a, b) = (counts_of(after), counts_of(before).insert(verb, 1));
    assert forall|v: Seq<char>| a.dom().contains(v) <==> b.dom().contains(v) by {
        if has_verb(after, v) {
            let k = place_of(after, v);
            assert(after[k].0@ == v);
            if k < at {
                assert(before[k].0@ == v);
            } else if k > at {
                assert(after[k - 1 + 1] == before[k - 1]);
                assert(before[k - 1].0@ == v);
            }
        }
        if has_verb(before, v) {
            let k = place_of(before, v);
            assert(before[k].0@ == v);
            if k < at {
                assert(after[k].0@ == v);
            } else {
                assert(after[k + 1].0@ == v);
            }
        }
        if v == verb {
            assert(after[at].0@ == v);
        }
    }
    assert forall|v: Seq<char>| a.dom().contains(v) implies a[v] == b[v] by {
        let k = place_of(after, v);
        assert(after[k].0@ == v);
        lemma_place(after, k);
        lemma_place(after, at);
        if k < at {
            lemma_place(before, k);
        } else if k > at {
            assert(after[k - 1 + 1] == before[k - 1]);
            lemma_place(before, k - 1);
        }
    }
    assert(a =~= b);
}

/// Texts stand in the order of their first difference, and a part before the whole.
pub proof fn law_texts_are_ordered_by_their_first_difference(a: Seq<char>, b: Seq<char>, n: int)
    requires
        0 <= n <= a.len(),
        n <= b.len(),
        a.take(n) == b.take(n),
        n == a.len() || n == b.len() || a[n] != b[n],
    ensures
        lesser(a, b) == (n < b.len() && (n == a.len() || a[n] < b[n])),
    decreases n,
{
    if n > 0 {
        assert(a.take(n)[0] == a[0] && b.take(n)[0] == b[0]);
        let (x, y) = (a.drop_first(), b.drop_first());
        assert(x.take(n - 1) =~= a.take(n).drop_first());
        assert(y.take(n - 1) =~= b.take(n).drop_first());
        law_texts_are_ordered_by_their_first_difference(x, y, n - 1);
    }
}

} // verus!
