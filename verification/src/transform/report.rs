//! What a call is answered with, once every file of it was tried.
use vstd::prelude::*;

use crate::edit::apply::{are_grouped, group as group_files, is_group, is_member, Group};
use crate::edit::check::CommandVerdict;
use crate::edit::report::{files_text, firsts, path_list, reasons, Reverted};
use crate::error::{CheckLayer, Error};
use crate::find::order::{is_put_in_order, sort, Order, Placed};
use crate::find::path::{
    compare_paths, law_components_order_is_antisymmetric, law_components_order_is_transitive,
    listed_order, parts_of,
};
use crate::find::walk::copy_texts;
use crate::output::{
    tell, told_all, Body, CheckResult, Line, Omission, Outcome, Response, Stats, Told,
    TransformResult,
};
use crate::text;
use crate::text::{
    decimal, decimal_of, has_text, holds, joined, plural, plural_suffix, texts, words_of,
};
use crate::transform::spec::VERB;
use crate::window::{content_bytes, lines_bytes};

verus! {

/// The first word of a command, as the footer names its checker.
pub open spec fn first_word(cmd: Seq<char>) -> Seq<char> {
    if words_of(cmd).len() == 0 {
        cmd
    } else {
        words_of(cmd)[0]
    }
}

pub fn checker_name(cmd: &str) -> (r: String)
    ensures
        r@ == first_word(cmd@),
{
    let words = text::words(cmd);
    assert(texts(words@).len() == words@.len());
    if words.len() == 0 {
        return cmd.to_owned();
    }
    assert(texts(words@)[0] == words@[0]@);
    words[0].clone()
}

/// A group of operations on one file, listed by the file's canonical path.
pub struct Keyed {
    pub key: String,
    pub group: Group,
}

impl Placed for Keyed {
    open spec fn precedes(self, other: Keyed) -> bool {
        listed_order(self.key@, other.key@) != Order::Greater
    }

    proof fn lemma_total(a: Keyed, b: Keyed) {
        law_components_order_is_antisymmetric(parts_of(a.key@), parts_of(b.key@));
        law_components_order_is_antisymmetric(parts_of(b.key@), parts_of(a.key@));
    }

    proof fn lemma_transitive(a: Keyed, b: Keyed, c: Keyed) {
        law_components_order_is_transitive(
            parts_of(a.key@),
            parts_of(b.key@),
            parts_of(c.key@),
        );
    }

    fn stands_before(&self, other: &Keyed) -> (r: bool) {
        match compare_paths(self.key.as_str(), other.key.as_str()) {
            Order::Greater => false,
            _ => true,
        }
    }
}

/// The groups with their keys.
pub open spec fn are_keyed(all: Seq<Keyed>, groups: Seq<Group>, keys: Seq<String>) -> bool {
    &&& all.len() == groups.len()
    &&& forall|i: int|
        0 <= i < groups.len() ==> (#[trigger] all[i]).group == groups[i] && all[i].key@
            == keys[groups[i].members@[0] as int]@
}

pub open spec fn groups_of(list: Seq<Keyed>) -> Seq<Group> {
    list.map_values(|keyed: Keyed| keyed.group)
}

/// The files in the order they are written: by canonical path, so which land before a failure never
/// depends on the order in which a batch listed them.
pub open spec fn are_ordered(groups: Seq<Group>, files: Seq<String>, keys: Seq<String>) -> bool {
    exists|grouped: Seq<Group>, all: Seq<Keyed>, list: Seq<Keyed>|
        are_grouped(grouped, files, keys, files.len() as int) && #[trigger] are_keyed(
            all,
            grouped,
            keys,
        ) && is_put_in_order(all, list) && #[trigger] groups_of(list)
            == groups
}

/// The canonical paths of the groups.
pub open spec fn keys_of(groups: Seq<Group>, keys: Seq<String>) -> Seq<Seq<char>> {
    groups.map_values(|group: Group| keys[group.members@[0] as int]@)
}

/// Each comes before those behind it.
pub open spec fn ascends(paths: Seq<Seq<char>>) -> bool {
    forall|i: int, j: int|
        0 <= i < j < paths.len() ==> listed_order(#[trigger] paths[i], #[trigger] paths[j])
            == Order::Less
}

/// Of no path is there a second spelling.
pub open spec fn are_canonical(keys: Seq<String>) -> bool {
    forall|j: int, k: int|
        0 <= j < keys.len() && 0 <= k < keys.len() && parts_of(#[trigger] keys[j]@) == parts_of(
            #[trigger] keys[k]@,
        ) ==> keys[j]@ == keys[k]@
}

proof fn lemma_ascending(groups: Seq<Group>, files: Seq<String>, keys: Seq<String>)
    requires
        files.len() == keys.len(),
        are_ordered(groups, files, keys),
        are_canonical(keys),
    ensures
        ascends(keys_of(groups, keys)),
        forall|t: Seq<char>| #[trigger]
            keys_of(groups, keys).contains(t) <==> has_text(keys, t),
{
    let (grouped, all, list) = choose|grouped: Seq<Group>, all: Seq<Keyed>, list: Seq<Keyed>|
        are_grouped(grouped, files, keys, files.len() as int) && #[trigger] are_keyed(
            all,
            grouped,
            keys,
        ) && is_put_in_order(all, list) && #[trigger] groups_of(list)
            == groups;
    let paths = keys_of(groups, keys);
    broadcast use vstd::seq_lib::group_to_multiset_ensures;

    assert(all.no_duplicates()) by {
        assert forall|i: int, j: int| 0 <= i < j < all.len() implies all[i] != all[j] by {
            assert(all[i].group == grouped[i] && all[j].group == grouped[j]);
            assert(grouped[i].members@[0] < grouped[j].members@[0]);
        }
    }
    all.lemma_multiset_has_no_duplicates();
    assert(list.no_duplicates()) by {
        assert forall|x: Keyed| list.to_multiset().contains(x) implies list.to_multiset().count(x)
            == 1 by {
            assert(all.to_multiset().contains(x));
        }
        list.lemma_multiset_has_no_duplicates_conv();
    }
    assert forall|i: int| 0 <= i < list.len() implies all.contains(#[trigger] list[i]) by {
        assert(list.contains(list[i]));
        assert(list.to_multiset().count(list[i]) > 0);
    }
    assert forall|i: int| 0 <= i < list.len() implies #[trigger] paths[i] == list[i].key@ by {
        let p = choose|p: int| 0 <= p < all.len() && all[p] == list[i];
        assert(all[p].group == grouped[p]);
        assert(groups[i] == list[i].group);
    }
    assert forall|i: int, j: int| 0 <= i < j < paths.len() implies listed_order(
        #[trigger] paths[i],
        #[trigger] paths[j],
    ) == Order::Less by {
        let p = choose|p: int| 0 <= p < all.len() && all[p] == list[i];
        let q = choose|q: int| 0 <= q < all.len() && all[q] == list[j];
        assert(list[i] != list[j]);
        assert(list[i].precedes(list[j]));
        assert(all[p].group == grouped[p] && all[q].group == grouped[q]);
        assert(is_group(grouped[p], files, keys) && is_group(grouped[q], files, keys));
        let (m, n) = (grouped[p].members@[0] as int, grouped[q].members@[0] as int);
        assert(keys[m]@ != keys[n]@) by {
            if p < q {
                assert(grouped[p].members@[0] < grouped[q].members@[0]);
            } else {
                assert(grouped[q].members@[0] < grouped[p].members@[0]);
            }
        }
        law_components_order_is_antisymmetric(parts_of(keys[m]@), parts_of(keys[n]@));
    }
    assert forall|t: Seq<char>| #[trigger] paths.contains(t) <==> has_text(keys, t) by {
        if paths.contains(t) {
            let i = choose|i: int| 0 <= i < paths.len() && paths[i] == t;
            let p = choose|p: int| 0 <= p < all.len() && all[p] == list[i];
            assert(all[p].group == grouped[p]);
            assert(is_group(grouped[p], files, keys));
            assert(keys[grouped[p].members@[0] as int]@ == t);
        }
        if has_text(keys, t) {
            let k = choose|k: int| 0 <= k < keys.len() && #[trigger] keys[k]@ == t;
            assert(is_member(grouped, k));
            let (g, a) = choose|g: int, a: int|
                0 <= g < grouped.len() && 0 <= a < grouped[g].members@.len()
                    && #[trigger] grouped[g].members@[a] == k;
            assert(is_group(grouped[g], files, keys));
            assert(all[g].key@ == t);
            assert(all.contains(all[g]));
            assert(all.to_multiset().count(all[g]) > 0);
            assert(list.contains(all[g]));
            let i = choose|i: int| 0 <= i < list.len() && list[i] == all[g];
            assert(paths[i] == t);
        }
    }
}

proof fn lemma_first_of_ascent(a: Seq<Seq<char>>, b: Seq<Seq<char>>)
    requires
        ascends(a),
        ascends(b),
        a.len() > 0,
        b.len() > 0,
        a.contains(b[0]),
        b.contains(a[0]),
    ensures
        a[0] == b[0],
{
    let i = choose|i: int| 0 <= i < a.len() && a[i] == b[0];
    let j = choose|j: int| 0 <= j < b.len() && b[j] == a[0];
    if i > 0 {
        assert(listed_order(a[0], a[i]) == Order::Less);
        if j > 0 {
            assert(listed_order(b[0], b[j]) == Order::Less);
        }
        law_components_order_is_antisymmetric(parts_of(a[0]), parts_of(b[0]));
    }
}

proof fn lemma_rest_ascends(a: Seq<Seq<char>>)
    requires
        ascends(a),
        a.len() > 0,
    ensures
        ascends(a.drop_first()),
        !a.drop_first().contains(a[0]),
        forall|t: Seq<char>| #[trigger]
            a.contains(t) <==> t == a[0] || a.drop_first().contains(t),
{
    let x = a.drop_first();
    assert forall|m: int, n: int| 0 <= m < n < x.len() implies listed_order(
        #[trigger] x[m],
        #[trigger] x[n],
    ) == Order::Less by {
        assert(x[m] == a[m + 1] && x[n] == a[n + 1]);
    }
    if x.contains(a[0]) {
        let k = choose|k: int| 0 <= k < x.len() && x[k] == a[0];
        assert(listed_order(a[0], a[k + 1]) == Order::Less);
        law_components_order_is_antisymmetric(parts_of(a[0]), parts_of(a[0]));
    }
    assert forall|t: Seq<char>| #[trigger] a.contains(t) <==> t == a[0] || x.contains(t) by {
        if a.contains(t) {
            let k = choose|k: int| 0 <= k < a.len() && a[k] == t;
            if k > 0 {
                assert(x[k - 1] == t);
            }
        }
        if x.contains(t) {
            let k = choose|k: int| 0 <= k < x.len() && x[k] == t;
            assert(a[k + 1] == t);
        }
        if t == a[0] {
            assert(a.contains(a[0]));
        }
    }
}

proof fn lemma_one_ascent(a: Seq<Seq<char>>, b: Seq<Seq<char>>)
    requires
        ascends(a),
        ascends(b),
        forall|t: Seq<char>| #[trigger] a.contains(t) <==> b.contains(t),
    ensures
        a == b,
    decreases a.len(),
{
    if a.len() == 0 || b.len() == 0 {
        if b.len() > 0 {
            assert(b.contains(b[0]));
            assert(a.contains(b[0]));
        }
        if a.len() > 0 {
            assert(a.contains(a[0]));
        }
        assert(a =~= b);
    } else {
        assert(a.contains(a[0]) && b.contains(b[0]));
        assert(b.contains(a[0]) && a.contains(b[0]));
        lemma_first_of_ascent(a, b);
        lemma_rest_ascends(a);
        lemma_rest_ascends(b);
        let (x, y) = (a.drop_first(), b.drop_first());
        assert forall|t: Seq<char>| #[trigger] x.contains(t) <==> y.contains(t) by {
            assert(a.contains(t) <==> b.contains(t));
        }
        lemma_one_ascent(x, y);
        assert(a =~= seq![a[0]] + x && b =~= seq![a[0]] + y);
    }
}

/// Two calls that name the same files, in whatever order and however often, write them in the same
/// order, so which of them land before a failure never depends on how a call lists them.
pub proof fn law_files_are_written_in_one_order(
    groups: Seq<Group>,
    files: Seq<String>,
    keys: Seq<String>,
    others: Seq<Group>,
    other_files: Seq<String>,
    other_keys: Seq<String>,
)
    requires
        files.len() == keys.len(),
        other_files.len() == other_keys.len(),
        are_ordered(groups, files, keys),
        are_ordered(others, other_files, other_keys),
        are_canonical(keys),
        are_canonical(other_keys),
        forall|t: Seq<char>| #[trigger] has_text(keys, t) <==> has_text(other_keys, t),
    ensures
        keys_of(groups, keys) == keys_of(others, other_keys),
        ascends(keys_of(groups, keys)),
{
    lemma_ascending(groups, files, keys);
    lemma_ascending(others, other_files, other_keys);
    let (a, b) = (keys_of(groups, keys), keys_of(others, other_keys));
    assert forall|t: Seq<char>| #[trigger] a.contains(t) <==> b.contains(t) by {
        assert(has_text(keys, t) <==> has_text(other_keys, t));
    }
    lemma_one_ascent(a, b);
}

/// Groups the operations of a call by the file they name, in the order the files are written.
pub fn group(files: &Vec<String>, canonical: &Vec<String>) -> (groups: Vec<Group>)
    requires
        files@.len() == canonical@.len(),
    ensures
        are_ordered(groups@, files@, canonical@),
{
    let mut rest = group_files(files, canonical);
    let ghost grouped = rest@;
    let count = rest.len();
    let mut keyed: Vec<Keyed> = Vec::new();
    let mut i: usize = 0;
    assert(rest@ =~= grouped.skip(0));
    while i < count
        invariant
            i <= count == grouped.len(),
            files@.len() == canonical@.len(),
            rest@ == grouped.skip(i as int),
            are_grouped(grouped, files@, canonical@, files@.len() as int),
            keyed@.len() == i,
            forall|k: int|
                0 <= k < i ==> (#[trigger] keyed@[k]).group == grouped[k] && keyed@[k].key@
                    == canonical@[grouped[k].members@[0] as int]@,
        decreases count - i,
    {
        let one = rest.remove(0);
        assert(one == grouped[i as int]);
        assert(rest@ =~= grouped.skip(i + 1));
        assert(crate::edit::apply::is_group(grouped[i as int], files@, canonical@));
        assert(one.members@[0] < canonical@.len());
        let key = canonical[one.members[0]].clone();
        keyed.push(Keyed { key, group: one });
        i = i + 1;
    }
    let ghost all = keyed@;
    let mut list = sort(keyed);
    let ghost in_order = list@;
    let mut groups: Vec<Group> = Vec::new();
    let mut i: usize = 0;
    while i < count
        invariant
            i <= count == in_order.len(),
            list@ == in_order.skip(i as int),
            groups@ == groups_of(in_order).take(i as int),
        decreases count - i,
    {
        let one = list.remove(0);
        groups.push(one.group);
        i = i + 1;
        assert(list@ =~= in_order.skip(i as int));
        assert(groups@ =~= groups_of(in_order).take(i as int));
    }
    proof {
        assert(groups@ =~= groups_of(in_order));
        assert(are_keyed(all, grouped, canonical@));
    }
    groups
}

/// The lines of a result that are shown.
pub open spec fn shown_lines(result: TransformResult) -> Seq<Line> {
    match result.region {
        Some(region) => region.lines@,
        None => Seq::empty(),
    }
}

/// How many lines the first `n` results show, and the bytes of them.
pub open spec fn shown_upto(results: Seq<TransformResult>, n: int) -> (nat, nat)
    decreases n,
{
    if n <= 0 {
        (0, 0)
    } else {
        let (lines, bytes) = shown_upto(results, n - 1);
        let shown = shown_lines(results[n - 1]);
        (lines + shown.len(), bytes + lines_bytes(shown))
    }
}

proof fn lemma_shown(results: Seq<TransformResult>, m: int, n: int)
    requires
        0 <= m <= n,
    ensures
        shown_upto(results, m).0 <= shown_upto(results, n).0,
        shown_upto(results, m).1 <= shown_upto(results, n).1,
        shown_upto(results, n).0 <= shown_upto(results, n).1,
    decreases n,
{
    if n > 0 {
        crate::edit::report::lemma_lines_within_bytes(shown_lines(results[n - 1]));
        if m < n {
            lemma_shown(results, m, n - 1);
        } else {
            lemma_shown(results, 0, n - 1);
        }
    }
}

/// What the results show can be counted.
pub open spec fn are_countable(results: Seq<TransformResult>) -> bool {
    shown_upto(results, results.len() as int).1 <= usize::MAX
}

pub open spec fn stats_of(results: Seq<TransformResult>) -> Stats {
    let (lines, bytes) = shown_upto(results, results.len() as int);
    Stats { lines: lines as usize, bytes: bytes as usize }
}

fn count_stats(results: &Vec<TransformResult>) -> (r: Stats)
    requires
        are_countable(results@),
    ensures
        r == stats_of(results@),
{
    let mut lines: usize = 0;
    let mut bytes: usize = 0;
    let mut i: usize = 0;
    while i < results.len()
        invariant
            i <= results@.len(),
            are_countable(results@),
            (lines as nat, bytes as nat) == shown_upto(results@, i as int),
        decreases results@.len() - i,
    {
        proof {
            lemma_shown(results@, i + 1, results@.len() as int);
        }
        if let Some(region) = &results[i].region {
            lines = lines + region.lines.len();
            bytes = bytes + content_bytes(region.lines.as_slice());
        }
        i = i + 1;
    }
    Stats { lines, bytes }
}

/// Those of the first `n` results whose files are among the written ones.
pub open spec fn among_upto(
    results: Seq<TransformResult>,
    written: Seq<String>,
    n: int,
) -> Seq<TransformResult>
    decreases n,
{
    if n <= 0 {
        Seq::empty()
    } else if has_text(written, results[n - 1].path@) {
        among_upto(results, written, n - 1).push(results[n - 1])
    } else {
        among_upto(results, written, n - 1)
    }
}

pub open spec fn among(results: Seq<TransformResult>, written: Seq<String>) -> Seq<
    TransformResult,
> {
    among_upto(results, written, results.len() as int)
}

proof fn lemma_among_shown(results: Seq<TransformResult>, written: Seq<String>, n: int)
    requires
        0 <= n <= results.len(),
    ensures
        ({
            let kept = among_upto(results, written, n);
            shown_upto(kept, kept.len() as int).1 <= shown_upto(results, n).1
        }),
    decreases n,
{
    if n > 0 {
        lemma_among_shown(results, written, n - 1);
        let before = among_upto(results, written, n - 1);
        let after = among_upto(results, written, n);
        if after.len() > before.len() {
            lemma_shown_same(before, after, before.len() as int);
        }
    }
}

proof fn lemma_shown_same(a: Seq<TransformResult>, b: Seq<TransformResult>, n: int)
    requires
        0 <= n <= a.len(),
        n <= b.len(),
        forall|i: int| 0 <= i < n ==> a[i] == b[i],
    ensures
        shown_upto(a, n) == shown_upto(b, n),
    decreases n,
{
    if n > 0 {
        lemma_shown_same(a, b, n - 1);
    }
}

fn keep_among(results: Vec<TransformResult>, written: &Vec<String>) -> (r: Vec<TransformResult>)
    ensures
        r@ == among(results@, written@),
{
    let ghost all = results@;
    let mut rest = results;
    let mut out: Vec<TransformResult> = Vec::new();
    let count = rest.len();
    let mut i: usize = 0;
    assert(rest@ =~= all.skip(0));
    while i < count
        invariant
            i <= count == all.len(),
            rest@ == all.skip(i as int),
            out@ == among_upto(all, written@, i as int),
        decreases count - i,
    {
        let one = rest.remove(0);
        assert(one == all[i as int]);
        assert(rest@ =~= all.skip(i + 1));
        if holds(written, one.path.as_str()) {
            out.push(one);
        }
        i = i + 1;
    }
    out
}

/// The answer to a batch that landed in part: the results of the files that were written.
pub open spec fn is_partial(
    o: Outcome,
    summary: Seq<char>,
    results: Seq<TransformResult>,
    written: Seq<Seq<char>>,
    failed: Seq<char>,
    detail: Seq<char>,
    omitted: Seq<Omission>,
) -> bool {
    &&& o.response.verb@ == VERB@
    &&& o.response.summary@ == summary
    &&& told_all(o.response.omitted@) == told_all(omitted).push(Told::Partial { written })
    &&& o.response.body matches Body::Transform(shown) && shown@ == results
    &&& o.response.stats == stats_of(results)
    &&& !o.response.no_header
    &&& o.response.top_files@.len() == 0
    &&& o.response.top_files_more == 0
    &&& o.error matches Some(Error::PartialBatch { written: w, failed: f, detail: d }) && texts(w@)
        == written && f@ == failed && d@ == detail
}

pub fn partial_batch(
    summary: String,
    results: Vec<TransformResult>,
    written: Vec<String>,
    failed: String,
    detail: String,
    omitted: Vec<Omission>,
) -> (o: Outcome)
    requires
        are_countable(results@),
    ensures
        is_partial(o, summary@, results@, texts(written@), failed@, detail@, omitted@),
{
    let mut omitted = omitted;
    let again = copy_texts(&written);
    tell(&mut omitted, Omission::PartialBatch { written: again });
    let mut response = Response::empty(VERB);
    response.summary = summary;
    response.stats = count_stats(&results);
    response.omitted = omitted;
    response.body = Body::Transform(results);
    Outcome::partial(response, Error::PartialBatch { written, failed, detail })
}

/// The answer to a batch whose writing stopped.
pub fn stopped_writing(
    results: Vec<TransformResult>,
    written: Vec<String>,
    failed: String,
    detail: String,
    omitted: Vec<Omission>,
) -> (o: Outcome)
    requires
        are_countable(results@),
    ensures
        is_partial(
            o,
            decimal_of(written@.len()) + " of "@ + decimal_of(results@.len()) + " file"@ + plural(
                results@.len(),
            ) + " written \u{b7} "@ + failed@ + " failed"@,
            among(results@, written@),
            texts(written@),
            failed@,
            detail@,
            omitted@,
        ),
{
    let total = results.len();
    proof {
        lemma_among_shown(results@, written@, results@.len() as int);
    }
    let kept = keep_among(results, &written);
    let summary = decimal(written.len()).concat(" of ").concat(decimal(total).as_str()).concat(
        " file",
    ).concat(plural_suffix(total)).concat(" written \u{b7} ").concat(failed.as_str()).concat(
        " failed",
    );
    partial_batch(summary, kept, written, failed, detail, omitted)
}

/// The paths of the files that are not as they were.
fn paths_of(pairs: &Vec<(String, String)>) -> (r: Vec<String>)
    ensures
        texts(r@) == firsts(pairs@),
        r@.len() == pairs@.len(),
{
    let mut out: Vec<String> = Vec::new();
    let mut i: usize = 0;
    assert(texts(out@) =~= firsts(pairs@).take(0));
    while i < pairs.len()
        invariant
            i <= pairs@.len(),
            out@.len() == i,
            texts(out@) == firsts(pairs@).take(i as int),
        decreases pairs@.len() - i,
    {
        let ghost had = out@;
        out.push(pairs[i].0.clone());
        assert(texts(out@) =~= texts(had).push(pairs@[i as int].0@));
        i = i + 1;
        assert(texts(out@) =~= firsts(pairs@).take(i as int));
    }
    assert(texts(out@) =~= firsts(pairs@));
    out
}

fn reasons_of(pairs: &Vec<(String, String)>) -> (r: Vec<String>)
    ensures
        texts(r@) == reasons(pairs@),
{
    let mut out: Vec<String> = Vec::new();
    let mut i: usize = 0;
    assert(texts(out@) =~= reasons(pairs@).take(0));
    while i < pairs.len()
        invariant
            i <= pairs@.len(),
            texts(out@) == reasons(pairs@).take(i as int),
        decreases pairs@.len() - i,
    {
        let ghost had = out@;
        out.push(pairs[i].0.clone().concat(" (").concat(pairs[i].1.as_str()).concat(")"));
        assert(texts(out@) =~= texts(had).push(reasons(pairs@)[i as int]));
        i = i + 1;
        assert(texts(out@) =~= reasons(pairs@).take(i as int));
    }
    assert(texts(out@) =~= reasons(pairs@));
    out
}

fn count_files(n: usize) -> (r: String)
    ensures
        r@ == files_text(n as nat),
{
    decimal(n).concat(" file").concat(plural_suffix(n))
}

/// A command as a message names it.
pub open spec fn command_text(cmd: Seq<char>) -> Seq<char> {
    "`"@ + cmd + "`"@
}

/// The answer to a batch that the checker turned against.
pub open spec fn is_reverted(
    o: Outcome,
    results: Seq<TransformResult>,
    landed: Seq<String>,
    cmd: Seq<char>,
    excerpt: Seq<char>,
    back: Reverted,
    omitted: Seq<Omission>,
) -> bool {
    if back.not_restored@.len() == 0 {
        &&& o.response.is_empty_for(VERB@)
        &&& o.error matches Some(Error::CheckFailed { path, layer: CheckLayer::Command, detail })
            && path@ == (if landed.len() > 0 {
            landed[0]@
        } else {
            ""@
        }) && detail@ == command_text(cmd) + " passed before the batch and failed after it"@ + (
        if excerpt.len() == 0 {
            ""@
        } else {
            ": "@ + excerpt
        }) + " \u{b7} "@ + files_text(landed.len()) + " reverted"@
    } else {
        let written = firsts(back.not_restored@);
        let head = command_text(cmd) + " failed after "@ + files_text(landed.len()) + " landed"@;
        let restored = if back.restored@.len() == 0 {
            head
        } else {
            head + " \u{b7} restored "@ + joined(texts(back.restored@), ", "@)
        };
        exists|names: Seq<String>| #[trigger]
            texts(names) == written && is_partial(
                o,
                restored + " \u{b7} not restored "@ + joined(written, ", "@),
                among(results, names),
                written,
                written[0],
                command_text(cmd)
                    + " failed after the batch landed and the revert could not restore "@ + joined(
                    reasons(back.not_restored@),
                    ", "@,
                ),
                omitted,
            )
    }
}

pub fn reverted(
    results: Vec<TransformResult>,
    landed: &Vec<String>,
    cmd: &str,
    excerpt: &str,
    back: &Reverted,
    omitted: Vec<Omission>,
) -> (o: Outcome)
    requires
        are_countable(results@),
    ensures
        is_reverted(o, results@, landed@, cmd@, excerpt@, *back, omitted@),
{
    let checker = "`".to_owned().concat(cmd).concat("`");
    if back.not_restored.len() == 0 {
        let path = if landed.len() > 0 {
            landed[0].clone()
        } else {
            "".to_owned()
        };
        let said = if excerpt.is_empty() {
            "".to_owned()
        } else {
            ": ".to_owned().concat(excerpt)
        };
        let detail = checker.concat(" passed before the batch and failed after it").concat(
            said.as_str(),
        ).concat(" \u{b7} ").concat(count_files(landed.len()).as_str()).concat(" reverted");
        return Outcome::failed(
            VERB,
            Error::CheckFailed { path, layer: CheckLayer::Command, detail },
        );
    }
    let written = paths_of(&back.not_restored);
    let why = reasons_of(&back.not_restored);
    let mut summary = checker.clone().concat(" failed after ").concat(
        count_files(landed.len()).as_str(),
    ).concat(" landed");
    if back.restored.len() > 0 {
        summary = summary.concat(" \u{b7} restored ").concat(path_list(&back.restored).as_str());
    }
    summary = summary.concat(" \u{b7} not restored ").concat(path_list(&written).as_str());
    let detail = checker.concat(
        " failed after the batch landed and the revert could not restore ",
    ).concat(text::join(&why, ", ").as_str());
    assert(texts(written@)[0] == written@[0]@);
    let first = written[0].clone();
    proof {
        lemma_among_shown(results@, written@, results@.len() as int);
        assert(texts(written@) == firsts(back.not_restored@));
    }
    let kept = keep_among(results, &written);
    partial_batch(summary, kept, written, first, detail, omitted)
}

/// The answer to a batch of which nothing was written.
pub open spec fn is_rejected(
    o: Outcome,
    total: nat,
    failure: Error,
    failed: Seq<String>,
    omitted: Seq<Omission>,
) -> bool {
    if total == 1 {
        o.is_failed(VERB@, failure)
    } else {
        &&& o.error == Some(failure)
        &&& o.response.verb@ == VERB@
        &&& o.response.omitted@ == omitted
        &&& o.response.summary@ == "0 of "@ + decimal_of(total)
            + " applied \u{b7} nothing written \u{b7} fix "@ + (if failed.len() == 0 {
            "the failing target"@
        } else {
            joined(texts(failed), ", "@)
        }) + " and re-run"@
        &&& o.response.body matches Body::Transform(results) && results@.len() == 0
        &&& o.response.stats == (Stats { lines: 0, bytes: 0 })
        &&& !o.response.no_header
        &&& o.response.top_files@.len() == 0
        &&& o.response.top_files_more == 0
    }
}

/// Names every failing file: fixing only the first and re-running would fail on the next.
pub fn rejected(
    total: usize,
    failure: Error,
    failed: &Vec<String>,
    omitted: Vec<Omission>,
) -> (o: Outcome)
    ensures
        is_rejected(o, total as nat, failure, failed@, omitted@),
{
    if total == 1 {
        return Outcome::failed(VERB, failure);
    }
    let names = if failed.len() == 0 {
        "the failing target".to_owned()
    } else {
        path_list(failed)
    };
    let mut response = Response::empty(VERB);
    response.omitted = omitted;
    response.summary = "0 of ".to_owned().concat(decimal(total).as_str()).concat(
        " applied \u{b7} nothing written \u{b7} fix ",
    ).concat(names.as_str()).concat(" and re-run");
    response.body = Body::Transform(Vec::new());
    Outcome::partial(response, failure)
}

/// What a check is counted under.
pub open spec fn label_of(check: CheckResult) -> Seq<char> {
    check.layer@ + " "@ + check.status@
}

/// A label and how often it was seen.
pub ghost struct Tally {
    pub label: Seq<char>,
    pub count: nat,
}

/// Where the label stands among the tallies, from the `i`-th on.
pub open spec fn place_of(tallies: Seq<Tally>, label: Seq<char>, i: int) -> Option<int>
    decreases tallies.len() - i,
{
    if i < 0 || i >= tallies.len() {
        None
    } else if tallies[i].label == label {
        Some(i)
    } else {
        place_of(tallies, label, i + 1)
    }
}

/// The label was seen once more.
pub open spec fn seen(tallies: Seq<Tally>, label: Seq<char>) -> Seq<Tally> {
    match place_of(tallies, label, 0) {
        Some(i) => tallies.update(i, Tally { label, count: tallies[i].count + 1 }),
        None => tallies.push(Tally { label, count: 1 }),
    }
}

/// The checks of the first `n` results, in the order in which they were first seen.
pub open spec fn tallied(results: Seq<TransformResult>, n: int) -> Seq<Tally>
    decreases n,
{
    if n <= 0 {
        Seq::empty()
    } else {
        match results[n - 1].check {
            Some(check) => seen(tallied(results, n - 1), label_of(check)),
            None => tallied(results, n - 1),
        }
    }
}

/// The first `n` tallies as text.
pub open spec fn tallies_text(tallies: Seq<Tally>, n: int) -> Seq<char>
    decreases n,
{
    if n <= 0 {
        Seq::empty()
    } else {
        tallies_text(tallies, n - 1) + (if n == 1 {
            " \u{b7} checks: "@
        } else {
            " \u{b7} "@
        }) + tallies[n - 1].label + " \u{d7}"@ + decimal_of(tallies[n - 1].count)
    }
}

/// How many operations the first `n` results hold.
pub open spec fn changes_upto(results: Seq<TransformResult>, n: int) -> nat
    decreases n,
{
    if n <= 0 {
        0
    } else {
        changes_upto(results, n - 1) + results[n - 1].operations@.len()
    }
}

/// The line under the answer of a batch.
pub open spec fn summary_text(
    results: Seq<TransformResult>,
    command: Option<CheckResult>,
) -> Seq<char> {
    let n = results.len() as int;
    let changes = changes_upto(results, n);
    let tallies = tallied(results, n);
    decimal_of(results.len()) + " file"@ + plural(results.len()) + " \u{b7} "@ + decimal_of(changes)
        + " change"@ + plural(changes) + " \u{b7} all applied"@ + tallies_text(
        tallies,
        tallies.len() as int,
    ) + (match command {
        Some(check) => " \u{b7} check: "@ + check.layer@ + " "@ + check.status@,
        None => ""@,
    })
}

/// The tallies as they are kept.
spec fn are_tallies(labels: Seq<String>, counts: Seq<usize>, tallies: Seq<Tally>) -> bool {
    &&& labels.len() == counts.len() == tallies.len()
    &&& forall|i: int|
        0 <= i < tallies.len() ==> (#[trigger] labels[i])@ == tallies[i].label && counts[i]
            == tallies[i].count
}

fn find_label(labels: &Vec<String>, label: &str, Ghost(tallies): Ghost<Seq<Tally>>, Ghost(
    counts,
): Ghost<Seq<usize>>) -> (r: Option<usize>)
    requires
        are_tallies(labels@, counts, tallies),
    ensures
        match r {
            Some(i) => place_of(tallies, label@, 0) == Some(i as int) && i < labels@.len(),
            None => place_of(tallies, label@, 0) is None,
        },
{
    let mut i: usize = 0;
    while i < labels.len()
        invariant
            i <= labels@.len(),
            are_tallies(labels@, counts, tallies),
            place_of(tallies, label@, 0) == place_of(tallies, label@, i as int),
        decreases labels@.len() - i,
    {
        assert(labels@[i as int]@ == tallies[i as int].label);
        if text::same(labels[i].as_str(), label) {
            return Some(i);
        }
        i = i + 1;
    }
    None
}

proof fn lemma_place(tallies: Seq<Tally>, label: Seq<char>, i: int)
    requires
        0 <= i,
    ensures
        match place_of(tallies, label, i) {
            Some(k) => i <= k < tallies.len() && tallies[k].label == label,
            None => forall|k: int| i <= k < tallies.len() ==> (#[trigger] tallies[k]).label != label,
        },
    decreases tallies.len() - i,
{
    if i < tallies.len() && tallies[i].label != label {
        lemma_place(tallies, label, i + 1);
    }
}

proof fn lemma_tally_bound(results: Seq<TransformResult>, n: int)
    requires
        0 <= n,
    ensures
        forall|i: int|
            0 <= i < tallied(results, n).len() ==> (#[trigger] tallied(results, n)[i]).count <= n,
    decreases n,
{
    if n > 0 {
        lemma_tally_bound(results, n - 1);
        let before = tallied(results, n - 1);
        let after = tallied(results, n);
        if let Some(check) = results[n - 1].check {
            lemma_place(before, label_of(check), 0);
        }
        assert forall|i: int| 0 <= i < after.len() implies (#[trigger] after[i]).count <= n by {
            if i < before.len() {
                assert(before[i].count <= n - 1);
            }
        }
    }
}

proof fn lemma_changes(results: Seq<TransformResult>, m: int, n: int)
    requires
        0 <= m <= n,
    ensures
        changes_upto(results, m) <= changes_upto(results, n),
    decreases n,
{
    if m < n {
        lemma_changes(results, m, n - 1);
    }
}

fn count_changes(results: &Vec<TransformResult>) -> (r: usize)
    requires
        changes_upto(results@, results@.len() as int) <= usize::MAX,
    ensures
        r == changes_upto(results@, results@.len() as int),
{
    let mut changes: usize = 0;
    let mut i: usize = 0;
    while i < results.len()
        invariant
            i <= results@.len(),
            changes_upto(results@, results@.len() as int) <= usize::MAX,
            changes == changes_upto(results@, i as int),
        decreases results@.len() - i,
    {
        proof {
            lemma_changes(results@, i + 1, results@.len() as int);
        }
        changes = changes + results[i].operations.len();
        i = i + 1;
    }
    changes
}

#[verifier::spinoff_prover]
fn checks_text(results: &Vec<TransformResult>) -> (r: String)
    ensures
        ({
            let tallies = tallied(results@, results@.len() as int);
            r@ == tallies_text(tallies, tallies.len() as int)
        }),
{
    let mut labels: Vec<String> = Vec::new();
    let mut counts: Vec<usize> = Vec::new();
    let total = results.len();
    let mut i: usize = 0;
    while i < results.len()
        invariant
            i <= results@.len() == total,
            are_tallies(labels@, counts@, tallied(results@, i as int)),
        decreases results@.len() - i,
    {
        let ghost before = tallied(results@, i as int);
        let ghost had = labels@;
        proof {
            lemma_tally_bound(results@, i as int);
        }
        if let Some(check) = &results[i].check {
            let label = check.layer.clone().concat(" ").concat(check.status.as_str());
            match find_label(&labels, label.as_str(), Ghost(before), Ghost(counts@)) {
                Some(k) => {
                    assert(labels@[k as int]@ == before[k as int].label);
                    proof {
                        lemma_place(before, label@, 0);
                    }
                    assert(before[k as int].count <= i);
                    let seen_now = counts[k] + 1;
                    counts.set(k, seen_now);
                },
                None => {
                    labels.push(label);
                    counts.push(1);
                },
            }
            proof {
                let after = tallied(results@, i + 1);
                assert(after == seen(before, label@));
                assert(labels@.len() == counts@.len() == after.len());
                assert forall|m: int| 0 <= m < after.len() implies {
                    &&& (#[trigger] labels@[m])@ == after[m].label
                    &&& counts@[m] == after[m].count
                } by {
                    if m < before.len() {
                        assert(had[m]@ == before[m].label);
                    }
                }
                assert(are_tallies(labels@, counts@, after));
            }
        }
        i = i + 1;
    }
    let ghost tallies = tallied(results@, total as int);
    let mut out = "".to_owned();
    let mut i: usize = 0;
    proof {
        reveal_strlit("");
        assert(out@ =~= Seq::empty());
    }
    while i < labels.len()
        invariant
            i <= labels@.len(),
            are_tallies(labels@, counts@, tallies),
            out@ == tallies_text(tallies, i as int),
        decreases labels@.len() - i,
    {
        assert(labels@[i as int]@ == tallies[i as int].label);
        let lead = if i == 0 {
            " \u{b7} checks: "
        } else {
            " \u{b7} "
        };
        out = out.concat(lead).concat(labels[i].as_str()).concat(" \u{d7}").concat(
            decimal(counts[i]).as_str(),
        );
        i = i + 1;
    }
    out
}

pub fn summary(results: &Vec<TransformResult>, command: &Option<CheckResult>) -> (r: String)
    requires
        changes_upto(results@, results@.len() as int) <= usize::MAX,
    ensures
        r@ == summary_text(results@, *command),
{
    let changes = count_changes(results);
    let said = match command {
        Some(check) => " \u{b7} check: ".to_owned().concat(check.layer.as_str()).concat(
            " ",
        ).concat(check.status.as_str()),
        None => "".to_owned(),
    };
    decimal(results.len()).concat(" file").concat(plural_suffix(results.len())).concat(
        " \u{b7} ",
    ).concat(decimal(changes).as_str()).concat(" change").concat(plural_suffix(changes)).concat(
        " \u{b7} all applied",
    ).concat(checks_text(results).as_str()).concat(said.as_str())
}

/// What the checker's word on the batch leads to: the check that is answered with, or the excerpt
/// of its failure. Only a change from passing to failing is evidence that the batch broke
/// something.
pub fn judge(
    cmd: &str,
    verdict: CommandVerdict,
    omitted: &mut Vec<Omission>,
) -> (r: Result<Option<CheckResult>, String>)
    ensures
        match verdict {
            CommandVerdict::Passed => {
                &&& r matches Ok(Some(check)) && check.layer@ == first_word(cmd@) && check.status@
                    == "ok"@ && check.errors_before == 0 && check.errors_after == 0
                &&& final(omitted)@ == old(omitted)@
            },
            CommandVerdict::Failed(excerpt) => r == Err::<Option<CheckResult>, String>(excerpt)
                && final(omitted)@ == old(omitted)@,
            CommandVerdict::Inconclusive(reason) => {
                &&& r matches Ok(None)
                &&& told_all(final(omitted)@) == told_all(old(omitted)@).push(
                    Told::Inconclusive { layer: first_word(cmd@), reason: reason@ },
                )
            },
            CommandVerdict::Skipped(reason) => {
                &&& r matches Ok(None)
                &&& told_all(final(omitted)@) == told_all(old(omitted)@).push(
                    Told::Skipped { reason: reason@ },
                )
            },
        },
{
    let layer = checker_name(cmd);
    match verdict {
        CommandVerdict::Passed => Ok(
            Some(
                CheckResult {
                    layer,
                    status: "ok".to_owned(),
                    errors_before: 0,
                    errors_after: 0,
                },
            ),
        ),
        CommandVerdict::Failed(excerpt) => Err(excerpt),
        CommandVerdict::Inconclusive(reason) => {
            tell(omitted, Omission::CheckInconclusive { layer, reason });
            Ok(None)
        },
        CommandVerdict::Skipped(reason) => {
            tell(omitted, Omission::CheckSkipped { reason });
            Ok(None)
        },
    }
}

/// The results as they are answered: one result has one check slot, so the command's verdict
/// replaces its own; a batch lists both.
pub open spec fn are_answered(
    before: Seq<TransformResult>,
    command: Option<CheckResult>,
    after: Seq<TransformResult>,
) -> bool {
    if before.len() == 1 && command is Some {
        after == seq![TransformResult { check: command, ..before[0] }]
    } else {
        after == before
    }
}

/// The answer to a batch that landed.
pub open spec fn is_finished(
    o: Outcome,
    results: Seq<TransformResult>,
    command: Option<CheckResult>,
    omitted: Seq<Omission>,
) -> bool {
    &&& o.error is None
    &&& o.response.verb@ == VERB@
    &&& o.response.omitted@ == omitted
    &&& o.response.body matches Body::Transform(shown) && are_answered(results, command, shown@)
    &&& o.response.stats == stats_of(results)
    &&& o.response.summary@ == (if results.len() == 1 {
        ""@
    } else {
        summary_text(results, command)
    })
    &&& !o.response.no_header
    &&& o.response.top_files@.len() == 0
    &&& o.response.top_files_more == 0
}

pub fn finish(
    results: Vec<TransformResult>,
    command: Option<CheckResult>,
    omitted: Vec<Omission>,
) -> (o: Outcome)
    requires
        are_countable(results@),
        changes_upto(results@, results@.len() as int) <= usize::MAX,
    ensures
        is_finished(o, results@, command, omitted@),
{
    let ghost before = results@;
    let mut results = results;
    let mut response = Response::empty(VERB);
    response.stats = count_stats(&results);
    if results.len() == 1 {
        if command.is_some() {
            let mut one = results.remove(0);
            one.check = command;
            results.push(one);
            assert(results@ =~= seq![TransformResult { check: command, ..before[0] }]);
        }
    } else {
        response.summary = summary(&results, &command);
    }
    response.omitted = omitted;
    response.body = Body::Transform(results);
    Outcome::ok(response)
}

/// How many of the first `n` results had a check that says that.
pub open spec fn checks_saying(results: Seq<TransformResult>, n: int, label: Seq<char>) -> nat {
    results.take(n).filter(
        |one: TransformResult|
            one.check matches Some(check) && check.layer@ + " "@ + check.status@ == label,
    ).len()
}

/// Each check that a call had is counted, under what it says, as often as it was had, and what it
/// says is listed once.
pub proof fn law_each_check_is_tallied(results: Seq<TransformResult>, n: int)
    requires
        0 <= n <= results.len(),
    ensures
        ({
            let tallies = tallied(results, n);
            &&& forall|i: int, j: int|
                0 <= i < j < tallies.len() ==> (#[trigger] tallies[i]).label != (
                #[trigger] tallies[j]).label
            &&& forall|i: int|
                0 <= i < tallies.len() ==> (#[trigger] tallies[i]).count == checks_saying(
                    results,
                    n,
                    tallies[i].label,
                )
            &&& forall|label: Seq<char>| #[trigger]
                checks_saying(results, n, label) > 0 ==> exists|i: int|
                    0 <= i < tallies.len() && (#[trigger] tallies[i]).label == label
        }),
    decreases n,
{
    reveal(Seq::filter);
    if n > 0 {
        law_each_check_is_tallied(results, n - 1);
        assert(results.take(n).drop_last() =~= results.take(n - 1));
        assert(results.take(n).last() == results[n - 1]);
        let (had, all) = (tallied(results, n - 1), tallied(results, n));
        if let Some(check) = results[n - 1].check {
            let label = label_of(check);
            lemma_place(had, label, 0);
            assert(checks_saying(results, n, label) == checks_saying(results, n - 1, label) + 1);
            assert forall|other: Seq<char>| other != label implies #[trigger] checks_saying(
                results,
                n,
                other,
            ) == checks_saying(results, n - 1, other) by {}
            match place_of(had, label, 0) {
                Some(k) => {
                    assert(all[k].label == label);
                    assert forall|other: Seq<char>| #[trigger]
                        checks_saying(results, n, other) > 0 implies exists|i: int|
                        0 <= i < all.len() && (#[trigger] all[i]).label == other by {
                        if other != label {
                            assert(checks_saying(results, n - 1, other) > 0);
                            let i = choose|i: int|
                                0 <= i < had.len() && (#[trigger] had[i]).label == other;
                            assert(all[i].label == other);
                        }
                    }
                },
                None => {
                    assert(checks_saying(results, n - 1, label) == 0);
                    assert(all[all.len() - 1].label == label);
                    assert forall|other: Seq<char>| #[trigger]
                        checks_saying(results, n, other) > 0 implies exists|i: int|
                        0 <= i < all.len() && (#[trigger] all[i]).label == other by {
                        if other != label {
                            assert(checks_saying(results, n - 1, other) > 0);
                            let i = choose|i: int|
                                0 <= i < had.len() && (#[trigger] had[i]).label == other;
                            assert(all[i].label == other);
                        }
                    }
                },
            }
        } else {
            assert forall|other: Seq<char>| #[trigger] checks_saying(results, n, other)
                == checks_saying(results, n - 1, other) by {}
        }
    } else {
        assert(results.take(0) =~= Seq::empty());
    }
}

/// Of a call that landed in part, the results of the files that were written are answered, in their
/// order, and no other.
pub proof fn law_only_written_files_are_answered(
    results: Seq<TransformResult>,
    written: Seq<String>,
    n: int,
)
    requires
        0 <= n <= results.len(),
    ensures
        among_upto(results, written, n) == results.take(n).filter(
            |one: TransformResult| texts(written).contains(one.path@),
        ),
    decreases n,
{
    reveal(Seq::filter);
    if n > 0 {
        law_only_written_files_are_answered(results, written, n - 1);
        assert(results.take(n).drop_last() =~= results.take(n - 1));
        let path = results[n - 1].path@;
        if has_text(written, path) {
            let i = choose|i: int| 0 <= i < written.len() && (#[trigger] written[i])@ == path;
            assert(texts(written)[i] == path);
        }
        if texts(written).contains(path) {
            let i = choose|i: int| 0 <= i < texts(written).len() && texts(written)[i] == path;
            assert(written[i]@ == path);
        }
    } else {
        assert(results.take(0) =~= Seq::empty());
        assert(among_upto(results, written, 0) =~= results.take(0).filter(
            |one: TransformResult| texts(written).contains(one.path@),
        ));
    }
}

/// Every operation and every line that is shown is counted once.
pub proof fn law_every_change_is_counted(results: Seq<TransformResult>, n: int)
    requires
        0 <= n <= results.len(),
    ensures
        changes_upto(results, n) == results.take(n).map_values(
            |one: TransformResult| one.operations@.len(),
        ).fold_left(0nat, |sum: nat, one: nat| sum + one),
        shown_upto(results, n).0 == results.take(n).map_values(
            |one: TransformResult| shown_lines(one).len(),
        ).fold_left(0nat, |sum: nat, one: nat| sum + one),
    decreases n,
{
    let ops = |one: TransformResult| one.operations@.len();
    let shown = |one: TransformResult| shown_lines(one).len();
    if n > 0 {
        law_every_change_is_counted(results, n - 1);
        let part = results.take(n);
        assert(part.map_values(ops).drop_last() =~= results.take(n - 1).map_values(ops));
        assert(part.map_values(shown).drop_last() =~= results.take(n - 1).map_values(shown));
        assert(part.map_values(ops).last() == results[n - 1].operations@.len());
        assert(part.map_values(shown).last() == shown_lines(results[n - 1]).len());
    }
}

/// A call that the checker turned against fails, whatever could be put back: it says so of every file
/// that could not be.
pub proof fn law_a_call_that_broke_the_check_fails(
    o: Outcome,
    results: Seq<TransformResult>,
    landed: Seq<String>,
    cmd: Seq<char>,
    excerpt: Seq<char>,
    back: Reverted,
    omitted: Seq<Omission>,
)
    requires
        is_reverted(o, results, landed, cmd, excerpt, back, omitted),
    ensures
        match o.error {
            None => false,
            Some(Error::PartialBatch { written, .. }) => written@.len() == back.not_restored@.len()
                && written@.len() > 0 && forall|i: int|
                0 <= i < written@.len() ==> (#[trigger] written@[i])@ == back.not_restored@[i].0@,
            Some(Error::CheckFailed { .. }) => back.not_restored@.len() == 0
                && o.response.body !is Transform,
            _ => false,
        },
{
    if let Some(Error::PartialBatch { written, .. }) = o.error {
        let names = firsts(back.not_restored@);
        assert(texts(written@).len() == names.len());
        assert forall|i: int| 0 <= i < written@.len() implies (#[trigger] written@[i])@
            == back.not_restored@[i].0@ by {
            assert(texts(written@)[i] == names[i]);
        }
    }
}

/// Every result is answered as it came out; only a lone one gives up its check, for the verdict of the
/// command where there is one.
pub proof fn law_every_result_is_answered(
    before: Seq<TransformResult>,
    command: Option<CheckResult>,
    after: Seq<TransformResult>,
)
    requires
        are_answered(before, command, after),
    ensures
        after.len() == before.len(),
        forall|i: int|
            0 <= i < after.len() ==> (#[trigger] after[i]) == (TransformResult {
                check: after[i].check,
                ..before[i]
            }),
        before.len() != 1 || command is None ==> after == before,
        before.len() == 1 && command is Some ==> after[0].check == command,
{
}

} // verus!
