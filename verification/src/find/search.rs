//! One search from its roots to its answer, and the second reading of a pattern that found nothing.
use vstd::prelude::*;

use crate::error::Error;
use crate::find::args::{
    base_of, build_overrides, check_pattern, globs_refusal, pattern_refusal, spans_of,
    tells_refusal, FindArgs, Global,
};
use crate::find::order::{is_put_in_order, sort, Order, Placed};
use crate::find::path::{
    compare_paths, law_components_order_is_antisymmetric, law_components_order_is_transitive,
    listed_order, parts_of,
};
use crate::find::respond::{
    counts_bytes, fits_memory, is_counts_answer, is_files_answer, is_targets_answer, names_bytes,
    respond_counts, respond_files, respond_targets,
};
use crate::find::shown::{are_sources, is_expanded, Source};
use crate::find::walk::{are_walk_notes, walk_omissions, Found, Walk};
use crate::output::{
    tell_all, told_all, Body, CountRow, Omission, Outcome, Response, Told,
};
use crate::pattern::{regex_error, searcher_error};
use crate::text;

verus! {

/// A file listed by its path.
pub struct ByPath {
    pub row: CountRow,
}

impl Placed for ByPath {
    open spec fn precedes(self, other: ByPath) -> bool {
        listed_order(self.row.path@, other.row.path@) != Order::Greater
    }

    proof fn lemma_total(a: ByPath, b: ByPath) {
        law_components_order_is_antisymmetric(parts_of(a.row.path@), parts_of(b.row.path@));
        law_components_order_is_antisymmetric(parts_of(b.row.path@), parts_of(a.row.path@));
    }

    proof fn lemma_transitive(a: ByPath, b: ByPath, c: ByPath) {
        law_components_order_is_transitive(
            parts_of(a.row.path@),
            parts_of(b.row.path@),
            parts_of(c.row.path@),
        );
    }

    fn stands_before(&self, other: &ByPath) -> (r: bool) {
        match compare_paths(self.row.path.as_str(), other.row.path.as_str()) {
            Order::Greater => false,
            _ => true,
        }
    }
}

pub open spec fn rows_in(list: Seq<ByPath>) -> Seq<CountRow> {
    list.map_values(|one: ByPath| one.row)
}

pub open spec fn paths_in(list: Seq<ByPath>) -> Seq<String> {
    list.map_values(|one: ByPath| one.row.path)
}

/// The same rows, by their paths.
pub open spec fn are_rows_by_path(rows: Seq<CountRow>, listed: Seq<CountRow>) -> bool {
    exists|all: Seq<ByPath>, list: Seq<ByPath>| #[trigger]
        rows_in(all) == rows && is_put_in_order(all, list)
            && #[trigger] rows_in(list) == listed
}

/// The same files, in the order of their paths.
pub open spec fn are_files_by_path(files: Seq<String>, listed: Seq<String>) -> bool {
    exists|all: Seq<ByPath>, list: Seq<ByPath>| #[trigger]
        paths_in(all) == files && is_put_in_order(all, list)
            && #[trigger] paths_in(list) == listed
}

fn rows_by_path(rows: Vec<CountRow>) -> (listed: Vec<CountRow>)
    ensures
        are_rows_by_path(rows@, listed@),
{
    let ghost before = rows@;
    let mut rest = rows;
    let mut list: Vec<ByPath> = Vec::new();
    let count = rest.len();
    let mut i: usize = 0;
    while i < count
        invariant
            i <= count == before.len(),
            rest@ == before.skip(i as int),
            rows_in(list@) == before.take(i as int),
        decreases count - i,
    {
        let ghost had = list@;
        let row = rest.remove(0);
        list.push(ByPath { row });
        assert(rows_in(list@) =~= rows_in(had).push(row));
        i = i + 1;
        assert(rest@ =~= before.skip(i as int));
        assert(rows_in(list@) =~= before.take(i as int));
    }
    assert(rows_in(list@) =~= before);
    let ghost all = list@;
    let mut list = sort(list);
    let ghost in_order = list@;
    let mut listed: Vec<CountRow> = Vec::new();
    let mut i: usize = 0;
    while i < count
        invariant
            i <= count == in_order.len(),
            list@ == in_order.skip(i as int),
            listed@ == rows_in(in_order).take(i as int),
        decreases count - i,
    {
        let one = list.remove(0);
        listed.push(one.row);
        i = i + 1;
        assert(list@ =~= in_order.skip(i as int));
        assert(listed@ =~= rows_in(in_order).take(i as int));
    }
    proof {
        assert(listed@ =~= rows_in(in_order));
        assert(rows_in(all) == before);
    }
    listed
}

pub(crate) fn files_by_path(files: Vec<String>) -> (listed: Vec<String>)
    ensures
        are_files_by_path(files@, listed@),
{
    let ghost before = files@;
    let mut rest = files;
    let mut list: Vec<ByPath> = Vec::new();
    let count = rest.len();
    let mut i: usize = 0;
    while i < count
        invariant
            i <= count == before.len(),
            rest@ == before.skip(i as int),
            paths_in(list@) == before.take(i as int),
        decreases count - i,
    {
        let ghost had = list@;
        let path = rest.remove(0);
        list.push(ByPath { row: CountRow { count: 0, path } });
        assert(paths_in(list@) =~= paths_in(had).push(path));
        i = i + 1;
        assert(rest@ =~= before.skip(i as int));
        assert(paths_in(list@) =~= before.take(i as int));
    }
    assert(paths_in(list@) =~= before);
    let ghost all = list@;
    let mut list = sort(list);
    let ghost in_order = list@;
    let mut listed: Vec<String> = Vec::new();
    let mut i: usize = 0;
    while i < count
        invariant
            i <= count == in_order.len(),
            list@ == in_order.skip(i as int),
            listed@ == paths_in(in_order).take(i as int),
        decreases count - i,
    {
        let one = list.remove(0);
        listed.push(one.row.path);
        i = i + 1;
        assert(list@ =~= in_order.skip(i as int));
        assert(listed@ =~= paths_in(in_order).take(i as int));
    }
    proof {
        assert(listed@ =~= paths_in(in_order));
        assert(paths_in(all) == before);
    }
    listed
}

/// The bytes of a listing do not depend on its order.
proof fn lemma_listing_bytes(files: Seq<String>, listed: Seq<String>)
    requires
        are_files_by_path(files, listed),
    ensures
        names_bytes(listed, listed.len() as int) == names_bytes(files, files.len() as int),
{
    let (all, list) = choose|all: Seq<ByPath>, list: Seq<ByPath>| #[trigger]
        paths_in(all) == files && is_put_in_order(all, list)
            && #[trigger] paths_in(list) == listed;
    let f = |sum: nat, one: ByPath| sum + (text::byte_len(one.row.path@) + 1);
    assert(vstd::seq_lib::commutative_foldl(f));
    vstd::seq_lib::lemma_fold_left_permutation(all, list, f, 0nat);
    lemma_names_fold(all, all.len() as int);
    lemma_names_fold(list, list.len() as int);
    assert(all.take(all.len() as int) =~= all);
    assert(list.take(list.len() as int) =~= list);
}

proof fn lemma_names_fold(list: Seq<ByPath>, n: int)
    requires
        0 <= n <= list.len(),
    ensures
        names_bytes(paths_in(list), n) == list.take(n).fold_left(
            0nat,
            |sum: nat, one: ByPath| sum + (text::byte_len(one.row.path@) + 1),
        ),
    decreases n,
{
    if n > 0 {
        lemma_names_fold(list, n - 1);
        assert(list.take(n).drop_last() =~= list.take(n - 1));
    }
}

proof fn lemma_rows_bytes(rows: Seq<CountRow>, listed: Seq<CountRow>)
    requires
        are_rows_by_path(rows, listed),
    ensures
        counts_bytes(listed, listed.len() as int) == counts_bytes(rows, rows.len() as int),
{
    let (all, list) = choose|all: Seq<ByPath>, list: Seq<ByPath>| #[trigger]
        rows_in(all) == rows && is_put_in_order(all, list)
            && #[trigger] rows_in(list) == listed;
    let f = |sum: nat, one: ByPath|
        sum + (text::decimal_of(one.row.count as nat).len() + 2 + text::byte_len(one.row.path@)
            + 1);
    assert(vstd::seq_lib::commutative_foldl(f));
    vstd::seq_lib::lemma_fold_left_permutation(all, list, f, 0nat);
    lemma_rows_fold(all, all.len() as int);
    lemma_rows_fold(list, list.len() as int);
    assert(all.take(all.len() as int) =~= all);
    assert(list.take(list.len() as int) =~= list);
}

proof fn lemma_rows_fold(list: Seq<ByPath>, n: int)
    requires
        0 <= n <= list.len(),
    ensures
        counts_bytes(rows_in(list), n) == list.take(n).fold_left(
            0nat,
            |sum: nat, one: ByPath|
                sum + (text::decimal_of(one.row.count as nat).len() + 2 + text::byte_len(
                    one.row.path@,
                ) + 1),
        ),
    decreases n,
{
    if n > 0 {
        lemma_rows_fold(list, n - 1);
        assert(list.take(n).drop_last() =~= list.take(n - 1));
    }
}

/// A root that is not there, as it was typed, with why.
#[derive(Debug)]
pub struct Missing {
    pub typed: String,
    pub error: Error,
}

/// What the missing roots are told as.
pub open spec fn unresolved(missing: Seq<Missing>) -> Seq<Told> {
    missing.map_values(
        |root: Missing| Told::Unresolved { target: root.typed@, error: root.error.slug_of() },
    )
}

/// Why the roots are missing.
pub open spec fn errors_of(missing: Seq<Missing>) -> Seq<Error> {
    missing.map_values(|root: Missing| root.error)
}

fn split_missing(missing: Vec<Missing>) -> (r: (Vec<Omission>, Vec<Error>))
    ensures
        told_all(r.0@) == unresolved(missing@),
        r.1@ == errors_of(missing@),
{
    let ghost all = missing@;
    let mut rest = missing;
    let mut notes: Vec<Omission> = Vec::new();
    let mut errors: Vec<Error> = Vec::new();
    let count = rest.len();
    let mut i: usize = 0;
    assert(rest@ =~= all.skip(0));
    while i < count
        invariant
            i <= count == all.len(),
            rest@ == all.skip(i as int),
            told_all(notes@) == unresolved(all).take(i as int),
            errors@ == errors_of(all).take(i as int),
        decreases count - i,
    {
        let ghost had = notes@;
        let root = rest.remove(0);
        assert(root == all[i as int]);
        let slug = root.error.slug();
        let note = Omission::Unresolved { target: root.typed, error: slug.to_owned() };
        notes.push(note);
        assert(told_all(notes@) =~= told_all(had).push(note.told()));
        errors.push(root.error);
        i = i + 1;
        assert(rest@ =~= all.skip(i as int));
        assert(told_all(notes@) =~= unresolved(all).take(i as int));
        assert(errors@ =~= errors_of(all).take(i as int));
    }
    assert(told_all(notes@) =~= unresolved(all));
    assert(errors@ =~= errors_of(all));
    (notes, errors)
}

/// The first thing that keeps a search from being made: no root is there, or the pattern or a glob
/// is refused.
pub open spec fn is_refused(
    outcome: Outcome,
    roots: nat,
    missing: Seq<Missing>,
    args: FindArgs,
) -> bool {
    &&& outcome.response.is_empty_for("find"@)
    &&& outcome.error is Some
    &&& if roots == 0 {
        Error::stands_for(outcome.error, errors_of(missing))
    } else {
        let pattern = pattern_refusal(
            args.pattern@,
            searcher_error(base_of(args), args.ignore_case, args.word),
            regex_error(spans_of(args), args.ignore_case),
        );
        tells_refusal(
            outcome.error,
            if pattern is Some {
                pattern
            } else {
                globs_refusal(args.globs@)
            },
        )
    }
}

/// The search can be made.
pub open spec fn is_searchable(roots: nat, args: FindArgs) -> bool {
    &&& roots > 0
    &&& searcher_error(base_of(args), args.ignore_case, args.word) is None
    &&& regex_error(spans_of(args), args.ignore_case) is None
    &&& globs_refusal(args.globs@) is None
}

/// Before anything is walked: the roots, the pattern and the globs have to be in order.
pub fn prepare(roots: &Vec<String>, missing: Vec<Missing>, args: &FindArgs) -> (r: Result<
    Vec<Missing>,
    Outcome,
>)
    requires
        roots@.len() > 0 || missing@.len() > 0,
    ensures
        match r {
            Ok(same) => same == missing && is_searchable(roots@.len(), *args),
            Err(outcome) => !is_searchable(roots@.len(), *args) && is_refused(
                outcome,
                roots@.len(),
                missing@,
                *args,
            ),
        },
{
    if roots.len() == 0 {
        let (_, errors) = split_missing(missing);
        return match Error::all(errors) {
            Some(error) => Err(Outcome::failed("find", error)),
            None => {
                assert(false);
                Err(Outcome { response: Response::empty("find"), error: None })
            },
        };
    }
    if let Some(error) = check_pattern(args) {
        return Err(Outcome::failed("find", error));
    }
    if let Some(error) = build_overrides(&args.globs) {
        return Err(Outcome::failed("find", error));
    }
    Ok(missing)
}

/// The answer, before the missing roots are named.
pub open spec fn is_plain_answer(
    outcome: Outcome,
    found: Found,
    walk: Walk,
    args: FindArgs,
    global: Global,
    sources: Seq<Source>,
    walked: Seq<Omission>,
) -> bool {
    if args.files {
        exists|files: Seq<String>| #[trigger]
            are_files_by_path(found.files@, files) && is_files_answer(
                outcome,
                files,
                walk.searched,
                args.pattern@,
                walked,
            )
    } else if args.count {
        exists|rows: Seq<CountRow>| #[trigger]
            are_rows_by_path(found.counts@, rows) && is_counts_answer(
                outcome,
                rows,
                found.total_hits,
                args.pattern@,
                walked,
            )
    } else {
        is_targets_answer(outcome, found, walk, args, global, sources, walked)
    }
}

/// `after` names the missing roots too, and their errors come first.
pub open spec fn names_missing(outcome: Outcome, missing: Seq<Missing>, after: Outcome) -> bool {
    if missing.len() == 0 {
        after == outcome
    } else {
        &&& told_all(after.response.omitted@) == told_all(outcome.response.omitted@) + unresolved(
            missing,
        )
        &&& after.response == (Response { omitted: after.response.omitted, ..outcome.response })
        &&& Error::stands_for(
            after.error,
            errors_of(missing) + (match outcome.error {
                Some(error) => seq![error],
                None => Seq::empty(),
            }),
        )
    }
}

/// What was found can be counted and shown.
pub open spec fn can_answer(
    found: Found,
    walk: Walk,
    args: FindArgs,
    global: Global,
    sources: Seq<Source>,
) -> bool {
    &&& found.wf()
    &&& fits_memory(found)
    &&& names_bytes(found.files@, found.files@.len() as int) <= usize::MAX
    &&& counts_bytes(found.counts@, found.counts@.len() as int) <= usize::MAX
    &&& !args.files && !args.count && found.total_hits <= args.cap && is_expanded(
        args,
        global,
        found.total_hits,
        found.blocks@.len(),
    ) ==> are_sources(found.blocks@, sources)
}

/// The walker skips a missing root silently, so it is named here and its error comes first.
fn with_missing(outcome: Outcome, missing: Vec<Missing>) -> (after: Outcome)
    ensures
        names_missing(outcome, missing@, after),
{
    if missing.len() == 0 {
        return outcome;
    }
    let ghost gone = missing@;
    let (notes, errors) = split_missing(missing);
    let mut response = outcome.response;
    tell_all(&mut response.omitted, notes);
    let mut errors = errors;
    match outcome.error {
        Some(error) => {
            errors.push(error);
            assert(errors@ =~= errors_of(gone) + seq![error]);
        },
        None => {
            assert(errors@ =~= errors_of(gone) + Seq::empty());
        },
    }
    Outcome { response, error: Error::all(errors) }
}

/// What the walk found is answered, as the flags ask for it.
pub fn answer(
    found: Found,
    walk: Walk,
    args: &FindArgs,
    global: &Global,
    sources: &Vec<Source>,
    missing: Vec<Missing>,
) -> (outcome: Outcome)
    requires
        can_answer(found, walk, *args, *global, sources@),
    ensures
        exists|plain: Outcome, walked: Seq<Omission>| #[trigger]
            are_walk_notes(walked, args.globs@, walk) && is_plain_answer(
                plain,
                found,
                walk,
                *args,
                *global,
                sources@,
                walked,
            ) && #[trigger] names_missing(plain, missing@, outcome),
{
    let walked = walk_omissions(args, &walk);
    let ghost notes = walked@;
    let plain = if args.files {
        let ghost files = found.files@;
        let listed = files_by_path(found.files);
        proof {
            lemma_listing_bytes(files, listed@);
        }
        respond_files(listed, walk.searched, args.pattern.as_str(), walked)
    } else if args.count {
        let ghost rows = found.counts@;
        let listed = rows_by_path(found.counts);
        proof {
            lemma_rows_bytes(rows, listed@);
        }
        respond_counts(listed, found.total_hits, args.pattern.as_str(), walked)
    } else {
        respond_targets(found, walk, args, global, sources, walked)
    };
    assert(are_walk_notes(notes, args.globs@, walk));
    with_missing(plain, missing)
}

proof fn lemma_same_paths(all: Seq<ByPath>, list: Seq<ByPath>)
    requires
        list.to_multiset() == all.to_multiset(),
    ensures
        forall|one: ByPath| #[trigger] all.contains(one) <==> list.contains(one),
{
    broadcast use vstd::seq_lib::group_to_multiset_ensures;

    assert forall|one: ByPath| #[trigger] all.contains(one) <==> list.contains(one) by {
        assert(all.contains(one) <==> all.to_multiset().count(one) > 0);
        assert(list.contains(one) <==> list.to_multiset().count(one) > 0);
    }
}

/// A listing of files holds each file that has hits, and no other, in the order of their paths.
pub proof fn law_a_listing_holds_every_file(files: Seq<String>, listed: Seq<String>)
    requires
        are_files_by_path(files, listed),
    ensures
        listed.len() == files.len(),
        forall|path: String| #[trigger] files.contains(path) <==> listed.contains(path),
        forall|i: int, j: int|
            0 <= i < j < listed.len() ==> listed_order(
                (#[trigger] listed[i])@,
                (#[trigger] listed[j])@,
            ) != Order::Greater,
{
    let (all, list) = choose|all: Seq<ByPath>, list: Seq<ByPath>| #[trigger]
        paths_in(all) == files && is_put_in_order(all, list)
            && #[trigger] paths_in(list) == listed;
    lemma_same_paths(all, list);
    assert forall|path: String| #[trigger] files.contains(path) <==> listed.contains(path) by {
        if files.contains(path) {
            let i = choose|i: int| 0 <= i < files.len() && files[i] == path;
            assert(all.contains(all[i]));
            assert(list.contains(all[i]));
            let j = choose|j: int| 0 <= j < list.len() && list[j] == all[i];
            assert(listed[j] == path);
        }
        if listed.contains(path) {
            let i = choose|i: int| 0 <= i < listed.len() && listed[i] == path;
            assert(list.contains(list[i]));
            assert(all.contains(list[i]));
            let j = choose|j: int| 0 <= j < all.len() && all[j] == list[i];
            assert(files[j] == path);
        }
    }
    assert forall|i: int, j: int| 0 <= i < j < listed.len() implies listed_order(
        (#[trigger] listed[i])@,
        (#[trigger] listed[j])@,
    ) != Order::Greater by {
        assert(list[i].precedes(list[j]));
    }
}

/// A listing of counts holds each row that was counted, and no other, in the order of the paths.
pub proof fn law_a_count_holds_every_row(rows: Seq<CountRow>, listed: Seq<CountRow>)
    requires
        are_rows_by_path(rows, listed),
    ensures
        listed.len() == rows.len(),
        forall|row: CountRow| #[trigger] rows.contains(row) <==> listed.contains(row),
        forall|i: int, j: int|
            0 <= i < j < listed.len() ==> listed_order(
                (#[trigger] listed[i]).path@,
                (#[trigger] listed[j]).path@,
            ) != Order::Greater,
{
    let (all, list) = choose|all: Seq<ByPath>, list: Seq<ByPath>| #[trigger]
        rows_in(all) == rows && is_put_in_order(all, list)
            && #[trigger] rows_in(list) == listed;
    lemma_same_paths(all, list);
    assert forall|row: CountRow| #[trigger] rows.contains(row) <==> listed.contains(row) by {
        if rows.contains(row) {
            let i = choose|i: int| 0 <= i < rows.len() && rows[i] == row;
            assert(all.contains(all[i]));
            assert(list.contains(all[i]));
            let j = choose|j: int| 0 <= j < list.len() && list[j] == all[i];
            assert(listed[j] == row);
        }
        if listed.contains(row) {
            let i = choose|i: int| 0 <= i < listed.len() && listed[i] == row;
            assert(list.contains(list[i]));
            assert(all.contains(list[i]));
            let j = choose|j: int| 0 <= j < all.len() && all[j] == list[i];
            assert(rows[j] == row);
        }
    }
    assert forall|i: int, j: int| 0 <= i < j < listed.len() implies listed_order(
        (#[trigger] listed[i]).path@,
        (#[trigger] listed[j]).path@,
    ) != Order::Greater by {
        assert(list[i].precedes(list[j]));
    }
}

/// A search is answered as the flags ask for it: by the files that have hits, by their counts, or by
/// the hits themselves. It fails where there are no hits, and, of hits that are shown, where there
/// are more than the cap or they are over the byte limit; nothing else makes it fail.
pub proof fn law_a_search_is_answered_as_asked(
    outcome: Outcome,
    found: Found,
    walk: Walk,
    args: FindArgs,
    global: Global,
    sources: Seq<Source>,
    walked: Seq<Omission>,
)
    requires
        is_plain_answer(outcome, found, walk, args, global, sources, walked),
    ensures
        args.files ==> (outcome.response.body matches Body::Files(listed) && listed@.len()
            == found.files@.len()) && (outcome.error is None <==> found.files@.len() > 0),
        !args.files && args.count ==> (outcome.response.body matches Body::Counts(listed)
            && listed@.len() == found.counts@.len()) && (outcome.error is None
            <==> found.counts@.len() > 0),
        !args.files && !args.count && found.total_hits > args.cap ==> (
        outcome.error matches Some(Error::OverCap { hits, files, cap }) && hits == found.total_hits
            && cap == args.cap) && (outcome.response.body matches Body::Targets(blocks)
            ==> blocks@.len() <= 1) && !(outcome.response.body is Files)
            && !(outcome.response.body is Counts),
        !args.files && !args.count && 0 < found.total_hits <= args.cap ==> outcome.error is None || (
        outcome.error->0 is OverBudget && global.budget is None),
        !args.files && !args.count && found.total_hits == 0 ==> outcome.error is Some && (
        outcome.error->0 is NoHits || outcome.error->0 is OverBudget),
        !args.files && !args.count && outcome.error is None ==> outcome.response.body is Targets,
{
    if args.files {
        let files = choose|files: Seq<String>| #[trigger]
            are_files_by_path(found.files@, files) && is_files_answer(
                outcome,
                files,
                walk.searched,
                args.pattern@,
                walked,
            );
        law_a_listing_holds_every_file(found.files@, files);
    } else if args.count {
        let rows = choose|rows: Seq<CountRow>| #[trigger]
            are_rows_by_path(found.counts@, rows) && is_counts_answer(
                outcome,
                rows,
                found.total_hits,
                args.pattern@,
                walked,
            );
        law_a_count_holds_every_row(found.counts@, rows);
    }
}

/// A root that is missing is never passed over: its error is answered, before that of the search, and
/// it is named.
pub proof fn law_a_missing_root_is_answered(outcome: Outcome, missing: Seq<Missing>, after: Outcome)
    requires
        names_missing(outcome, missing, after),
    ensures
        missing.len() > 0 ==> after.error is Some,
        missing.len() == 0 ==> after == outcome,
        missing.len() == 1 && outcome.error is None ==> after.error == Some(missing[0].error),
        missing.len() > 1 ==> (after.error matches Some(Error::Several { errors }) && errors@.len()
            >= missing.len() && forall|i: int|
            0 <= i < missing.len() ==> #[trigger] errors@[i] == missing[i].error),
        after.response.body == outcome.response.body,
        told_all(after.response.omitted@).len() == told_all(outcome.response.omitted@).len()
            + missing.len(),
{
    if missing.len() > 0 {
        let all = errors_of(missing) + (match outcome.error {
            Some(error) => seq![error],
            None => Seq::empty(),
        });
        assert(all.len() >= missing.len());
        if missing.len() > 1 {
            assert forall|i: int| 0 <= i < missing.len() implies #[trigger] all[i]
                == missing[i].error by {}
        } else {
            assert(all[0] == missing[0].error);
        }
    }
}

/// A search that cannot be made says why: the roots where none is there, the pattern where an engine
/// refuses it, and else a glob.
pub proof fn law_a_search_that_cannot_be_made_says_why(
    outcome: Outcome,
    roots: nat,
    missing: Seq<Missing>,
    args: FindArgs,
)
    requires
        is_refused(outcome, roots, missing, args),
    ensures
        outcome.error is Some,
        roots == 0 && missing.len() == 1 ==> outcome.error == Some(missing[0].error),
        roots > 0 ==> (outcome.error matches Some(Error::InvalidPattern { pattern, .. }) && (
        searcher_error(base_of(args), args.ignore_case, args.word) is Some || regex_error(
            spans_of(args),
            args.ignore_case,
        ) is Some ==> pattern@ == args.pattern@)),
{
    if roots == 0 && missing.len() == 1 {
        assert(errors_of(missing)[0] == missing[0].error);
    }
}

} // verus!
