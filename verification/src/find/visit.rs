//! One walk of the tree, entry by entry, and the order in which its files are recorded.
use vstd::prelude::*;
use vstd::utf8::encode_utf8;

use crate::find::args::{spans_of, FindArgs};
use crate::find::expand::in_order;
use crate::find::lines::{is_searched, searched, unended, FileOutcome, RawLine, Skip};
use crate::find::order::{
    law_path_order_is_antisymmetric, law_path_order_is_transitive, law_there_is_one_order,
    path_order, paths_order, sort, sorted, Order, Placed, Ranked,
};
use crate::find::roots::{display_path, in_git_dir, shown_path};
use crate::find::walk::{is_recorded, Found, Rejection, Walk};
use crate::edit::lines::lossy;
use crate::output::Line;
use crate::text::{byte_len, has_text, texts};

verus! {

/// Whether an entry is searched at all: a file that is not a repository's own.
pub fn is_candidate(is_file: bool, names: &Vec<String>) -> (r: bool)
    ensures
        r == (is_file && !has_text(names@, ".git"@)),
{
    is_file && !in_git_dir(names)
}

/// What is known of a file once it is open: whether it is a regular one, and its size.
#[derive(Debug, Clone, Copy, PartialEq, Eq, Structural)]
pub struct Opened {
    pub is_file: bool,
    pub bytes: u64,
}

/// Why a file is not even read. The kind is asked of the open handle, so that a pipe swapped in
/// cannot block the search.
pub fn unread(opened: Option<Opened>, max_file_bytes: u64) -> (r: Option<Skip>)
    ensures
        r == (match opened {
            None => Some(Skip::Unreadable),
            Some(file) => if !file.is_file {
                Some(Skip::Binary)
            } else if file.bytes > max_file_bytes {
                Some(Skip::TooLarge)
            } else {
                None::<Skip>
            },
        }),
{
    match opened {
        None => Some(Skip::Unreadable),
        Some(file) => if !file.is_file {
            Some(Skip::Binary)
        } else if file.bytes > max_file_bytes {
            Some(Skip::TooLarge)
        } else {
            None
        },
    }
}

/// What a searcher found in a file: the lines, and whether it came upon a byte of a binary file
/// or upon the mark of UTF-16.
#[derive(Debug)]
pub struct Read {
    pub lines: Vec<RawLine>,
    pub binary: bool,
    pub utf16: bool,
}

/// What came of a file that was read; `None` where a line of it is too long to be marked.
pub fn settled(read: Option<Read>, args: &FindArgs) -> (r: Option<FileOutcome>)
    ensures
        match read {
            None => r == Some(FileOutcome::Skipped(Skip::Unreadable)),
            Some(read) => if read.binary || read.utf16 {
                r == Some(FileOutcome::Skipped(Skip::Binary))
            } else {
                match r {
                    Some(outcome) => is_searched(
                        outcome,
                        read.lines@,
                        spans_of(*args),
                        args.ignore_case,
                    ),
                    None => exists|i: int|
                        0 <= i < read.lines@.len() && byte_len(
                            lossy(unended((#[trigger] read.lines@[i]).bytes@)),
                        ) + 4 > usize::MAX,
                }
            },
        },
{
    match read {
        None => Some(FileOutcome::Skipped(Skip::Unreadable)),
        Some(read) => if read.binary || read.utf16 {
            Some(FileOutcome::Skipped(Skip::Binary))
        } else {
            searched(&read.lines, args)
        },
    }
}

/// A file that the walk came to, under the root of that number.
#[derive(Debug)]
pub struct FileVisit {
    pub root: usize,
    pub path: String,
    pub outcome: FileOutcome,
}

impl Placed for FileVisit {
    open spec fn precedes(self, other: FileVisit) -> bool {
        self.root < other.root || (self.root == other.root && paths_order(self.path@, other.path@)
            != Order::Greater)
    }

    proof fn lemma_total(a: FileVisit, b: FileVisit) {
        law_path_order_is_antisymmetric(encode_utf8(a.path@), encode_utf8(b.path@));
    }

    proof fn lemma_transitive(a: FileVisit, b: FileVisit, c: FileVisit) {
        if a.root == b.root && b.root == c.root {
            law_path_order_is_transitive(
                encode_utf8(a.path@),
                encode_utf8(b.path@),
                encode_utf8(c.path@),
            );
        }
    }

    fn stands_before(&self, other: &FileVisit) -> (r: bool) {
        if self.root != other.root {
            return self.root < other.root;
        }
        match path_order(self.path.as_str(), other.path.as_str()) {
            Order::Greater => false,
            _ => true,
        }
    }
}

/// What the walk came to.
#[derive(Debug)]
pub enum Visit {
    File(FileVisit),
    /// A directory that could not be listed, with the number of its root.
    Unlistable(usize, String),
    Rejected(Rejection),
}

/// The files among the first `n` visits.
pub open spec fn files_upto(visits: Seq<Visit>, n: int) -> Seq<FileVisit>
    decreases n,
{
    if n <= 0 {
        Seq::empty()
    } else {
        match visits[n - 1] {
            Visit::File(file) => files_upto(visits, n - 1).push(file),
            _ => files_upto(visits, n - 1),
        }
    }
}

/// `dirs` are the unlistable directories among the first `n` visits.
pub open spec fn are_dirs_upto(dirs: Seq<Ranked>, visits: Seq<Visit>, n: int) -> bool
    decreases n,
{
    if n <= 0 {
        dirs.len() == 0
    } else {
        match visits[n - 1] {
            Visit::Unlistable(root, path) => dirs.len() > 0 && is_dir(dirs.last(), root, path)
                && are_dirs_upto(dirs.drop_last(), visits, n - 1),
            _ => are_dirs_upto(dirs, visits, n - 1),
        }
    }
}

pub open spec fn is_dir(dir: Ranked, root: usize, path: String) -> bool {
    dir.rank == root && dir.path == path && dir.typed@ == ""@
}

/// How many hits a file has.
pub open spec fn hits_of(file: FileVisit) -> nat {
    match file.outcome {
        FileOutcome::Searched { hits, .. } => hits as nat,
        FileOutcome::Skipped(_) => 0,
    }
}

/// How many hits the files have together.
pub open spec fn hits_in(files: Seq<FileVisit>) -> nat {
    files.fold_left(0nat, |sum: nat, file: FileVisit| sum + hits_of(file))
}

proof fn lemma_hits_permuted(a: Seq<FileVisit>, b: Seq<FileVisit>)
    requires
        a.to_multiset() == b.to_multiset(),
    ensures
        hits_in(a) == hits_in(b),
{
    let f = |sum: nat, file: FileVisit| sum + hits_of(file);
    assert(vstd::seq_lib::commutative_foldl(f));
    vstd::seq_lib::lemma_fold_left_permutation(a, b, f, 0nat);
}

proof fn lemma_hits_push(files: Seq<FileVisit>, file: FileVisit)
    ensures
        hits_in(files.push(file)) == hits_in(files) + hits_of(file),
{
    assert(files.push(file).drop_last() =~= files);
}

proof fn lemma_hits_take(files: Seq<FileVisit>, n: int)
    requires
        0 <= n <= files.len(),
    ensures
        hits_in(files.take(n)) <= hits_in(files),
    decreases files.len(),
{
    if n < files.len() {
        lemma_hits_take(files.drop_last(), n);
        assert(files.drop_last().take(n) =~= files.take(n));
        assert(files.drop_last().push(files.last()) =~= files);
        lemma_hits_push(files.drop_last(), files.last());
    } else {
        assert(files.take(n) =~= files);
    }
}

/// The files were recorded one after the other.
pub open spec fn are_recorded(
    walk: Walk,
    found: Found,
    args: FindArgs,
    files: Seq<FileVisit>,
    after: Walk,
    now: Found,
) -> bool
    decreases files.len(),
{
    if files.len() == 0 {
        after == walk && now == found
    } else {
        exists|w: Walk, f: Found|
            are_recorded(walk, found, args, files.drop_last(), w, f) && #[trigger] is_recorded(
                w,
                f,
                args,
                files.last().path@,
                files.last().outcome,
                after,
                now,
            )
    }
}

/// There is room to count `n` more of everything.
pub open spec fn has_room(walk: Walk, n: int) -> bool {
    &&& walk.searched + n <= usize::MAX
    &&& walk.binary + n <= usize::MAX
    &&& walk.too_large + n <= usize::MAX
    &&& walk.unreadable + n <= usize::MAX
    &&& walk.gitignored + n <= usize::MAX
    &&& walk.dotfiles + n <= usize::MAX
}

fn record_all(walk: &mut Walk, found: &mut Found, args: &FindArgs, files: Vec<FileVisit>)
    requires
        has_room(*old(walk), files@.len() as int),
        old(found).total_hits + hits_in(files@) <= usize::MAX,
    ensures
        are_recorded(*old(walk), *old(found), *args, files@, *final(walk), *final(found)),
{
    let ghost all = files@;
    let ghost (w0, f0) = (*walk, *found);
    let mut rest = files;
    let count = rest.len();
    let mut done: usize = 0;
    assert(all.take(0) =~= Seq::empty());
    assert(rest@ =~= all.skip(0));
    while done < count
        invariant
            done <= count == all.len(),
            rest@ == all.skip(done as int),
            has_room(*walk, count - done),
            f0.total_hits + hits_in(all) <= usize::MAX,
            found.total_hits == f0.total_hits + hits_in(all.take(done as int)),
            are_recorded(w0, f0, *args, all.take(done as int), *walk, *found),
        decreases count - done,
    {
        let ghost (w, f) = (*walk, *found);
        let file = rest.remove(0);
        let ghost this = all[done as int];
        let ghost more = all.take(done + 1);
        proof {
            assert(more.drop_last() =~= all.take(done as int));
            assert(all.take(done as int).push(this) =~= more);
            lemma_hits_push(all.take(done as int), this);
            lemma_hits_take(all, done + 1);
            assert(rest@ =~= all.skip(done + 1));
            assert(file == this);
        }
        walk.record(found, args, file.path.as_str(), file.outcome);
        done = done + 1;
        proof {
            assert(more.last() == this);
            assert(is_recorded(w, f, *args, this.path@, this.outcome, *walk, *found));
            assert(are_recorded(w0, f0, *args, more.drop_last(), w, f));
            assert(are_recorded(w0, f0, *args, more, *walk, *found));
        }
    }
    assert(all.take(done as int) =~= all);
}

/// `after` has taken in the rejections among the first `n` visits, and the directories that could
/// not be listed.
pub open spec fn is_told_of(walk: Walk, visits: Seq<Visit>, n: int, after: Walk) -> bool
    decreases n,
{
    if n <= 0 {
        after == walk
    } else {
        match visits[n - 1] {
            Visit::Rejected(rejection) => exists|w: Walk|
                is_told_of(walk, visits, n - 1, w) && #[trigger] is_rejected(w, rejection, after),
            _ => is_told_of(walk, visits, n - 1, after),
        }
    }
}

/// One entry was rejected.
pub open spec fn is_rejected(walk: Walk, rejection: Rejection, after: Walk) -> bool {
    match rejection {
        Rejection::GitignoredDir(dir) => after == (Walk {
            gitignored_dirs: after.gitignored_dirs,
            ..walk
        }) && after.gitignored_dirs@ == walk.gitignored_dirs@.push(dir),
        Rejection::HiddenDir(dir) => after == (Walk { hidden_dirs: after.hidden_dirs, ..walk })
            && after.hidden_dirs@ == walk.hidden_dirs@.push(dir),
        Rejection::Gitignored => after == (Walk {
            gitignored: (walk.gitignored + 1) as usize,
            ..walk
        }),
        Rejection::Dotfile => after == (Walk { dotfiles: (walk.dotfiles + 1) as usize, ..walk }),
        Rejection::NotAFile => after == walk,
    }
}

/// The unlistable directories are named in this order.
pub open spec fn are_unlistable(walk: Walk, dirs: Seq<Ranked>, after: Walk) -> bool {
    &&& after == (Walk { unreadable_dirs: after.unreadable_dirs, ..walk })
    &&& texts(after.unreadable_dirs@) == texts(walk.unreadable_dirs@) + dirs.map_values(
        |dir: Ranked| shown_path(dir.path@),
    )
}

/// Nothing changed but the order, and that only where it was asked for.
pub open spec fn is_arranged<T: Placed>(list: Seq<T>, in_order: bool, arranged: Seq<T>) -> bool {
    if in_order {
        arranged == list
    } else {
        sorted(arranged) && arranged.to_multiset() == list.to_multiset() && arranged.len()
            == list.len()
    }
}

/// What a walk came to.
pub open spec fn is_taken_in(
    walk: Walk,
    found: Found,
    args: FindArgs,
    visits: Seq<Visit>,
    in_order: bool,
    after: Walk,
    now: Found,
) -> bool {
    exists|told: Walk, listed: Walk, seen: Seq<Ranked>, dirs: Seq<Ranked>, files: Seq<FileVisit>|
        #[trigger] is_told_of(walk, visits, visits.len() as int, told) && #[trigger] are_dirs_upto(
            seen,
            visits,
            visits.len() as int,
        ) && is_arranged(seen, in_order, dirs) && #[trigger] are_unlistable(told, dirs, listed)
            && is_arranged(files_upto(visits, visits.len() as int), in_order, files)
            && #[trigger] are_recorded(listed, found, args, files, after, now)
}

/// No two of the files have one path under one root.
pub open spec fn are_distinct(files: Seq<FileVisit>) -> bool {
    forall|i: int, j: int|
        0 <= i < j < files.len() ==> (#[trigger] files[i]).root != (#[trigger] files[j]).root
            || paths_order(files[i].path@, files[j].path@) != Order::Equal
}

/// However many workers there are, and in whatever order they finish, files are recorded in one
/// order: that of a walk that comes to them in the order of their paths.
pub proof fn law_files_are_recorded_in_one_order(
    one: Seq<Visit>,
    other: Seq<Visit>,
    walked_in_order: bool,
    recorded: Seq<FileVisit>,
    again: Seq<FileVisit>,
)
    requires
        is_arranged(files_upto(one, one.len() as int), false, recorded),
        is_arranged(files_upto(other, other.len() as int), walked_in_order, again),
        walked_in_order ==> sorted(files_upto(other, other.len() as int)),
        files_upto(one, one.len() as int).to_multiset() == files_upto(
            other,
            other.len() as int,
        ).to_multiset(),
        are_distinct(recorded),
    ensures
        recorded == again,
{
    assert forall|i: int, j: int| 0 <= i < j < recorded.len() implies !(
    #[trigger] recorded[j]).precedes(#[trigger] recorded[i]) by {
        assert(recorded[i].precedes(recorded[j]));
        law_path_order_is_antisymmetric(
            encode_utf8(recorded[i].path@),
            encode_utf8(recorded[j].path@),
        );
    }
    law_there_is_one_order(recorded, again);
}

fn name_unlistable(walk: &mut Walk, dirs: &Vec<Ranked>)
    ensures
        are_unlistable(*old(walk), dirs@, *final(walk)),
{
    let ghost start = *walk;
    let ghost named = dirs@.map_values(|dir: Ranked| shown_path(dir.path@));
    let mut i: usize = 0;
    assert(named.take(0) =~= Seq::empty());
    assert(texts(start.unreadable_dirs@) + named.take(0) =~= texts(start.unreadable_dirs@));
    while i < dirs.len()
        invariant
            i <= dirs@.len(),
            named == dirs@.map_values(|dir: Ranked| shown_path(dir.path@)),
            *walk == (Walk { unreadable_dirs: walk.unreadable_dirs, ..start }),
            texts(walk.unreadable_dirs@) == texts(start.unreadable_dirs@) + named.take(i as int),
        decreases dirs@.len() - i,
    {
        let ghost before = walk.unreadable_dirs@;
        walk.unreadable_dirs.push(display_path(dirs[i].path.as_str()));
        assert(texts(walk.unreadable_dirs@) =~= texts(before).push(named[i as int]));
        i = i + 1;
        assert(texts(walk.unreadable_dirs@) =~= texts(start.unreadable_dirs@) + named.take(
            i as int,
        ));
    }
    assert(named.take(i as int) =~= named);
}

/// Workers finish in scheduler order, so every file is sorted into the order of a walk on one
/// thread before any is recorded; `in_order` says that the visits come from such a walk.
pub fn take_in(
    walk: &mut Walk,
    found: &mut Found,
    args: &FindArgs,
    visits: Vec<Visit>,
    in_order: bool,
)
    requires
        has_room(*old(walk), visits@.len() as int),
        old(found).total_hits + hits_in(files_upto(visits@, visits@.len() as int)) <= usize::MAX,
    ensures
        is_taken_in(
            *old(walk),
            *old(found),
            *args,
            visits@,
            in_order,
            *final(walk),
            *final(found),
        ),
{
    let ghost all = visits@;
    let ghost start = *walk;
    let mut rest = visits;
    let mut files: Vec<FileVisit> = Vec::new();
    let mut dirs: Vec<Ranked> = Vec::new();
    let count = rest.len();
    let mut done: usize = 0;
    assert(rest@ =~= all.skip(0));
    while done < count
        invariant
            done <= count == all.len(),
            rest@ == all.skip(done as int),
            has_room(*walk, count - done + files@.len()),
            files@ == files_upto(all, done as int),
            are_dirs_upto(dirs@, all, done as int),
            is_told_of(start, all, done as int, *walk),
        decreases count - done,
    {
        let ghost w = *walk;
        let ghost had = dirs@;
        let visit = rest.remove(0);
        assert(rest@ =~= all.skip(done + 1));
        assert(visit == all[done as int]);
        match visit {
            Visit::File(file) => files.push(file),
            Visit::Unlistable(root, path) => {
                dirs.push(Ranked { rank: root, path, typed: "".to_owned() });
                assert(dirs@.drop_last() =~= had);
            },
            Visit::Rejected(rejection) => {
                walk.reject(rejection);
                proof {
                    assert(is_told_of(start, all, done as int, w));
                    assert(is_rejected(w, all[done as int]->Rejected_0, *walk));
                    assert(is_told_of(start, all, done + 1, *walk));
                }
            },
        }
        done = done + 1;
    }
    let ghost seen = dirs@;
    let ghost unsorted = files@;
    if !in_order {
        files = sort(files);
        dirs = sort(dirs);
        proof {
            lemma_hits_permuted(files@, unsorted);
        }
    }
    let ghost told = *walk;
    name_unlistable(walk, &dirs);
    let ghost listed = *walk;
    record_all(walk, found, args, files);
    proof {
        assert(is_told_of(start, all, all.len() as int, told));
        assert(are_dirs_upto(seen, all, all.len() as int));
        assert(are_unlistable(told, dirs@, listed));
    }
}

/// A file's lines stand in their order, and each has its first match.
pub open spec fn is_orderly(lines: Seq<Line>, firsts: nat) -> bool {
    &&& in_order(lines)
    &&& firsts == lines.len()
}

impl Found {
    /// Each block has its lines in order, and the first match of each.
    pub open spec fn wf(self) -> bool {
        &&& self.blocks@.len() == self.first_matches@.len()
        &&& forall|i: int|
            0 <= i < self.blocks@.len() ==> (#[trigger] self.blocks@[i]).span is None && is_orderly(
                self.blocks@[i].lines@,
                self.first_matches@[i]@.len(),
            )
    }
}

/// Recording a file whose lines stand in their order keeps every block in order.
pub proof fn law_recording_keeps_blocks_in_order(
    walk: Walk,
    found: Found,
    args: FindArgs,
    path: Seq<char>,
    outcome: FileOutcome,
    after: Walk,
    now: Found,
)
    requires
        found.wf(),
        is_recorded(walk, found, args, path, outcome, after, now),
        outcome matches FileOutcome::Searched { lines, first_match, .. } ==> is_orderly(
            lines@,
            first_match@.len(),
        ),
    ensures
        now.wf(),
{
    match outcome {
        FileOutcome::Searched { hits, lines, first_match, .. } => {
            if hits > 0 && !args.files && !args.count {
                let last = now.blocks@.len() - 1;
                assert forall|i: int| 0 <= i < now.blocks@.len() implies (
                #[trigger] now.blocks@[i]).span is None && is_orderly(
                    now.blocks@[i].lines@,
                    now.first_matches@[i]@.len(),
                ) by {
                    if i < last {
                        assert(now.blocks@.drop_last()[i] == now.blocks@[i]);
                        assert(found.blocks@[i] == now.blocks@[i]);
                        assert(now.first_matches@[i] == found.first_matches@[i]);
                    } else {
                        assert(now.blocks@[i] == now.blocks@.last());
                    }
                }
            }
        },
        FileOutcome::Skipped(_) => {},
    }
}

/// Each entry that was rejected is told once, as what it was rejected as: a file counts, and a
/// directory is named.
pub proof fn law_each_rejection_is_told_once(
    walk: Walk,
    visits: Seq<Visit>,
    n: int,
    after: Walk,
)
    requires
        is_told_of(walk, visits, n, after),
        0 <= n <= visits.len(),
        has_room(walk, n),
    ensures
        after.gitignored == walk.gitignored + visits.take(n).filter(
            |v: Visit| v == Visit::Rejected(Rejection::Gitignored),
        ).len(),
        after.dotfiles == walk.dotfiles + visits.take(n).filter(
            |v: Visit| v == Visit::Rejected(Rejection::Dotfile),
        ).len(),
        after.gitignored_dirs@.len() == walk.gitignored_dirs@.len() + visits.take(n).filter(
            |v: Visit| v matches Visit::Rejected(Rejection::GitignoredDir(_)),
        ).len(),
        after.hidden_dirs@.len() == walk.hidden_dirs@.len() + visits.take(n).filter(
            |v: Visit| v matches Visit::Rejected(Rejection::HiddenDir(_)),
        ).len(),
        after.searched == walk.searched && after.binary == walk.binary && after.too_large
            == walk.too_large && after.unreadable == walk.unreadable,
        after.gitignored <= walk.gitignored + n && after.dotfiles <= walk.dotfiles + n,
    decreases n,
{
    reveal(Seq::filter);
    if n > 0 {
        assert(visits.take(n).drop_last() =~= visits.take(n - 1));
        assert(visits.take(n).last() == visits[n - 1]);
        match visits[n - 1] {
            Visit::Rejected(rejection) => {
                let w = choose|w: Walk|
                    is_told_of(walk, visits, n - 1, w) && #[trigger] is_rejected(
                        w,
                        rejection,
                        after,
                    );
                law_each_rejection_is_told_once(walk, visits, n - 1, w);
            },
            _ => {
                law_each_rejection_is_told_once(walk, visits, n - 1, after);
            },
        }
    }
}

/// Every file that the walk came to is among those that are recorded, and no other is.
pub proof fn law_every_file_is_recorded(visits: Seq<Visit>, n: int, file: FileVisit)
    requires
        0 <= n <= visits.len(),
    ensures
        files_upto(visits, n).contains(file) <==> visits.take(n).contains(Visit::File(file)),
    decreases n,
{
    if n > 0 {
        law_every_file_is_recorded(visits, n - 1, file);
        let (had, all) = (files_upto(visits, n - 1), files_upto(visits, n));
        let (a, b) = (visits.take(n - 1), visits.take(n));
        if had.contains(file) {
            let i = choose|i: int| 0 <= i < had.len() && had[i] == file;
            assert(all[i] == file);
        }
        if a.contains(Visit::File(file)) {
            let i = choose|i: int| 0 <= i < a.len() && a[i] == Visit::File(file);
            assert(b[i] == Visit::File(file));
        }
        if visits[n - 1] == Visit::File(file) {
            assert(all[all.len() - 1] == file);
            assert(b[n - 1] == Visit::File(file));
        }
        if all.contains(file) {
            let i = choose|i: int| 0 <= i < all.len() && all[i] == file;
            if i < had.len() {
                assert(had[i] == file);
            }
        }
        if b.contains(Visit::File(file)) {
            let i = choose|i: int| 0 <= i < b.len() && b[i] == Visit::File(file);
            if i < n - 1 {
                assert(a[i] == Visit::File(file));
            }
        }
    } else {
        assert(visits.take(0) =~= Seq::empty());
    }
}

/// Every file of a walk is counted, as searched or under what kept it from that, and the hits of all
/// of them add up.
pub proof fn law_every_file_of_a_walk_is_counted(
    walk: Walk,
    found: Found,
    args: FindArgs,
    files: Seq<FileVisit>,
    after: Walk,
    now: Found,
)
    requires
        are_recorded(walk, found, args, files, after, now),
        walk.searched + walk.binary + walk.too_large + walk.unreadable + files.len() < usize::MAX,
        found.total_hits + hits_in(files) <= usize::MAX,
    ensures
        after.searched == walk.searched + files.filter(
            |file: FileVisit| file.outcome is Searched,
        ).len(),
        after.searched + after.binary + after.too_large + after.unreadable == walk.searched
            + walk.binary + walk.too_large + walk.unreadable + files.len(),
        now.total_hits == found.total_hits + hits_in(files),
        after.gitignored == walk.gitignored && after.dotfiles == walk.dotfiles,
    decreases files.len(),
{
    reveal(Seq::filter);
    if files.len() > 0 {
        let less = files.drop_last();
        let (w, f) = choose|w: Walk, f: Found|
            are_recorded(walk, found, args, less, w, f) && #[trigger] is_recorded(
                w,
                f,
                args,
                files.last().path@,
                files.last().outcome,
                after,
                now,
            );
        assert(hits_in(files) == hits_in(less) + hits_of(files.last()));
        law_every_file_of_a_walk_is_counted(walk, found, args, less, w, f);
    }
}

/// Every directory that could not be listed is named, by the path it is shown by.
pub proof fn law_every_unlistable_directory_is_named(
    dirs: Seq<Ranked>,
    visits: Seq<Visit>,
    n: int,
)
    requires
        are_dirs_upto(dirs, visits, n),
        0 <= n <= visits.len(),
    ensures
        dirs.len() == visits.take(n).filter(|v: Visit| v is Unlistable).len(),
        forall|i: int|
            0 <= i < dirs.len() ==> visits.take(n).filter(|v: Visit| v is Unlistable)[i]
                == Visit::Unlistable((#[trigger] dirs[i]).rank, dirs[i].path),
    decreases n,
{
    reveal(Seq::filter);
    if n > 0 {
        assert(visits.take(n).drop_last() =~= visits.take(n - 1));
        assert(visits.take(n).last() == visits[n - 1]);
        match visits[n - 1] {
            Visit::Unlistable(_, _) => {
                law_every_unlistable_directory_is_named(dirs.drop_last(), visits, n - 1);
                assert forall|i: int| 0 <= i < dirs.len() implies visits.take(n).filter(
                    |v: Visit| v is Unlistable,
                )[i] == Visit::Unlistable((#[trigger] dirs[i]).rank, dirs[i].path) by {
                    if i < dirs.len() - 1 {
                        assert(dirs.drop_last()[i] == dirs[i]);
                    }
                }
            },
            _ => {
                law_every_unlistable_directory_is_named(dirs, visits, n - 1);
            },
        }
    } else {
        assert(visits.take(0) =~= Seq::empty());
    }
}

} // verus!
