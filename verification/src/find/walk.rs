//! What a walk of the tree comes across, and what it is told for.
use std::ops::Range;

use vstd::prelude::*;

use crate::find::args::FindArgs;
use crate::find::lines::{FileOutcome, Skip};
use crate::find::order::{before, comes_before, sort, sorted, Ranked};
use crate::find::path::{components, is_same_path, parts_listed, parts_of, same_path};
use crate::find::roots::{display_path, shown_path};
use crate::output::{
    tell, tell_some, told_all, told_of, CountRow, IgnoredDirs, Line, NamedDirs, Omission,
    TargetBlock, Told,
};
use crate::text;
use crate::text::texts;

verus! {

/// What an ignore file says of an entry.
#[derive(Debug, Clone, Copy, PartialEq, Eq, Structural)]
pub enum Matched {
    Nothing,
    Ignore,
    Whitelist,
}

/// What a filter has to know of an entry.
#[derive(Debug)]
pub struct Entry {
    pub path: String,
    pub depth: usize,
    pub is_dir: bool,
    pub is_file: bool,
    /// Its name begins with a dot.
    pub dotted: bool,
    pub matched: Matched,
}

/// Why an entry is not searched.
#[derive(Debug)]
pub enum Rejection {
    GitignoredDir(String),
    HiddenDir(String),
    Gitignored,
    Dotfile,
    /// A symlink or special file: never a search candidate, so no bucket claims it.
    NotAFile,
}

/// A rejection as a value.
pub ghost enum Rejected {
    GitignoredDir(Seq<char>),
    HiddenDir(Seq<char>),
    Gitignored,
    Dotfile,
    NotAFile,
}

impl Rejection {
    pub open spec fn is(self) -> Rejected {
        match self {
            Rejection::GitignoredDir(dir) => Rejected::GitignoredDir(dir@),
            Rejection::HiddenDir(dir) => Rejected::HiddenDir(dir@),
            Rejection::Gitignored => Rejected::Gitignored,
            Rejection::Dotfile => Rejected::Dotfile,
            Rejection::NotAFile => Rejected::NotAFile,
        }
    }
}

/// The dotfile rule applies only where the ignore files say nothing, and no rule to a root.
pub open spec fn judged(entry: Entry, hidden: bool) -> Option<Rejected> {
    let dotfile = hidden && entry.matched == Matched::Nothing && entry.dotted;
    if entry.depth == 0 || (entry.matched != Matched::Ignore && !dotfile) {
        None
    } else if entry.is_dir {
        Some(
            if dotfile {
                Rejected::HiddenDir(shown_path(entry.path@))
            } else {
                Rejected::GitignoredDir(shown_path(entry.path@))
            },
        )
    } else if !entry.is_file {
        Some(Rejected::NotAFile)
    } else if dotfile {
        Some(Rejected::Dotfile)
    } else {
        Some(Rejected::Gitignored)
    }
}

/// A root entry is never filtered, whatever its name.
pub fn judge(entry: &Entry, hidden: bool) -> (r: Option<Rejection>)
    ensures
        match r {
            Some(rejection) => judged(*entry, hidden) == Some(rejection.is()),
            None => judged(*entry, hidden) is None,
        },
{
    if entry.depth == 0 {
        return None;
    }
    let dotfile = hidden && entry.matched == Matched::Nothing && entry.dotted;
    if entry.matched != Matched::Ignore && !dotfile {
        return None;
    }
    Some(
        if entry.is_dir {
            let dir = display_path(entry.path.as_str());
            if dotfile {
                Rejection::HiddenDir(dir)
            } else {
                Rejection::GitignoredDir(dir)
            }
        } else if !entry.is_file {
            Rejection::NotAFile
        } else if dotfile {
            Rejection::Dotfile
        } else {
            Rejection::Gitignored
        },
    )
}

/// What an ignore file says is to be ignored stays out of the search, however dotfiles are taken.
/// Where the ignore files say nothing, an entry stays out only as a dotfile and only while those are
/// left out; what they let in, and a root, is never rejected.
pub proof fn law_only_ignored_and_hidden_entries_stay_out(entry: Entry, hidden: bool)
    ensures
        entry.depth > 0 && entry.matched == Matched::Ignore ==> judged(entry, hidden) is Some,
        entry.matched == Matched::Whitelist ==> judged(entry, hidden) is None,
        entry.depth == 0 ==> judged(entry, hidden) is None,
        entry.depth > 0 && entry.matched == Matched::Nothing ==> (judged(entry, hidden) is Some
            <==> hidden && entry.dotted),
{
}

/// Taking dotfiles in changes the verdict on nothing but a dotted entry that no ignore file speaks
/// of, and that one is taken in.
pub proof fn law_taking_dotfiles_in_takes_in_nothing_else(entry: Entry)
    ensures
        judged(entry, true) != judged(entry, false) ==> entry.dotted && entry.matched
            == Matched::Nothing && judged(entry, false) is None,
{
}

/// A rejection tells what kept the entry out: an ignore file or its name, and of a directory which
/// one it is. What is neither a directory nor a file is told as such whatever kept it out.
pub proof fn law_a_rejection_tells_what_kept_the_entry_out(
    entry: Entry,
    hidden: bool,
    rejected: Rejected,
)
    requires
        judged(entry, hidden) == Some(rejected),
    ensures
        rejected is GitignoredDir || rejected is HiddenDir <==> entry.is_dir,
        rejected is NotAFile <==> !entry.is_dir && !entry.is_file,
        rejected is GitignoredDir || rejected is Gitignored ==> entry.matched == Matched::Ignore,
        rejected is HiddenDir || rejected is Dotfile ==> entry.matched == Matched::Nothing
            && entry.dotted && hidden,
        rejected matches Rejected::GitignoredDir(dir) ==> dir == shown_path(entry.path@),
        rejected matches Rejected::HiddenDir(dir) ==> dir == shown_path(entry.path@),
{
}

/// A matcher keeps the compiled rules of every directory it judged a child of and never drops one,
/// so it is made afresh every so many directories: its memory is bounded by that times the tree's
/// depth, not by the tree.
pub const MATCHER_PARENTS_MAX: usize = 64;

/// Which directory's children were last judged, and how many directories that makes since the
/// matchers were fresh.
#[derive(Debug)]
pub struct Parents {
    pub count: usize,
    pub parent: String,
}

impl Parents {
    pub open spec fn wf(self) -> bool {
        self.count <= MATCHER_PARENTS_MAX
    }

    /// Notes the directory of an entry; whether the matchers are to be made afresh.
    pub fn note(&mut self, parent: &str) -> (fresh: bool)
        requires
            old(self).wf(),
        ensures
            final(self).wf(),
            final(self).parent@ == parent@,
            fresh == (old(self).parent@ != parent@ && old(self).count == MATCHER_PARENTS_MAX),
            final(self).count == (if old(self).parent@ == parent@ {
                old(self).count as int
            } else if fresh {
                0
            } else {
                old(self).count + 1
            }),
    {
        if text::same(self.parent.as_str(), parent) {
            return false;
        }
        self.parent = parent.to_owned();
        if self.count == MATCHER_PARENTS_MAX {
            self.count = 0;
            true
        } else {
            self.count = self.count + 1;
            false
        }
    }
}

/// How a tree is walked.
#[derive(Clone, Copy, Debug, PartialEq, Eq, Structural)]
pub enum Traversal {
    Sequential,
    /// `threads` of 0 leaves the number to the walker.
    Parallel { threads: usize },
}

/// The most entries a tree may hold and still be walked on one thread.
pub const SEQUENTIAL_WALK_MAX_ENTRIES: usize = 512;

/// The most directories the size probe lists.
pub const SEQUENTIAL_WALK_MAX_DIRS: usize = 8;

/// How far the probe of a tree's size has got.
#[derive(Debug, Clone, Copy, PartialEq, Eq, Structural)]
pub struct Probe {
    pub budget: usize,
    pub listed: usize,
}

impl Probe {
    pub fn new() -> (r: Probe)
        ensures
            r == (Probe { budget: SEQUENTIAL_WALK_MAX_ENTRIES, listed: 0 }),
    {
        Probe { budget: SEQUENTIAL_WALK_MAX_ENTRIES, listed: 0 }
    }

    /// One more directory is to be listed: the tree is known to be large once too many were.
    pub fn list(&mut self) -> (r: Option<Traversal>)
        requires
            old(self).listed <= SEQUENTIAL_WALK_MAX_DIRS,
        ensures
            final(self).budget == old(self).budget,
            if old(self).listed == SEQUENTIAL_WALK_MAX_DIRS {
                r == Some(Traversal::Parallel { threads: 0 }) && *final(self) == *old(self)
            } else {
                r is None && final(self).listed == old(self).listed + 1
            },
    {
        if self.listed == SEQUENTIAL_WALK_MAX_DIRS {
            return Some(Traversal::Parallel { threads: 0 });
        }
        self.listed = self.listed + 1;
        None
    }

    /// One more entry was listed; a repository's own directory does not count.
    pub fn entry(&mut self, name: &str) -> (r: Option<Traversal>)
        ensures
            final(self).listed == old(self).listed,
            if name@ == ".git"@ {
                r is None && *final(self) == *old(self)
            } else if old(self).budget == 0 {
                r == Some(Traversal::Parallel { threads: 0 }) && *final(self) == *old(self)
            } else {
                r is None && final(self).budget == old(self).budget - 1
            },
    {
        if text::same(name, ".git") {
            return None;
        }
        if self.budget == 0 {
            return Some(Traversal::Parallel { threads: 0 });
        }
        self.budget = self.budget - 1;
        None
    }
}

/// A listed entry, as far as the probe looks at it.
#[derive(Debug)]
pub struct Listed {
    pub name: String,
    pub is_dir: bool,
}

/// How many of the first `n` entries count.
pub open spec fn counted(entries: Seq<Listed>, n: int) -> nat
    decreases n,
{
    if n <= 0 {
        0
    } else {
        counted(entries, n - 1) + (if entries[n - 1].name@ == ".git"@ {
            0nat
        } else {
            1nat
        })
    }
}

/// How many of the first `n` entries are directories still to be listed.
pub open spec fn dirs_among(entries: Seq<Listed>, n: int) -> nat
    decreases n,
{
    if n <= 0 {
        0
    } else {
        dirs_among(entries, n - 1) + (if entries[n - 1].name@ != ".git"@ && entries[n - 1].is_dir {
            1nat
        } else {
            0nat
        })
    }
}

/// One directory's entries are counted: the directories among them are to be listed too, unless
/// the tree is known to be large by now.
pub fn probe_listing(probe: &mut Probe, entries: &Vec<Listed>) -> (r: Result<usize, Traversal>)
    ensures
        final(probe).listed == old(probe).listed,
        match r {
            Ok(dirs) => {
                &&& counted(entries@, entries@.len() as int) <= old(probe).budget
                &&& final(probe).budget == old(probe).budget - counted(
                    entries@,
                    entries@.len() as int,
                )
                &&& dirs == dirs_among(entries@, entries@.len() as int)
            },
            Err(traversal) => {
                &&& counted(entries@, entries@.len() as int) > old(probe).budget
                &&& traversal == (Traversal::Parallel { threads: 0 })
            },
        },
{
    let ghost start = *probe;
    let mut dirs: usize = 0;
    let mut i: usize = 0;
    while i < entries.len()
        invariant
            start == *old(probe),
            i <= entries@.len(),
            dirs <= i,
            probe.listed == start.listed,
            counted(entries@, i as int) <= start.budget,
            probe.budget == start.budget - counted(entries@, i as int),
            dirs == dirs_among(entries@, i as int),
        decreases entries@.len() - i,
    {
        match probe.entry(entries[i].name.as_str()) {
            Some(traversal) => {
                proof {
                    lemma_counted_mono(entries@, i + 1, entries@.len() as int);
                }
                return Err(traversal);
            },
            None => {},
        }
        if !text::same(entries[i].name.as_str(), ".git") && entries[i].is_dir {
            dirs = dirs + 1;
        }
        i = i + 1;
    }
    Ok(dirs)
}

proof fn lemma_counted_mono(entries: Seq<Listed>, m: int, n: int)
    requires
        0 <= m <= n,
    ensures
        counted(entries, m) <= counted(entries, n),
    decreases n,
{
    if m < n {
        lemma_counted_mono(entries, m, n - 1);
    }
}

/// The first bytes of a file, as far as a mark of its encoding may reach.
#[derive(Debug)]
pub struct Head {
    pub first: Vec<u8>,
    pub utf16: bool,
}

/// The bytes begin with the mark of UTF-16, in either byte order.
pub open spec fn is_utf16(bytes: Seq<u8>) -> bool {
    bytes.len() >= 2 && ((bytes[0] == 0xfe && bytes[1] == 0xff) || (bytes[0] == 0xff && bytes[1]
        == 0xfe))
}

pub open spec fn head_of(bytes: Seq<u8>) -> Seq<u8> {
    if bytes.len() <= 2 {
        bytes
    } else {
        bytes.take(2)
    }
}

impl Head {
    /// The head of a file of which `read` was read.
    pub open spec fn is(self, read: Seq<u8>) -> bool {
        self.first@ == head_of(read) && self.utf16 == is_utf16(read)
    }

    pub fn new() -> (r: Head)
        ensures
            r.is(Seq::empty()),
    {
        Head { first: Vec::new(), utf16: false }
    }

    /// One more chunk was read: whether the read is to end, at a UTF-16 mark. Only the first bytes
    /// are kept, and they tell as much as all that was read.
    pub fn read(&mut self, chunk: &[u8]) -> (ends: bool)
        requires
            old(self).is(old(self).first@),
        ensures
            forall|so_far: Seq<u8>| #[trigger]
                old(self).is(so_far) ==> final(self).is(so_far + chunk@),
            ends == final(self).utf16,
            final(self).is(final(self).first@),
    {
        let ghost before = *self;
        let mut i: usize = 0;
        while self.first.len() < 2 && i < chunk.len()
            invariant
                i <= chunk@.len(),
                self.first@.len() <= 2,
                before.first@.len() <= 2,
                self.first@ == before.first@ + chunk@.take(i as int),
                self.utf16 == before.utf16,
            decreases chunk@.len() - i,
        {
            self.first.push(chunk[i]);
            i = i + 1;
            assert(self.first@ =~= before.first@ + chunk@.take(i as int));
        }
        self.utf16 = self.first.len() == 2 && ((self.first[0] == 0xfe && self.first[1] == 0xff)
            || (self.first[0] == 0xff && self.first[1] == 0xfe));
        assert forall|so_far: Seq<u8>| #[trigger] before.is(so_far) implies self.is(
            so_far + chunk@,
        ) by {
            let all = so_far + chunk@;
            if so_far.len() >= 2 {
                assert(before.first@ =~= so_far.take(2));
                assert(all.take(2) =~= so_far.take(2));
                assert(i == 0);
                assert(self.first@ =~= before.first@);
                assert(self.first@ =~= head_of(all));
            } else {
                assert(before.first@ =~= so_far);
                assert(self.first@ =~= head_of(all));
            }
        }
        self.utf16
    }
}

/// `gitignored` and `dotfiles` count files a filter rejected directly: a file under a rejected
/// directory is covered by that directory's name, since the walk never enters it.
#[derive(Debug)]
pub struct Walk {
    pub searched: usize,
    pub binary: usize,
    pub too_large: usize,
    pub unreadable: usize,
    pub unreadable_dirs: Vec<String>,
    /// For each file that has any, its lines that did not decode.
    pub lossy: Vec<(String, Vec<usize>)>,
    pub gitignored: usize,
    pub dotfiles: usize,
    pub gitignored_dirs: Vec<String>,
    pub hidden_dirs: Vec<String>,
}

/// What a walk found, in the order in which it is listed.
#[derive(Debug)]
pub struct Found {
    pub total_hits: usize,
    pub blocks: Vec<TargetBlock>,
    /// Per block, each line's first wrapped match: long lines are cut once the response knows
    /// which lines it prints.
    pub first_matches: Vec<Vec<Option<Range<usize>>>>,
    pub files: Vec<String>,
    pub counts: Vec<CountRow>,
    /// The map of the busiest files, for an answer that is over its cap.
    pub file_hits: Vec<CountRow>,
}

/// A block of hits in one file.
pub open spec fn is_hit_block(block: TargetBlock, path: Seq<char>, lines: Seq<Line>) -> bool {
    &&& block.target@ == path
    &&& block.path@ == path
    &&& block.span is None
    &&& block.window is None
    &&& block.not_shown is None
    &&& block.resolver is None
    &&& !block.crlf
    &&& block.lossy_lines@.len() == 0
    &&& !block.no_trailing_newline
    &&& block.lines@ == lines
}

pub fn hit_block(path: String, lines: Vec<Line>) -> (r: TargetBlock)
    ensures
        is_hit_block(r, path@, lines@),
{
    TargetBlock {
        target: path.clone(),
        path,
        span: None,
        window: None,
        not_shown: None,
        resolver: None,
        crlf: false,
        lossy_lines: Vec::new(),
        no_trailing_newline: false,
        lines,
    }
}

impl Found {
    pub fn new() -> (r: Found)
        ensures
            r.total_hits == 0,
            r.blocks@.len() == 0 && r.first_matches@.len() == 0,
            r.files@.len() == 0 && r.counts@.len() == 0 && r.file_hits@.len() == 0,
    {
        Found {
            total_hits: 0,
            blocks: Vec::new(),
            first_matches: Vec::new(),
            files: Vec::new(),
            counts: Vec::new(),
            file_hits: Vec::new(),
        }
    }
}

/// The lines of a file that did not decode take the place of those noted of it before.
pub open spec fn is_lost_noted(
    lossy: Seq<(String, Vec<usize>)>,
    path: Seq<char>,
    lines: Vec<usize>,
    after: Seq<(String, Vec<usize>)>,
) -> bool {
    ||| exists|k: int| #[trigger]
        is_first_of(lossy, path, k) && after == lossy.update(k, (lossy[k].0, lines))
    ||| {
        &&& forall|j: int| 0 <= j < lossy.len() ==> !same_path((#[trigger] lossy[j]).0@, path)
        &&& after.len() == lossy.len() + 1
        &&& after.drop_last() == lossy
        &&& after.last().0@ == path
        &&& after.last().1 == lines
    }
}

/// Entry `k` is the first of that path.
pub open spec fn is_first_of(lossy: Seq<(String, Vec<usize>)>, path: Seq<char>, k: int) -> bool {
    &&& 0 <= k < lossy.len()
    &&& same_path(lossy[k].0@, path)
    &&& forall|j: int| 0 <= j < k ==> !same_path((#[trigger] lossy[j]).0@, path)
}

fn note_lost(lossy: &mut Vec<(String, Vec<usize>)>, path: &str, lines: Vec<usize>)
    ensures
        is_lost_noted(old(lossy)@, path@, lines, final(lossy)@),
{
    let ghost start = lossy@;
    let mut k: usize = 0;
    while k < lossy.len()
        invariant
            start == old(lossy)@,
            lossy@ == start,
            k <= lossy@.len(),
            forall|j: int| 0 <= j < k ==> !same_path((#[trigger] lossy@[j]).0@, path@),
        decreases lossy@.len() - k,
    {
        if is_same_path(lossy[k].0.as_str(), path) {
            let (known, _) = lossy.remove(k);
            lossy.insert(k, (known, lines));
            assert(is_first_of(start, path@, k as int));
            assert(lossy@ =~= start.update(k as int, (start[k as int].0, lines)));
            return;
        }
        k = k + 1;
    }
    lossy.push((path.to_owned(), lines));
    assert(lossy@.drop_last() =~= start);
}

impl Walk {
    pub fn new() -> (r: Walk)
        ensures
            r.searched == 0 && r.binary == 0 && r.too_large == 0 && r.unreadable == 0,
            r.gitignored == 0 && r.dotfiles == 0,
            r.unreadable_dirs@.len() == 0 && r.lossy@.len() == 0,
            r.gitignored_dirs@.len() == 0 && r.hidden_dirs@.len() == 0,
    {
        Walk {
            searched: 0,
            binary: 0,
            too_large: 0,
            unreadable: 0,
            unreadable_dirs: Vec::new(),
            lossy: Vec::new(),
            gitignored: 0,
            dotfiles: 0,
            gitignored_dirs: Vec::new(),
            hidden_dirs: Vec::new(),
        }
    }

    /// There is room for one more of each count.
    pub open spec fn can_count(self) -> bool {
        &&& self.searched < usize::MAX
        &&& self.binary < usize::MAX
        &&& self.too_large < usize::MAX
        &&& self.unreadable < usize::MAX
        &&& self.gitignored < usize::MAX
        &&& self.dotfiles < usize::MAX
    }

    /// Rows are the only order-dependent state, so callers hand files over in render order.
    pub fn record(&mut self, found: &mut Found, args: &FindArgs, path: &str, outcome: FileOutcome)
        requires
            old(self).can_count(),
            outcome matches FileOutcome::Searched { hits, .. } ==> old(found).total_hits + hits
                <= usize::MAX,
        ensures
            is_recorded(*old(self), *old(found), *args, path@, outcome, *final(self), *final(found)),
    {
        let (lossy_lines, hits, lines, first_match) = match outcome {
            FileOutcome::Skipped(skip) => {
                match skip {
                    Skip::Binary => {
                        self.binary = self.binary + 1;
                    },
                    Skip::TooLarge => {
                        self.too_large = self.too_large + 1;
                    },
                    Skip::Unreadable => {
                        self.unreadable = self.unreadable + 1;
                    },
                }
                return;
            },
            FileOutcome::Searched { lossy_lines, hits, lines, first_match } => (
                lossy_lines,
                hits,
                lines,
                first_match,
            ),
        };
        self.searched = self.searched + 1;
        if hits == 0 {
            return;
        }
        let display = display_path(path);
        found.total_hits = found.total_hits + hits;
        if lossy_lines.len() > 0 {
            note_lost(&mut self.lossy, display.as_str(), lossy_lines);
        }
        if args.files {
            found.files.push(display);
            assert(texts(found.files@) =~= texts(old(found).files@).push(display@));
        } else if args.count {
            found.counts.push(CountRow { count: hits, path: display });
            assert(found.counts@.drop_last() =~= old(found).counts@);
        } else {
            // Kept so an over-cap response can map the busiest files without a second walk.
            found.file_hits.push(CountRow { count: hits, path: display.clone() });
            found.blocks.push(hit_block(display, lines));
            found.first_matches.push(first_match);
            assert(found.file_hits@.drop_last() =~= old(found).file_hits@);
            assert(found.blocks@.drop_last() =~= old(found).blocks@);
        }
    }

    pub fn reject(&mut self, rejection: Rejection)
        requires
            old(self).can_count(),
        ensures
            match rejection {
                Rejection::GitignoredDir(dir) => *final(self) == (Walk {
                    gitignored_dirs: final(self).gitignored_dirs,
                    ..*old(self)
                }) && final(self).gitignored_dirs@ == old(self).gitignored_dirs@.push(dir),
                Rejection::HiddenDir(dir) => *final(self) == (Walk {
                    hidden_dirs: final(self).hidden_dirs,
                    ..*old(self)
                }) && final(self).hidden_dirs@ == old(self).hidden_dirs@.push(dir),
                Rejection::Gitignored => *final(self) == (Walk {
                    gitignored: (old(self).gitignored + 1) as usize,
                    ..*old(self)
                }),
                Rejection::Dotfile => *final(self) == (Walk {
                    dotfiles: (old(self).dotfiles + 1) as usize,
                    ..*old(self)
                }),
                Rejection::NotAFile => *final(self) == *old(self),
            },
    {
        match rejection {
            Rejection::GitignoredDir(dir) => self.gitignored_dirs.push(dir),
            Rejection::HiddenDir(dir) => self.hidden_dirs.push(dir),
            Rejection::Gitignored => {
                self.gitignored = self.gitignored + 1;
            },
            Rejection::Dotfile => {
                self.dotfiles = self.dotfiles + 1;
            },
            Rejection::NotAFile => {},
        }
    }
}

/// A file's row is added where its kind of answer keeps one; a file with no hits adds none.
pub open spec fn is_recorded(
    walk: Walk,
    found: Found,
    args: FindArgs,
    path: Seq<char>,
    outcome: FileOutcome,
    after: Walk,
    now: Found,
) -> bool {
    match outcome {
        FileOutcome::Skipped(skip) => {
            &&& now == found
            &&& after == (match skip {
                Skip::Binary => Walk { binary: (walk.binary + 1) as usize, ..walk },
                Skip::TooLarge => Walk { too_large: (walk.too_large + 1) as usize, ..walk },
                Skip::Unreadable => Walk { unreadable: (walk.unreadable + 1) as usize, ..walk },
            })
        },
        FileOutcome::Searched { lossy_lines, hits, lines, first_match } => {
            &&& after == (Walk {
                searched: (walk.searched + 1) as usize,
                lossy: after.lossy,
                ..walk
            })
            &&& if hits == 0 {
                after.lossy == walk.lossy && now == found
            } else {
                let shown = shown_path(path);
                &&& now.total_hits == found.total_hits + hits
                &&& if lossy_lines@.len() == 0 {
                    after.lossy == walk.lossy
                } else {
                    is_lost_noted(walk.lossy@, shown, lossy_lines, after.lossy@)
                }
                &&& if args.files {
                    &&& now == (Found { total_hits: now.total_hits, files: now.files, ..found })
                    &&& texts(now.files@) == texts(found.files@).push(shown)
                } else if args.count {
                    &&& now == (Found { total_hits: now.total_hits, counts: now.counts, ..found })
                    &&& is_row_added(found.counts@, now.counts@, shown, hits)
                } else {
                    &&& now.files == found.files
                    &&& now.counts == found.counts
                    &&& is_row_added(found.file_hits@, now.file_hits@, shown, hits)
                    &&& now.blocks@.len() == found.blocks@.len() + 1
                    &&& now.blocks@.drop_last() == found.blocks@
                    &&& is_hit_block(now.blocks@.last(), shown, lines@)
                    &&& now.first_matches@ == found.first_matches@.push(first_match)
                }
            }
        },
    }
}

pub open spec fn is_row_added(
    before: Seq<CountRow>,
    after: Seq<CountRow>,
    path: Seq<char>,
    count: usize,
) -> bool {
    &&& after.len() == before.len() + 1
    &&& after.drop_last() == before
    &&& after.last().path@ == path
    &&& after.last().count == count
}

/// The directories with their depths.
pub open spec fn are_ranked(dirs: Seq<String>, ranked: Seq<Ranked>) -> bool {
    &&& ranked.len() == dirs.len()
    &&& forall|i: int|
        0 <= i < dirs.len() ==> (#[trigger] ranked[i]).path == dirs[i] && ranked[i].rank
            == parts_of(dirs[i]@).len() && ranked[i].typed@ == ""@
}

fn ranked(dirs: &Vec<String>) -> (r: Vec<Ranked>)
    ensures
        are_ranked(dirs@, r@),
{
    let mut out: Vec<Ranked> = Vec::new();
    let mut i: usize = 0;
    while i < dirs.len()
        invariant
            i <= dirs@.len(),
            out@.len() == i,
            forall|k: int|
                0 <= k < i ==> (#[trigger] out@[k]).path == dirs@[k] && out@[k].rank == parts_of(
                    dirs@[k]@,
                ).len() && out@[k].typed@ == ""@,
        decreases dirs@.len() - i,
    {
        let names = components(dirs[i].as_str());
        assert(parts_listed(names@).len() == names@.len());
        out.push(Ranked { rank: names.len(), path: dirs[i].clone(), typed: "".to_owned() });
        i = i + 1;
    }
    out
}

/// `list` holds the directories, the shallowest first.
pub open spec fn is_listing(dirs: Seq<String>, list: Seq<Ranked>) -> bool {
    exists|all: Seq<Ranked>| #[trigger]
        are_ranked(dirs, all) && sorted(list) && list.to_multiset() == all.to_multiset()
            && list.len() == dirs.len()
}

/// Bounds the footer: a monorepo can reject a `node_modules/` per package.
pub const IGNORED_DIRS_NAMED: usize = 5;

/// How many directories of each source are named, from `a` and `b` on: the shallowest that is left,
/// until enough are named or none is left.
pub open spec fn named_from(
    git: Seq<Ranked>,
    hidden: Seq<Ranked>,
    a: nat,
    b: nat,
) -> (nat, nat)
    decreases IGNORED_DIRS_NAMED - (a + b),
{
    if a + b >= IGNORED_DIRS_NAMED {
        (a, b)
    } else if a < git.len() && (b >= hidden.len() || before(git[a as int], hidden[b as int])) {
        named_from(git, hidden, a + 1, b)
    } else if b < hidden.len() {
        named_from(git, hidden, a, b + 1)
    } else {
        (a, b)
    }
}

/// Each source that pruned anything keeps its shallowest name, so the footer names a directory per
/// flag.
pub open spec fn named_counts(git: Seq<Ranked>, hidden: Seq<Ranked>) -> (nat, nat) {
    named_from(
        git,
        hidden,
        if git.len() > 0 {
            1
        } else {
            0
        },
        if hidden.len() > 0 {
            1
        } else {
            0
        },
    )
}

/// However many directories were rejected, no more are named than the footer takes, each source
/// that has any names one, and those named are those listed first.
pub proof fn law_few_directories_are_named(git: Seq<Ranked>, hidden: Seq<Ranked>)
    ensures
        ({
            let (a, b) = named_counts(git, hidden);
            &&& a + b <= IGNORED_DIRS_NAMED
            &&& a <= git.len()
            &&& b <= hidden.len()
            &&& git.len() > 0 ==> a >= 1
            &&& hidden.len() > 0 ==> b >= 1
            &&& a + b < IGNORED_DIRS_NAMED ==> a == git.len() && b == hidden.len()
        }),
{
    lemma_named_from(
        git,
        hidden,
        if git.len() > 0 {
            1
        } else {
            0
        },
        if hidden.len() > 0 {
            1
        } else {
            0
        },
    );
}

proof fn lemma_named_from(git: Seq<Ranked>, hidden: Seq<Ranked>, a: nat, b: nat)
    requires
        a <= git.len(),
        b <= hidden.len(),
        a + b <= IGNORED_DIRS_NAMED,
    ensures
        ({
            let (x, y) = named_from(git, hidden, a, b);
            &&& x + y <= IGNORED_DIRS_NAMED
            &&& a <= x <= git.len()
            &&& b <= y <= hidden.len()
            &&& x + y < IGNORED_DIRS_NAMED ==> x == git.len() && y == hidden.len()
        }),
    decreases IGNORED_DIRS_NAMED - (a + b),
{
    if a + b < IGNORED_DIRS_NAMED {
        if a < git.len() && (b >= hidden.len() || before(git[a as int], hidden[b as int])) {
            lemma_named_from(git, hidden, a + 1, b);
        } else if b < hidden.len() {
            lemma_named_from(git, hidden, a, b + 1);
        }
    }
}

/// `named` names the first `n` of the listed directories, and counts the rest.
pub open spec fn names_first(named: NamedDirs, list: Seq<Ranked>, n: nat) -> bool {
    &&& named.named@.len() == n
    &&& forall|i: int| 0 <= i < n ==> (#[trigger] named.named@[i]) == list[i].path
    &&& named.more == list.len() - n
}

/// The directories that are named for the two sources.
pub open spec fn are_named(
    dirs: IgnoredDirs,
    gitignored: Seq<String>,
    hidden: Seq<String>,
) -> bool {
    exists|a: Seq<Ranked>, b: Seq<Ranked>|
        is_listing(gitignored, a) && is_listing(hidden, b) && #[trigger] names_first(
            dirs.gitignore,
            a,
            named_counts(a, b).0,
        ) && #[trigger] names_first(dirs.hidden, b, named_counts(a, b).1)
}

fn first_names(list: &Vec<Ranked>, n: usize) -> (r: NamedDirs)
    requires
        n <= list@.len(),
    ensures
        names_first(r, list@, n as nat),
{
    let mut named: Vec<String> = Vec::new();
    let mut i: usize = 0;
    while i < n
        invariant
            i <= n <= list@.len(),
            named@.len() == i,
            forall|k: int| 0 <= k < i ==> (#[trigger] named@[k]) == list@[k].path,
        decreases n - i,
    {
        named.push(list[i].path.clone());
        i = i + 1;
    }
    NamedDirs { named, more: list.len() - n }
}

/// Shallowest first, so a nested rejection never hides a top-level `target/`, with the path
/// breaking ties, since a parallel walk rejects directories in scheduler order.
pub fn name_dirs(gitignored: &Vec<String>, hidden: &Vec<String>) -> (r: IgnoredDirs)
    ensures
        are_named(r, gitignored@, hidden@),
{
    let all_git = ranked(gitignored);
    let ghost ag = all_git@;
    let all_hidden = ranked(hidden);
    let ghost ah = all_hidden@;
    let git = sort(all_git);
    let hid = sort(all_hidden);
    assert(are_ranked(gitignored@, ag) && are_ranked(hidden@, ah));
    let mut a: usize = if git.len() > 0 {
        1
    } else {
        0
    };
    let mut b: usize = if hid.len() > 0 {
        1
    } else {
        0
    };
    while a + b < IGNORED_DIRS_NAMED
        invariant
            a <= git@.len(),
            b <= hid@.len(),
            a + b <= IGNORED_DIRS_NAMED,
            named_from(git@, hid@, a as nat, b as nat) == named_counts(git@, hid@),
        ensures
            a <= git@.len(),
            b <= hid@.len(),
            (a as nat, b as nat) == named_counts(git@, hid@),
        decreases IGNORED_DIRS_NAMED - (a + b),
    {
        if a < git.len() && (b >= hid.len() || comes_before(&git[a], &hid[b])) {
            a = a + 1;
        } else if b < hid.len() {
            b = b + 1;
        } else {
            break;
        }
    }
    let gitignore = first_names(&git, a);
    let hidden_dirs = first_names(&hid, b);
    let r = IgnoredDirs { gitignore, hidden: hidden_dirs };
    assert(names_first(r.gitignore, git@, named_counts(git@, hid@).0));
    assert(names_first(r.hidden, hid@, named_counts(git@, hid@).1));
    assert(is_listing(gitignored@, git@));
    assert(is_listing(hidden@, hid@));
    r
}

/// What the filters kept out, where they kept anything out.
pub open spec fn is_ignored(note: Option<Omission>, walk: Walk) -> bool {
    match note {
        None => walk.gitignored == 0 && walk.dotfiles == 0 && walk.gitignored_dirs@.len() == 0
            && walk.hidden_dirs@.len() == 0,
        Some(omission) => {
            &&& !(walk.gitignored == 0 && walk.dotfiles == 0 && walk.gitignored_dirs@.len() == 0
                && walk.hidden_dirs@.len() == 0)
            &&& omission matches Omission::Ignored { gitignore, hidden, other, dirs } && gitignore
                == walk.gitignored && hidden == walk.dotfiles && other == 0 && are_named(
                dirs,
                walk.gitignored_dirs@,
                walk.hidden_dirs@,
            )
        },
    }
}

impl Walk {
    /// A file the walk reached but could not search is named as skipped, so `other` stays zero.
    pub fn ignored(&self) -> (r: Option<Omission>)
        ensures
            is_ignored(r, *self),
    {
        if self.gitignored == 0 && self.dotfiles == 0 && self.gitignored_dirs.len() == 0
            && self.hidden_dirs.len() == 0 {
            return None;
        }
        Some(
            Omission::Ignored {
                gitignore: self.gitignored,
                hidden: self.dotfiles,
                other: 0,
                dirs: name_dirs(&self.gitignored_dirs, &self.hidden_dirs),
            },
        )
    }

    pub fn skipped(&self) -> (r: Option<Omission>)
        ensures
            r == (if self.binary == 0 && self.too_large == 0 && self.unreadable == 0 {
                None::<Omission>
            } else {
                Some(
                    Omission::Skipped {
                        binary: self.binary,
                        too_large: self.too_large,
                        unreadable: self.unreadable,
                    },
                )
            }),
    {
        if self.binary == 0 && self.too_large == 0 && self.unreadable == 0 {
            return None;
        }
        Some(
            Omission::Skipped {
                binary: self.binary,
                too_large: self.too_large,
                unreadable: self.unreadable,
            },
        )
    }
}

/// What a walk is told for: the globs, what the filters kept out, what was skipped, and each
/// directory that could not be listed.
pub open spec fn are_walk_notes(walked: Seq<Omission>, globs: Seq<String>, walk: Walk) -> bool {
    exists|ignored: Option<Omission>, skipped: Option<Omission>| #[trigger]
        is_ignored(ignored, walk) && #[trigger] told_of(skipped) == told_of(
            if walk.binary == 0 && walk.too_large == 0 && walk.unreadable == 0 {
                None
            } else {
                Some(
                    Omission::Skipped {
                        binary: walk.binary,
                        too_large: walk.too_large,
                        unreadable: walk.unreadable,
                    },
                )
            },
        ) && told_all(walked) == (if globs.len() == 0 {
            Seq::empty()
        } else {
            seq![Told::Glob { patterns: texts(globs) }]
        }) + told_of(ignored) + told_of(skipped) + unlisted(walk.unreadable_dirs@)
}

pub open spec fn unlisted(dirs: Seq<String>) -> Seq<Told> {
    dirs.map_values(|dir: String| Told::Unreadable { path: dir@ })
}

pub fn copy_texts(list: &Vec<String>) -> (r: Vec<String>)
    ensures
        r@ == list@,
{
    let mut out: Vec<String> = Vec::new();
    let mut i: usize = 0;
    while i < list.len()
        invariant
            i <= list@.len(),
            out@ == list@.take(i as int),
        decreases list@.len() - i,
    {
        out.push(list[i].clone());
        i = i + 1;
        assert(out@ =~= list@.take(i as int));
    }
    assert(out@ =~= list@);
    out
}

pub fn walk_omissions(args: &FindArgs, walk: &Walk) -> (walked: Vec<Omission>)
    ensures
        are_walk_notes(walked@, args.globs@, *walk),
{
    let mut walked: Vec<Omission> = Vec::new();
    assert(told_all(walked@) =~= Seq::empty());
    if args.globs.len() > 0 {
        tell(&mut walked, Omission::Glob { patterns: copy_texts(&args.globs) });
    }
    let ghost first = told_all(walked@);
    assert(first =~= (if args.globs@.len() == 0 {
        Seq::empty()
    } else {
        seq![Told::Glob { patterns: texts(args.globs@) }]
    }));
    let ignored = walk.ignored();
    let skipped = walk.skipped();
    let ghost (i, s) = (ignored, skipped);
    tell_some(&mut walked, ignored);
    tell_some(&mut walked, skipped);
    let ghost so_far = told_all(walked@);
    let ghost dirs = unlisted(walk.unreadable_dirs@);
    let mut k: usize = 0;
    assert(so_far + dirs.take(0) =~= so_far);
    while k < walk.unreadable_dirs.len()
        invariant
            k <= walk.unreadable_dirs@.len(),
            dirs == unlisted(walk.unreadable_dirs@),
            told_all(walked@) == so_far + dirs.take(k as int),
        decreases walk.unreadable_dirs@.len() - k,
    {
        tell(&mut walked, Omission::Unreadable { path: walk.unreadable_dirs[k].clone() });
        k = k + 1;
        assert(told_all(walked@) =~= so_far + dirs.take(k as int));
    }
    assert(dirs.take(k as int) =~= dirs);
    proof {
        assert(is_ignored(i, *walk));
        assert(told_all(walked@) =~= first + told_of(i) + told_of(s) + dirs);
        assert(told_of(s) == told_of(s));
    }
    walked
}

/// Each file that the walk comes to is counted once: as searched, or under what kept it from that.
/// A file with hits has one row, under the path it is shown by, in the one listing that the flags
/// ask for, and a file without has none; the hits add up.
pub proof fn law_each_file_is_counted_once(
    walk: Walk,
    found: Found,
    args: FindArgs,
    path: Seq<char>,
    outcome: FileOutcome,
    after: Walk,
    now: Found,
)
    requires
        is_recorded(walk, found, args, path, outcome, after, now),
        walk.can_count(),
        found.total_hits + hits_in(outcome) <= usize::MAX,
    ensures
        after.searched + after.binary + after.too_large + after.unreadable == walk.searched
            + walk.binary + walk.too_large + walk.unreadable + 1,
        after.searched == walk.searched + 1 <==> outcome is Searched,
        outcome == FileOutcome::Skipped(Skip::Binary) ==> after.binary == walk.binary + 1,
        outcome == FileOutcome::Skipped(Skip::TooLarge) ==> after.too_large == walk.too_large + 1,
        outcome == FileOutcome::Skipped(Skip::Unreadable) ==> after.unreadable == walk.unreadable
            + 1,
        after.gitignored == walk.gitignored && after.dotfiles == walk.dotfiles,
        after.gitignored_dirs == walk.gitignored_dirs && after.hidden_dirs == walk.hidden_dirs,
        now.total_hits == found.total_hits + hits_in(outcome),
        hits_in(outcome) == 0 ==> now == found,
        hits_in(outcome) > 0 && args.files ==> now.files@.len() == found.files@.len() + 1
            && now.files@.last()@ == shown_path(path) && now.counts == found.counts && now.blocks
            == found.blocks && now.file_hits == found.file_hits,
        hits_in(outcome) > 0 && !args.files && args.count ==> now.counts@.len()
            == found.counts@.len() + 1 && now.counts@.last().path@ == shown_path(path)
            && now.counts@.last().count == hits_in(outcome) && now.files == found.files
            && now.blocks == found.blocks && now.file_hits == found.file_hits,
        hits_in(outcome) > 0 && !args.files && !args.count ==> {
            &&& now.blocks@.len() == found.blocks@.len() + 1
            &&& now.blocks@.last().path@ == shown_path(path)
            &&& now.blocks@.last().lines@ == outcome->lines@
            &&& now.file_hits@.len() == found.file_hits@.len() + 1
            &&& now.file_hits@.last().path@ == shown_path(path)
            &&& now.file_hits@.last().count == hits_in(outcome)
            &&& now.files == found.files && now.counts == found.counts
        },
{
    if hits_in(outcome) > 0 && args.files {
        assert(texts(now.files@).len() == now.files@.len());
        assert(texts(found.files@).len() == found.files@.len());
        assert(texts(now.files@).last() == now.files@.last()@);
    }
}

/// How many hits a file has.
pub open spec fn hits_in(outcome: FileOutcome) -> nat {
    match outcome {
        FileOutcome::Searched { hits, .. } => hits as nat,
        FileOutcome::Skipped(_) => 0,
    }
}

proof fn lemma_listed_dir(dirs: Seq<String>, list: Seq<Ranked>, i: int)
    requires
        is_listing(dirs, list),
        0 <= i < list.len(),
    ensures
        dirs.contains(list[i].path),
{
    broadcast use vstd::seq_lib::group_to_multiset_ensures;

    let all = choose|all: Seq<Ranked>| #[trigger]
        are_ranked(dirs, all) && sorted(list) && list.to_multiset() == all.to_multiset()
            && list.len() == dirs.len();
    assert(list.contains(list[i]));
    assert(list.to_multiset().count(list[i]) > 0);
    assert(all.contains(list[i]));
    let k = choose|k: int| 0 <= k < all.len() && all[k] == list[i];
    assert(dirs[k] == list[i].path);
}

/// What the filters kept out is told where they kept anything out: the files by their number, and the
/// directories by name, as many as there is room for, one of each kind at least, and the rest by
/// their number.
pub proof fn law_what_was_kept_out_is_told(note: Option<Omission>, walk: Walk)
    requires
        is_ignored(note, walk),
    ensures
        note is None <==> walk.gitignored == 0 && walk.dotfiles == 0 && walk.gitignored_dirs@.len()
            == 0 && walk.hidden_dirs@.len() == 0,
        note matches Some(Omission::Ignored { gitignore, hidden, dirs, .. }) ==> {
            let (a, b) = (dirs.gitignore, dirs.hidden);
            &&& gitignore == walk.gitignored && hidden == walk.dotfiles
            &&& a.named@.len() + a.more == walk.gitignored_dirs@.len()
            &&& b.named@.len() + b.more == walk.hidden_dirs@.len()
            &&& walk.gitignored_dirs@.len() > 0 ==> a.named@.len() > 0
            &&& walk.hidden_dirs@.len() > 0 ==> b.named@.len() > 0
            &&& a.named@.len() + b.named@.len() >= IGNORED_DIRS_NAMED || (a.more == 0 && b.more
                == 0)
            &&& forall|i: int|
                0 <= i < a.named@.len() ==> walk.gitignored_dirs@.contains(#[trigger] a.named@[i])
            &&& forall|i: int|
                0 <= i < b.named@.len() ==> walk.hidden_dirs@.contains(#[trigger] b.named@[i])
        },
        note is Some ==> note->0 is Ignored,
{
    if let Some(Omission::Ignored { gitignore, hidden, other, dirs }) = note {
        let (gits, hids) = (walk.gitignored_dirs@, walk.hidden_dirs@);
        let (a, b) = choose|a: Seq<Ranked>, b: Seq<Ranked>|
            is_listing(gits, a) && is_listing(hids, b) && #[trigger] names_first(
                dirs.gitignore,
                a,
                named_counts(a, b).0,
            ) && #[trigger] names_first(dirs.hidden, b, named_counts(a, b).1);
        lemma_named_from(
            a,
            b,
            if a.len() > 0 {
                1
            } else {
                0
            },
            if b.len() > 0 {
                1
            } else {
                0
            },
        );
        assert forall|i: int| 0 <= i < dirs.gitignore.named@.len() implies gits.contains(
            #[trigger] dirs.gitignore.named@[i],
        ) by {
            lemma_listed_dir(gits, a, i);
        }
        assert forall|i: int| 0 <= i < dirs.hidden.named@.len() implies hids.contains(
            #[trigger] dirs.hidden.named@[i],
        ) by {
            lemma_listed_dir(hids, b, i);
        }
    }
}

/// A walk tells of its globs where there are any, and of every directory that it could not list.
pub proof fn law_a_walk_tells_what_it_left_out(
    walked: Seq<Omission>,
    globs: Seq<String>,
    walk: Walk,
)
    requires
        are_walk_notes(walked, globs, walk),
    ensures
        globs.len() > 0 ==> told_all(walked).contains(Told::Glob { patterns: texts(globs) }),
        walk.binary > 0 || walk.too_large > 0 || walk.unreadable > 0 ==> told_all(walked).contains(
            Omission::Skipped {
                binary: walk.binary,
                too_large: walk.too_large,
                unreadable: walk.unreadable,
            }.told(),
        ),
        forall|i: int|
            0 <= i < walk.unreadable_dirs@.len() ==> told_all(walked).contains(
                Told::Unreadable { path: (#[trigger] walk.unreadable_dirs@[i])@ },
            ),
        exists|ignored: Option<Omission>| #[trigger]
            is_ignored(ignored, walk) && (ignored is Some ==> told_all(walked).contains(
                (ignored->0).told(),
            )),
{
    let (ignored, skipped) = choose|ignored: Option<Omission>, skipped: Option<Omission>| #[trigger]
        is_ignored(ignored, walk) && #[trigger] told_of(skipped) == told_of(
            if walk.binary == 0 && walk.too_large == 0 && walk.unreadable == 0 {
                None
            } else {
                Some(
                    Omission::Skipped {
                        binary: walk.binary,
                        too_large: walk.too_large,
                        unreadable: walk.unreadable,
                    },
                )
            },
        ) && told_all(walked) == (if globs.len() == 0 {
            Seq::empty()
        } else {
            seq![Told::Glob { patterns: texts(globs) }]
        }) + told_of(ignored) + told_of(skipped) + unlisted(walk.unreadable_dirs@);
    let all = told_all(walked);
    let g = if globs.len() == 0 {
        0int
    } else {
        1
    };
    let k = told_of(ignored).len() as int;
    let s = told_of(skipped).len() as int;
    if globs.len() > 0 {
        assert(all[0] == Told::Glob { patterns: texts(globs) });
    }
    if ignored is Some {
        assert(all[g] == (ignored->0).told());
    }
    if s > 0 {
        assert(all[g + k] == told_of(skipped)[0]);
    }
    assert forall|i: int| 0 <= i < walk.unreadable_dirs@.len() implies all.contains(
        Told::Unreadable { path: (#[trigger] walk.unreadable_dirs@[i])@ },
    ) by {
        assert(all[g + k + s + i] == unlisted(walk.unreadable_dirs@)[i]);
    }
}

/// Every entry of a directory counts but the repository's own, and so does every directory that is
/// still to be listed.
pub proof fn law_every_entry_but_the_repository_counts(entries: Seq<Listed>, n: int)
    requires
        0 <= n <= entries.len(),
    ensures
        counted(entries, n) == entries.take(n).filter(
            |entry: Listed| entry.name@ != ".git"@,
        ).len(),
        dirs_among(entries, n) == entries.take(n).filter(
            |entry: Listed| entry.name@ != ".git"@ && entry.is_dir,
        ).len(),
    decreases n,
{
    reveal(Seq::filter);
    if n > 0 {
        law_every_entry_but_the_repository_counts(entries, n - 1);
        assert(entries.take(n).drop_last() =~= entries.take(n - 1));
    } else {
        assert(entries.take(0) =~= Seq::empty());
    }
}

} // verus!
