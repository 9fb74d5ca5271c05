//! Scanning transcripts: which files are read, and what their lines say.
use vstd::prelude::*;
use vstd::utf8::*;

use crate::edit::lines::utf8_text;
use crate::find::search::{are_files_by_path, files_by_path};
use crate::json::{json_of, read_json};
use crate::output::{StatsReport, StatsSkips};
use crate::shell::{name_of, path_name};
use crate::stats::counts;
use crate::stats::counts::Uses;
use crate::stats::{
    counted_of, fits, grows, law_no_count_shrinks, lemma_grows_fits, lemma_grows_trans,
    session_of, take_value, told, Counted, Reading, Session,
};
use crate::text;
use crate::text::trimmed;

verus! {

/// What is known of when a file was last written.
#[derive(Debug, Clone, Copy, PartialEq, Eq, Structural)]
pub enum Recent {
    /// No time was asked for.
    Any,
    Yes,
    No,
    /// The file did not tell.
    Unknown,
}

/// What a walk comes upon.
#[derive(Debug)]
pub enum Met {
    Failed,
    Seen { path: String, is_file: bool, recent: Recent },
}

/// The path ends in `.jsonl`, after a name.
pub open spec fn is_transcript(path: Seq<char>) -> bool {
    match name_of(path) {
        Some(name) => ".jsonl"@.is_suffix_of(name) && name != ".jsonl"@,
        None => false,
    }
}

pub fn has_transcript_name(path: &str) -> (r: bool)
    ensures
        r == is_transcript(path@),
{
    match path_name(path) {
        Some(name) => text::ends_with(name, ".jsonl") && !text::same(name, ".jsonl"),
        None => false,
    }
}

/// The file is read.
pub open spec fn is_read(met: Met) -> bool {
    match met {
        Met::Failed => false,
        Met::Seen { path, is_file, recent } => is_file && is_transcript(path@) && (recent
            == Recent::Any || recent == Recent::Yes),
    }
}

/// The file might be one to read, and its time is not known.
pub open spec fn is_unknown(met: Met) -> bool {
    match met {
        Met::Failed => false,
        Met::Seen { path, is_file, recent } => is_file && is_transcript(path@) && recent
            == Recent::Unknown,
    }
}

pub open spec fn failures_upto(met: Seq<Met>, n: int) -> nat
    decreases n,
{
    if n <= 0 {
        0
    } else {
        failures_upto(met, n - 1) + (if met[n - 1] is Failed {
            1nat
        } else {
            0
        })
    }
}

pub open spec fn unknown_upto(met: Seq<Met>, n: int) -> nat
    decreases n,
{
    if n <= 0 {
        0
    } else {
        unknown_upto(met, n - 1) + (if is_unknown(met[n - 1]) {
            1nat
        } else {
            0
        })
    }
}

/// The paths of the files that are read, as they were met.
pub open spec fn read_upto(met: Seq<Met>, n: int) -> Seq<String>
    decreases n,
{
    if n <= 0 {
        Seq::empty()
    } else if is_read(met[n - 1]) {
        read_upto(met, n - 1).push(met[n - 1]->path)
    } else {
        read_upto(met, n - 1)
    }
}

/// The files to read, in the order of their paths, and how much of the walk told nothing.
#[derive(Debug)]
pub struct Chosen {
    pub files: Vec<String>,
    pub walk_errors: usize,
    pub unreadable_files: usize,
}

/// What a walk leaves to read. The order in which a directory is listed is not stable, so the
/// files are put in order.
pub fn choose_files(met: Vec<Met>) -> (r: Chosen)
    ensures
        are_files_by_path(read_upto(met@, met@.len() as int), r.files@),
        r.walk_errors == failures_upto(met@, met@.len() as int),
        r.unreadable_files == unknown_upto(met@, met@.len() as int),
{
    let ghost all = met@;
    let mut rest = met;
    let count = rest.len();
    let mut files: Vec<String> = Vec::new();
    let mut walk_errors: usize = 0;
    let mut unreadable_files: usize = 0;
    let mut i: usize = 0;
    assert(rest@ =~= all.skip(0));
    while i < count
        invariant
            i <= count == all.len(),
            rest@ == all.skip(i as int),
            files@ == read_upto(all, i as int),
            walk_errors == failures_upto(all, i as int),
            unreadable_files == unknown_upto(all, i as int),
            walk_errors <= i,
            unreadable_files <= i,
        decreases count - i,
    {
        let met = rest.remove(0);
        assert(met == all[i as int]);
        match met {
            Met::Failed => {
                walk_errors = walk_errors + 1;
            },
            Met::Seen { path, is_file, recent } => {
                if is_file && has_transcript_name(path.as_str()) {
                    match recent {
                        Recent::Any | Recent::Yes => {
                            files.push(path);
                        },
                        Recent::No => {},
                        Recent::Unknown => {
                            unreadable_files = unreadable_files + 1;
                        },
                    }
                }
            },
        }
        i = i + 1;
        assert(rest@ =~= all.skip(i as int));
    }
    Chosen { files: files_by_path(files), walk_errors, unreadable_files }
}

/// What was left out, as a value.
pub ghost struct Skipped {
    pub walk_errors: nat,
    pub unreadable_files: nat,
    pub non_utf8_lines: nat,
    pub malformed_lines: nat,
}

/// Where a scan stands.
pub ghost struct Scan {
    pub sessions: nat,
    pub counted: Counted,
    pub skipped: Skipped,
}

pub open spec fn skipped_of(skips: StatsSkips) -> Skipped {
    Skipped {
        walk_errors: skips.walk_errors as nat,
        unreadable_files: skips.unreadable_files as nat,
        non_utf8_lines: skips.non_utf8_lines as nat,
        malformed_lines: skips.malformed_lines as nat,
    }
}

/// What a report says.
pub open spec fn scan_of(report: StatsReport) -> Scan {
    Scan {
        sessions: report.sessions as nat,
        counted: counted_of(report),
        skipped: skipped_of(report.skipped),
    }
}

/// All counts can be held.
pub open spec fn all_fits(scan: Scan) -> bool {
    &&& fits(scan.counted)
    &&& scan.sessions <= usize::MAX
    &&& scan.skipped.walk_errors <= usize::MAX
    &&& scan.skipped.unreadable_files <= usize::MAX
    &&& scan.skipped.non_utf8_lines <= usize::MAX
    &&& scan.skipped.malformed_lines <= usize::MAX
}

/// No count shrinks.
pub open spec fn all_grows(before: Scan, after: Scan) -> bool {
    &&& grows(before.counted, after.counted)
    &&& before.sessions <= after.sessions
    &&& before.skipped.walk_errors <= after.skipped.walk_errors
    &&& before.skipped.unreadable_files <= after.skipped.unreadable_files
    &&& before.skipped.non_utf8_lines <= after.skipped.non_utf8_lines
    &&& before.skipped.malformed_lines <= after.skipped.malformed_lines
}

proof fn lemma_all_grows_fits(a: Scan, b: Scan)
    requires
        all_grows(a, b),
        all_fits(b),
    ensures
        all_fits(a),
{
    lemma_grows_fits(a.counted, b.counted);
}

proof fn lemma_all_grows_trans(a: Scan, b: Scan, c: Scan)
    requires
        all_grows(a, b),
        all_grows(b, c),
    ensures
        all_grows(a, c),
{
    lemma_grows_trans(a.counted, b.counted, c.counted);
}

/// A session within a scan.
pub ghost struct Point {
    pub session: Session,
    pub scan: Scan,
}

/// The point after the session has moved on.
pub open spec fn moved(point: Point, session: Session) -> Point {
    Point { session, scan: Scan { counted: session.counted, ..point.scan } }
}

/// One line of a transcript. Bad lines are skipped: a transcript is foreign input.
pub open spec fn line_scanned(point: Point, bytes: Seq<u8>) -> Point {
    let skipped = point.scan.skipped;
    if !valid_utf8(bytes) {
        Point {
            scan: Scan {
                skipped: Skipped { non_utf8_lines: skipped.non_utf8_lines + 1, ..skipped },
                ..point.scan
            },
            ..point
        }
    } else {
        let line = decode_utf8(bytes);
        if trimmed(line).len() == 0 {
            point
        } else {
            match json_of(line) {
                Err(_) => Point {
                    scan: Scan {
                        skipped: Skipped {
                            malformed_lines: skipped.malformed_lines + 1,
                            ..skipped
                        },
                        ..point.scan
                    },
                    ..point
                },
                Ok(value) => moved(point, told(point.session, value)),
            }
        }
    }
}

/// The first `n` lines.
pub open spec fn lines_scanned(point: Point, lines: Seq<Vec<u8>>, n: int) -> Point
    decreases n,
{
    if n <= 0 {
        point
    } else {
        line_scanned(lines_scanned(point, lines, n - 1), lines[n - 1]@)
    }
}

/// A transcript that could be opened: its lines, each with its line end, up to where reading
/// failed if it did.
#[derive(Debug)]
pub struct Transcript {
    pub lines: Vec<Vec<u8>>,
    pub broken: bool,
}

/// The beginning of a session.
pub open spec fn begun(scan: Scan) -> Point {
    let scan = Scan { sessions: scan.sessions + 1, ..scan };
    Point {
        session: Session { pending: Map::empty(), expected: None, counted: scan.counted },
        scan,
    }
}

/// One more file that could not be read.
pub open spec fn one_unreadable(scan: Scan) -> Scan {
    Scan {
        skipped: Skipped {
            unreadable_files: scan.skipped.unreadable_files + 1,
            ..scan.skipped
        },
        ..scan
    }
}

/// A file, opened or not.
pub open spec fn file_scanned(scan: Scan, file: Option<Transcript>) -> Scan {
    match file {
        None => one_unreadable(scan),
        Some(file) => {
            let end = lines_scanned(begun(scan), file.lines@, file.lines@.len() as int).scan;
            if file.broken {
                one_unreadable(end)
            } else {
                end
            }
        },
    }
}

/// The first `n` files.
pub open spec fn files_scanned(scan: Scan, files: Seq<Option<Transcript>>, n: int) -> Scan
    decreases n,
{
    if n <= 0 {
        scan
    } else {
        file_scanned(files_scanned(scan, files, n - 1), files[n - 1])
    }
}

/// The report says where the point stands.
pub open spec fn stands_at(reading: Reading, report: StatsReport, point: Point) -> bool {
    &&& point.session == session_of(reading, report)
    &&& point.scan == scan_of(report)
}

proof fn lemma_line_grows(point: Point, bytes: Seq<u8>)
    requires
        point.session.counted == point.scan.counted,
    ensures
        all_grows(point.scan, line_scanned(point, bytes).scan),
        line_scanned(point, bytes).session.counted == line_scanned(point, bytes).scan.counted,
{
    if valid_utf8(bytes) {
        if let Ok(value) = json_of(decode_utf8(bytes)) {
            law_no_count_shrinks(point.session, value);
        }
    }
}

proof fn lemma_lines_grow(point: Point, lines: Seq<Vec<u8>>, m: int, n: int)
    requires
        0 <= m <= n,
        point.session.counted == point.scan.counted,
    ensures
        all_grows(lines_scanned(point, lines, m).scan, lines_scanned(point, lines, n).scan),
        lines_scanned(point, lines, n).session.counted == lines_scanned(
            point,
            lines,
            n,
        ).scan.counted,
    decreases n,
{
    if n > 0 {
        let before = lines_scanned(point, lines, n - 1);
        lemma_lines_grow(point, lines, if m < n { m } else { n - 1 }, n - 1);
        lemma_line_grows(before, lines[n - 1]@);
        if m < n {
            lemma_all_grows_trans(
                lines_scanned(point, lines, m).scan,
                before.scan,
                lines_scanned(point, lines, n).scan,
            );
        }
    }
}

proof fn lemma_file_grows(scan: Scan, file: Option<Transcript>)
    ensures
        all_grows(scan, file_scanned(scan, file)),
{
    if let Some(file) = file {
        let start = begun(scan);
        lemma_lines_grow(start, file.lines@, 0, file.lines@.len() as int);
    }
}

proof fn lemma_files_grow(scan: Scan, files: Seq<Option<Transcript>>, m: int, n: int)
    requires
        0 <= m <= n,
    ensures
        all_grows(files_scanned(scan, files, m), files_scanned(scan, files, n)),
    decreases n,
{
    if m < n {
        let before = files_scanned(scan, files, n - 1);
        lemma_files_grow(scan, files, m, n - 1);
        lemma_file_grows(before, files[n - 1]);
        lemma_all_grows_trans(
            files_scanned(scan, files, m),
            before,
            files_scanned(scan, files, n),
        );
    }
}

fn one_more(count: usize) -> (r: Option<usize>)
    ensures
        match r {
            Some(more) => more == count + 1,
            None => count == usize::MAX,
        },
{
    count.checked_add(1)
}

/// One line; `false` where a count would grow past what can be held.
pub fn scan_line(bytes: &Vec<u8>, reading: &mut Reading, report: &mut StatsReport) -> (held: bool)
    requires
        counts::are_listed(old(report).lets_calls@),
    ensures
        counts::are_listed(final(report).lets_calls@),
        ({
            let start = Point {
                session: session_of(*old(reading), *old(report)),
                scan: scan_of(*old(report)),
            };
            let end = line_scanned(start, bytes@);
            &&& held ==> stands_at(*final(reading), *final(report), end)
            &&& !held ==> !all_fits(end.scan)
        }),
{
    let ghost start = Point { session: session_of(*reading, *report), scan: scan_of(*report) };
    let ghost end = line_scanned(start, bytes@);
    let line = match utf8_text(bytes.as_slice()) {
        Some(line) => line,
        None => {
            match one_more(report.skipped.non_utf8_lines) {
                Some(more) => {
                    report.skipped.non_utf8_lines = more;
                    assert(scan_of(*report) == end.scan);
                    return true;
                },
                None => return false,
            }
        },
    };
    proof {
        encode_utf8_decode_utf8(line@);
        encode_utf8_valid_utf8(line@);
    }
    if text::trim(line.as_str()).unicode_len() == 0 {
        return true;
    }
    match read_json(line.as_str()) {
        Err(_) => match one_more(report.skipped.malformed_lines) {
            Some(more) => {
                report.skipped.malformed_lines = more;
                assert(scan_of(*report) == end.scan);
                true
            },
            None => false,
        },
        Ok(value) => take_value(&value, reading, report),
    }
}

/// One file, opened or not; `false` where a count would grow past what can be held.
pub fn scan_file(file: &Option<Transcript>, report: &mut StatsReport) -> (held: bool)
    requires
        counts::are_listed(old(report).lets_calls@),
    ensures
        counts::are_listed(final(report).lets_calls@),
        held ==> scan_of(*final(report)) == file_scanned(scan_of(*old(report)), *file),
        !held ==> !all_fits(file_scanned(scan_of(*old(report)), *file)),
{
    let ghost start = scan_of(*report);
    let ghost end = file_scanned(start, *file);
    let opened = match file {
        Some(opened) => opened,
        None => {
            match one_more(report.skipped.unreadable_files) {
                Some(more) => {
                    report.skipped.unreadable_files = more;
                    assert(scan_of(*report) == end);
                    return true;
                },
                None => return false,
            }
        },
    };
    let ghost first = begun(start);
    let ghost lines = opened.lines@;
    let ghost last = lines_scanned(first, lines, lines.len() as int);
    proof {
        lemma_lines_grow(first, lines, 0, lines.len() as int);
        if all_fits(end) {
            lemma_all_grows_fits(last.scan, end);
            lemma_all_grows_fits(first.scan, last.scan);
        }
    }
    match one_more(report.sessions) {
        Some(more) => {
            report.sessions = more;
        },
        None => return false,
    }
    let mut reading = Reading { pending: Uses::new(), expected: None };
    assert(stands_at(reading, *report, first));
    let mut i: usize = 0;
    while i < opened.lines.len()
        invariant
            i <= opened.lines@.len(),
            lines == opened.lines@,
            counts::are_listed(report.lets_calls@),
            first.session.counted == first.scan.counted,
            last == lines_scanned(first, lines, lines.len() as int),
            stands_at(reading, *report, lines_scanned(first, lines, i as int)),
            end == file_scanned(scan_of(*old(report)), *file),
            all_fits(end) ==> all_fits(last.scan),
        decreases opened.lines@.len() - i,
    {
        if !scan_line(&opened.lines[i], &mut reading, report) {
            proof {
                lemma_lines_grow(first, lines, i + 1, lines.len() as int);
                if all_fits(last.scan) {
                    lemma_all_grows_fits(lines_scanned(first, lines, i + 1).scan, last.scan);
                }
            }
            return false;
        }
        i = i + 1;
    }
    if opened.broken {
        match one_more(report.skipped.unreadable_files) {
            Some(more) => {
                report.skipped.unreadable_files = more;
            },
            None => return false,
        }
    }
    assert(scan_of(*report) == end);
    true
}

/// The beginning of a scan.
pub open spec fn scan_begun(walk_errors: nat, unreadable_files: nat) -> Scan {
    Scan {
        sessions: 0,
        counted: Counted {
            bash_calls: 0,
            lets_calls: Map::empty(),
            hook_blocks: 0,
            blocks_followed: 0,
            calls_saved: 0,
            read_calls: 0,
            read_bytes: 0,
        },
        skipped: Skipped { walk_errors, unreadable_files, non_utf8_lines: 0, malformed_lines: 0 },
    }
}

/// The whole scan: what the walk told, and each of its files. `None` where a count would grow past
/// what can be held.
pub fn scan_dir(walk: &Chosen, files: &Vec<Option<Transcript>>) -> (r: Option<StatsReport>)
    ensures
        ({
            let end = files_scanned(
                scan_begun(walk.walk_errors as nat, walk.unreadable_files as nat),
                files@,
                files@.len() as int,
            );
            match r {
                Some(report) => counts::are_listed(report.lets_calls@) && scan_of(report) == end,
                None => !all_fits(end),
            }
        }),
{
    let mut report = StatsReport {
        sessions: 0,
        bash_calls: 0,
        lets_calls: Vec::new(),
        hook_blocks: 0,
        blocks_followed: 0,
        calls_saved: 0,
        read_calls: 0,
        read_bytes: 0,
        skipped: StatsSkips {
            walk_errors: walk.walk_errors,
            unreadable_files: walk.unreadable_files,
            non_utf8_lines: 0,
            malformed_lines: 0,
        },
    };
    let ghost start = scan_begun(walk.walk_errors as nat, walk.unreadable_files as nat);
    proof {
        assert(counts::counts_of(report.lets_calls@) =~= Map::empty());
        assert(scan_of(report) == start);
    }
    let mut i: usize = 0;
    while i < files.len()
        invariant
            i <= files@.len(),
            start == scan_begun(walk.walk_errors as nat, walk.unreadable_files as nat),
            counts::are_listed(report.lets_calls@),
            scan_of(report) == files_scanned(start, files@, i as int),
        decreases files@.len() - i,
    {
        if !scan_file(&files[i], &mut report) {
            proof {
                let end = files_scanned(start, files@, files@.len() as int);
                lemma_files_grow(start, files@, i + 1, files@.len() as int);
                if all_fits(end) {
                    lemma_all_grows_fits(files_scanned(start, files@, i + 1), end);
                }
            }
            return None;
        }
        i = i + 1;
    }
    Some(report)
}

/// More cannot have been followed than was asked for.
pub open spec fn is_sound(session: Session) -> bool {
    session.counted.blocks_followed + (if session.expected is Some {
        1int
    } else {
        0
    }) <= session.counted.hook_blocks
}

proof fn lemma_called_sound(session: Session, items: Seq<crate::json::Json>, n: int)
    requires
        is_sound(session),
    ensures
        is_sound(crate::stats::called_upto(session, items, n)),
    decreases n,
{
    if n > 0 {
        lemma_called_sound(session, items, n - 1);
    }
}

proof fn lemma_answered_sound(session: Session, items: Seq<crate::json::Json>, n: int)
    requires
        is_sound(session),
    ensures
        is_sound(crate::stats::answered_upto(session, items, n)),
    decreases n,
{
    if n > 0 {
        lemma_answered_sound(session, items, n - 1);
    }
}

proof fn lemma_lines_sound(point: Point, lines: Seq<Vec<u8>>, n: int)
    requires
        is_sound(point.session),
        point.session.counted == point.scan.counted,
    ensures
        is_sound(lines_scanned(point, lines, n).session),
    decreases n,
{
    if n > 0 {
        lemma_lines_sound(point, lines, n - 1);
        let before = lines_scanned(point, lines, n - 1);
        if let Ok(value) = json_of(decode_utf8(lines[n - 1]@)) {
            let items = crate::stats::items_of(value);
            lemma_called_sound(before.session, items, items.len() as int);
            lemma_answered_sound(before.session, items, items.len() as int);
        }
    }
}

/// However the transcripts read, no more blocks are followed than there were.
pub proof fn law_no_more_blocks_are_followed_than_made(
    walk_errors: nat,
    unreadable_files: nat,
    files: Seq<Option<Transcript>>,
    n: int,
)
    ensures
        ({
            let end = files_scanned(scan_begun(walk_errors, unreadable_files), files, n);
            end.counted.blocks_followed <= end.counted.hook_blocks
        }),
    decreases n,
{
    if n > 0 {
        law_no_more_blocks_are_followed_than_made(walk_errors, unreadable_files, files, n - 1);
        let before = files_scanned(scan_begun(walk_errors, unreadable_files), files, n - 1);
        if let Some(file) = files[n - 1] {
            let start = begun(before);
            lemma_lines_sound(start, file.lines@, file.lines@.len() as int);
            lemma_lines_grow(start, file.lines@, 0, file.lines@.len() as int);
        }
    }
}

/// Every file is a session or was not readable: nothing is passed over in silence.
pub proof fn law_every_file_is_counted(
    walk_errors: nat,
    unreadable_files: nat,
    files: Seq<Option<Transcript>>,
    n: int,
)
    requires
        0 <= n <= files.len(),
    ensures
        ({
            let end = files_scanned(scan_begun(walk_errors, unreadable_files), files, n);
            &&& end.sessions + end.skipped.unreadable_files >= unreadable_files + n
            &&& end.skipped.walk_errors == walk_errors
            &&& end.sessions <= n
        }),
    decreases n,
{
    if n > 0 {
        law_every_file_is_counted(walk_errors, unreadable_files, files, n - 1);
        let before = files_scanned(scan_begun(walk_errors, unreadable_files), files, n - 1);
        if let Some(file) = files[n - 1] {
            lemma_lines_keep(begun(before), file.lines@, file.lines@.len() as int);
        }
    }
}

proof fn lemma_lines_keep(point: Point, lines: Seq<Vec<u8>>, n: int)
    ensures
        ({
            let end = lines_scanned(point, lines, n).scan;
            &&& end.sessions == point.scan.sessions
            &&& end.skipped.walk_errors == point.scan.skipped.walk_errors
            &&& end.skipped.unreadable_files == point.scan.skipped.unreadable_files
        }),
    decreases n,
{
    if n > 0 {
        lemma_lines_keep(point, lines, n - 1);
    }
}

/// Every transcript that a walk comes upon and that is recent enough is read, in the order it was
/// met, and what could not be told is counted.
pub proof fn law_every_recent_transcript_is_read(met: Seq<Met>, n: int)
    requires
        0 <= n <= met.len(),
    ensures
        read_upto(met, n) == met.take(n).filter(|one: Met| is_read(one)).map_values(
            |one: Met| one->path,
        ),
        failures_upto(met, n) == met.take(n).filter(|one: Met| one is Failed).len(),
        unknown_upto(met, n) == met.take(n).filter(|one: Met| is_unknown(one)).len(),
    decreases n,
{
    reveal(Seq::filter);
    if n > 0 {
        law_every_recent_transcript_is_read(met, n - 1);
        assert(met.take(n).drop_last() =~= met.take(n - 1));
        assert(met.take(n).last() == met[n - 1]);
        assert(read_upto(met, n) =~= met.take(n).filter(|one: Met| is_read(one)).map_values(
            |one: Met| one->path,
        ));
    } else {
        assert(met.take(0) =~= Seq::empty());
        assert(read_upto(met, 0) =~= met.take(0).filter(|one: Met| is_read(one)).map_values(
            |one: Met| one->path,
        ));
    }
}

/// Each line that is no text counts as such, each that is no value counts as such, and a blank line
/// counts as neither.
pub proof fn law_each_bad_line_is_counted(point: Point, lines: Seq<Vec<u8>>, n: int)
    requires
        0 <= n <= lines.len(),
    ensures
        ({
            let (was, now) = (point.scan.skipped, lines_scanned(point, lines, n).scan.skipped);
            &&& now.non_utf8_lines == was.non_utf8_lines + lines.take(n).filter(
                |line: Vec<u8>| !valid_utf8(line@),
            ).len()
            &&& now.malformed_lines == was.malformed_lines + lines.take(n).filter(
                |line: Vec<u8>|
                    valid_utf8(line@) && trimmed(decode_utf8(line@)).len() > 0 && json_of(
                        decode_utf8(line@),
                    ) is Err,
            ).len()
        }),
    decreases n,
{
    reveal(Seq::filter);
    if n > 0 {
        law_each_bad_line_is_counted(point, lines, n - 1);
        assert(lines.take(n).drop_last() =~= lines.take(n - 1));
        assert(lines.take(n).last() == lines[n - 1]);
    }
}

} // verus!
