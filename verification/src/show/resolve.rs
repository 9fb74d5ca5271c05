//! Which lines of a file a target names, and the block that shows them.
use vstd::prelude::*;

use crate::edit::scope::{
    missing, pattern_name, pattern_text, range_name, range_text, symbol_hint, symbol_text,
};
use crate::edit::spec::Kind;
use crate::error::{is_not_found, not_found, Candidate, Error};
use crate::output::{told_all, Line, Marker, Omission, Span, TargetBlock, Told};
use crate::pattern::escaped;
use crate::show::read::Text;
use crate::text;
use crate::text::{decimal, decimal_of, lines_of, texts};
use crate::window;
use crate::window::Bounds;

verus! {

/// The flags of a call.
#[derive(Debug)]
pub struct ShowArgs {
    pub targets: Vec<String>,
    pub all: bool,
    pub window: usize,
    pub before: Option<usize>,
    pub after: Option<usize>,
    pub context: Option<usize>,
    pub no_header: bool,
    pub outline: bool,
}

/// A definition that a target may mean, and what found it.
#[derive(Debug)]
pub struct SymbolFound {
    pub line: usize,
    pub end_line: usize,
    pub text: String,
    pub resolver: String,
}

/// A pattern as grep reads it, and the line that reading finds.
#[derive(Debug)]
pub struct GrepReading {
    pub read_as: String,
    pub line: Option<usize>,
}

/// What looking a target up in the file came to.
#[derive(Debug)]
pub enum Sought {
    Unasked,
    BadPattern,
    Line(usize),
    /// The pattern has not as many matches as were asked for; `matched` says that it has some.
    Missed { matched: bool, reading: Option<GrepReading> },
    /// `grammar` says that the file's language is known: else a miss is no proof of absence.
    Symbols { found: Vec<SymbolFound>, grammar: bool },
}

/// How many lines are shown before a line and after it.
pub open spec fn widths(args: ShowArgs) -> (nat, nat) {
    let both = match args.context {
        Some(both) => both as nat,
        None => 0,
    };
    (
        match args.before {
            Some(before) => before as nat,
            None => both,
        },
        match args.after {
            Some(after) => after as nat,
            None => both,
        },
    )
}

/// The lines of a file that a target names, or what it does not find there.
pub ghost enum Choice {
    Lines { start: int, end: int, window: Option<usize>, resolver: Option<Seq<char>> },
    Missing(Seq<char>),
    Many,
}

/// A line and those round it.
pub open spec fn line_choice(line: int, args: ShowArgs, total: int, what: Seq<char>) -> Choice {
    let (before, after) = widths(args);
    if 1 <= line <= total {
        Choice::Lines {
            start: if line - before >= 1 {
                line - before
            } else {
                1
            },
            end: if line + after <= total {
                line + after
            } else {
                total
            },
            window: None,
            resolver: None,
        }
    } else {
        Choice::Missing(what)
    }
}

/// The lines from `a` to `b`, cut at the end of the file.
pub open spec fn range_choice(
    a: int,
    b: int,
    total: int,
    resolver: Option<Seq<char>>,
    what: Seq<char>,
) -> Choice {
    let low = if a <= b {
        a
    } else {
        b
    };
    let high = if a <= b {
        b
    } else {
        a
    };
    if 1 <= low <= total {
        Choice::Lines {
            start: low,
            end: if high <= total {
                high
            } else {
                total
            },
            window: None,
            resolver,
        }
    } else {
        Choice::Missing(what)
    }
}

/// What a symbol that is not found is said to be missing as.
pub open spec fn missing_symbol(segments: Seq<String>, grammar: bool) -> Seq<char> {
    if grammar {
        symbol_text(segments)
    } else {
        symbol_text(segments) + " (try @'"@ + escaped(
            if segments.len() == 0 {
                ""@
            } else {
                segments.last()@
            },
        ) + "')"@
    }
}

/// The lines that a pattern names: a grep operator escape such as `\|` is a literal here, so a
/// miss is retried under the grep reading. Fewer matches than were asked for is not that habit: the
/// pattern did match.
pub open spec fn pattern_choice(
    pattern: Seq<char>,
    sought: Sought,
    args: ShowArgs,
    total: int,
) -> Choice {
    let what = pattern_text(pattern);
    match sought {
        Sought::BadPattern => Choice::Missing(what + " (invalid regex)"@),
        Sought::Line(line) => line_choice(line as int, args, total, what),
        Sought::Missed { matched, reading: Some(reading) } if !matched => match reading.line {
            Some(line) => line_choice(line as int, args, total, what),
            None => Choice::Missing(
                what + " (or grep-style "@ + pattern_text(reading.read_as@) + ")"@,
            ),
        },
        _ => Choice::Missing(what),
    }
}

/// What the footer says of a pattern.
pub open spec fn pattern_notes(pattern: Seq<char>, sought: Sought) -> Seq<Told> {
    match sought {
        Sought::Missed { matched, reading: Some(reading) } if !matched && reading.line is Some =>
            seq![Told::GrepStyle { pattern, read_as: reading.read_as@ }],
        _ => Seq::empty(),
    }
}

/// The lines that a target names.
pub open spec fn choice_of(kind: Kind, sought: Sought, args: ShowArgs, total: int) -> Choice {
    match kind {
        Kind::Whole => {
            let size = if args.all {
                total
            } else {
                args.window as int
            };
            if total == 0 || size == 0 {
                Choice::Missing("content"@)
            } else {
                Choice::Lines {
                    start: 1,
                    end: if total <= size {
                        total
                    } else {
                        size
                    },
                    window: if total <= size {
                        None
                    } else {
                        Some(args.window)
                    },
                    resolver: None,
                }
            }
        },
        Kind::Line(line) => line_choice(
            line as int,
            args,
            total,
            ":"@ + decimal_of(line as nat),
        ),
        Kind::Range(first, last) => range_choice(
            first as int,
            last as int,
            total,
            None,
            range_text(first as nat, last as nat),
        ),
        Kind::Regex { pattern, .. } => pattern_choice(pattern@, sought, args, total),
        Kind::Symbol(segments) => match sought {
            Sought::Symbols { found, grammar } => if found@.len() == 0 {
                Choice::Missing(missing_symbol(segments@, grammar))
            } else if found@.len() == 1 {
                range_choice(
                    found@[0].line as int,
                    found@[0].end_line as int,
                    total,
                    Some(found@[0].resolver@),
                    missing_symbol(segments@, grammar),
                )
            } else {
                Choice::Many
            },
            _ => Choice::Missing(symbol_text(segments@)),
        },
    }
}

/// What the footer says of a target: a window that leaves lines out, or a pattern that was read as
/// grep reads it. A window of no lines is a narrowing that is named too.
pub open spec fn notes_of(kind: Kind, sought: Sought, args: ShowArgs, total: int) -> Seq<Told> {
    match kind {
        Kind::Whole => if !args.all && total > args.window {
            seq![Told::Plain(Omission::Window { shown: (1, args.window), total: total as usize })]
        } else {
            Seq::empty()
        },
        Kind::Regex { pattern, .. } => pattern_notes(pattern@, sought),
        _ => Seq::empty(),
    }
}

/// How many of the first `n` characters are `c`.
pub open spec fn count_char(s: Seq<char>, c: char, n: int) -> nat
    decreases n,
{
    if n <= 0 {
        0
    } else {
        count_char(s, c, n - 1) + (if s[n - 1] == c {
            1nat
        } else {
            0nat
        })
    }
}

/// How many CRLF pairs end within the first `n` characters.
pub open spec fn count_crlf(s: Seq<char>, n: int) -> nat
    decreases n,
{
    if n <= 0 {
        0
    } else {
        count_crlf(s, n - 1) + (if n >= 2 && s[n - 1] == '\n' && s[n - 2] == '\r' {
            1nat
        } else {
            0nat
        })
    }
}

/// More lines end in CRLF than in a bare newline.
pub open spec fn is_mostly_crlf(s: Seq<char>) -> bool {
    count_crlf(s, s.len() as int) > count_char(s, '\n', s.len() as int) - count_crlf(
        s,
        s.len() as int,
    )
}

/// The lines themselves do not show how they end, so the header is the only place where it shows.
pub fn mostly_crlf(content: &str) -> (r: bool)
    requires
        content@.len() < usize::MAX,
    ensures
        r == is_mostly_crlf(content@),
{
    let chars = text::to_chars(content);
    let n = chars.len();
    let mut lf: usize = 0;
    let mut crlf: usize = 0;
    let mut i: usize = 0;
    while i < n
        invariant
            i <= n == chars@.len(),
            chars@ == content@,
            crlf <= lf <= i,
            lf == count_char(content@, '\n', i as int),
            crlf == count_crlf(content@, i as int),
        decreases n - i,
    {
        if chars[i] == '\n' {
            lf = lf + 1;
            if i > 0 && chars[i - 1] == '\r' {
                crlf = crlf + 1;
            }
        }
        i = i + 1;
    }
    crlf > lf - crlf
}

/// Those of the numbers that lie from `start` to `end`.
pub open spec fn numbers_in(numbers: Seq<usize>, start: int, end: int, n: int) -> Seq<usize>
    decreases n,
{
    if n <= 0 {
        Seq::empty()
    } else if start <= numbers[n - 1] <= end {
        numbers_in(numbers, start, end, n - 1).push(numbers[n - 1])
    } else {
        numbers_in(numbers, start, end, n - 1)
    }
}

pub fn keep_in(numbers: &Vec<usize>, start: usize, end: usize) -> (r: Vec<usize>)
    ensures
        r@ == numbers_in(numbers@, start as int, end as int, numbers@.len() as int),
{
    let mut out: Vec<usize> = Vec::new();
    let mut i: usize = 0;
    while i < numbers.len()
        invariant
            i <= numbers@.len(),
            out@ == numbers_in(numbers@, start as int, end as int, i as int),
        decreases numbers@.len() - i,
    {
        if start <= numbers[i] && numbers[i] <= end {
            out.push(numbers[i]);
        }
        i = i + 1;
    }
    out
}

/// `lines` are the lines `start..=end` of the text, numbered.
pub open spec fn are_lines_of(lines: Seq<Line>, content: Seq<char>, start: int, end: int) -> bool {
    &&& lines.len() == end + 1 - start
    &&& forall|i: int|
        0 <= i < lines.len() ==> {
            let line = #[trigger] lines[i];
            &&& line.number == start + i
            &&& line.marker == Marker::Plain
            &&& line.text@ == lines_of(content)[start + i - 1]
        }
}

fn lines_in(all: &Vec<String>, content: &str, bounds: &Bounds) -> (lines: Vec<Line>)
    requires
        texts(all@) == lines_of(content@),
        bounds.within(all@.len() as int),
    ensures
        are_lines_of(lines@, content@, bounds.start as int, bounds.end as int),
{
    let mut lines: Vec<Line> = Vec::new();
    let count = all.len();
    let mut at: usize = bounds.start - 1;
    while at < bounds.end
        invariant
            texts(all@) == lines_of(content@),
            bounds.within(all@.len() as int),
            count == all@.len(),
            bounds.start - 1 <= at <= bounds.end,
            lines@.len() == at - (bounds.start - 1),
            forall|i: int|
                0 <= i < lines@.len() ==> {
                    let line = #[trigger] lines@[i];
                    &&& line.number == bounds.start + i
                    &&& line.marker == Marker::Plain
                    &&& line.text@ == lines_of(content@)[bounds.start + i - 1]
                },
        decreases bounds.end - at,
    {
        assert(texts(all@)[at as int] == all@[at as int]@);
        lines.push(Line { number: at + 1, marker: Marker::Plain, text: all[at].clone() });
        at = at + 1;
    }
    lines
}

/// The block that shows these lines of the file.
pub open spec fn is_block(
    block: TargetBlock,
    raw: Seq<char>,
    path: Seq<char>,
    file: Text,
    start: int,
    end: int,
    window: Option<usize>,
    resolver: Option<Seq<char>>,
) -> bool {
    let content = file.content@;
    let total = lines_of(content).len() as int;
    &&& block.target@ == raw
    &&& block.path@ == path
    &&& block.span == Some(
        Span { start: start as usize, end: end as usize, total: total as usize },
    )
    &&& block.window == window
    &&& block.not_shown == (match window {
        Some(_) => Some(((end + 1) as usize, total as usize)),
        None => None,
    })
    &&& match block.resolver {
        Some(by) => resolver == Some(by@),
        None => resolver is None,
    }
    &&& block.crlf == is_mostly_crlf(content)
    &&& block.lossy_lines@ == numbers_in(
        file.lossy_lines@,
        start,
        end,
        file.lossy_lines@.len() as int,
    )
    &&& block.no_trailing_newline == (end == total && content.last() != '\n')
    &&& are_lines_of(block.lines@, content, start, end)
}

/// An empty file has no lines to span: it gets a bare header.
pub open spec fn is_bare_block(block: TargetBlock, raw: Seq<char>, path: Seq<char>) -> bool {
    &&& block.target@ == raw
    &&& block.path@ == path
    &&& block.span is None
    &&& block.window is None
    &&& block.not_shown is None
    &&& block.resolver is None
    &&& !block.crlf
    &&& block.lossy_lines@.len() == 0
    &&& !block.no_trailing_newline
    &&& block.lines@.len() == 0
}

/// The places a symbol could have meant.
pub open spec fn are_symbols_found(
    candidates: Seq<Candidate>,
    path: Seq<char>,
    found: Seq<SymbolFound>,
) -> bool {
    &&& candidates.len() == found.len()
    &&& forall|i: int|
        0 <= i < found.len() ==> (#[trigger] candidates[i]).path@ == path && candidates[i].line
            == found[i].line && candidates[i].text@ == found[i].text@
}

fn ambiguous(raw: &str, path: &str, found: &Vec<SymbolFound>) -> (r: Error)
    ensures
        r matches Error::Ambiguous { target, candidates } && target@ == raw@ && are_symbols_found(
            candidates@,
            path@,
            found@,
        ),
{
    let mut candidates: Vec<Candidate> = Vec::new();
    let mut i: usize = 0;
    while i < found.len()
        invariant
            i <= found@.len(),
            candidates@.len() == i,
            forall|k: int|
                0 <= k < i ==> (#[trigger] candidates@[k]).path@ == path@ && candidates@[k].line
                    == found@[k].line && candidates@[k].text@ == found@[k].text@,
        decreases found@.len() - i,
    {
        candidates.push(
            Candidate { path: path.to_owned(), line: found[i].line, text: found[i].text.clone() },
        );
        i = i + 1;
    }
    Error::Ambiguous { target: raw.to_owned(), candidates }
}

/// One target, resolved or not, and what the footer says of it.
#[derive(Debug)]
pub struct Resolved {
    pub result: Result<TargetBlock, Error>,
    pub notes: Vec<Omission>,
}

/// What resolving a target comes to.
pub open spec fn is_resolved(
    resolved: Resolved,
    raw: Seq<char>,
    path: Seq<char>,
    kind: Kind,
    file: Text,
    sought: Sought,
    args: ShowArgs,
) -> bool {
    let total = lines_of(file.content@).len() as int;
    if total == 0 && kind == Kind::Whole {
        &&& resolved.result matches Ok(block) && is_bare_block(block, raw, path)
        &&& resolved.notes@.len() == 0
    } else {
        &&& told_all(resolved.notes@) == notes_of(kind, sought, args, total)
        &&& match choice_of(kind, sought, args, total) {
            Choice::Lines { start, end, window, resolver } => resolved.result matches Ok(block)
                && is_block(block, raw, path, file, start, end, window, resolver),
            Choice::Missing(what) => resolved.result matches Err(e) && is_not_found(e, raw, what),
            Choice::Many => resolved.result matches Err(Error::Ambiguous { target, candidates })
                && target@ == raw && (sought matches Sought::Symbols { found, .. }
                && are_symbols_found(candidates@, path, found@)),
        }
    }
}

/// The lines that were picked, or why none were.
struct Pick {
    bounds: Bounds,
    window: Option<usize>,
    resolver: Option<String>,
}

/// `pick` is what was chosen.
spec fn is_picked(
    pick: Result<Pick, Error>,
    choice: Choice,
    raw: Seq<char>,
    path: Seq<char>,
    sought: Sought,
    total: int,
) -> bool {
    match choice {
        Choice::Lines { start, end, window, resolver } => pick matches Ok(p) && p.bounds.start
            == start && p.bounds.end == end && p.bounds.within(total) && p.window == window && (
        match p.resolver {
            Some(by) => resolver == Some(by@),
            None => resolver is None,
        }),
        Choice::Missing(what) => pick matches Err(e) && is_not_found(e, raw, what),
        Choice::Many => pick matches Err(Error::Ambiguous { target, candidates }) && target@ == raw
            && (sought matches Sought::Symbols { found, .. } && are_symbols_found(
            candidates@,
            path,
            found@,
        )),
    }
}

fn around(line: usize, args: &ShowArgs, total: usize, raw: &str, what: String) -> (r: Result<
    Pick,
    Error,
>)
    requires
        total + widths(*args).1 <= usize::MAX,
    ensures
        match line_choice(line as int, *args, total as int, what@) {
            Choice::Lines { start, end, .. } => r matches Ok(p) && p.bounds.start == start
                && p.bounds.end == end && p.bounds.within(total as int) && p.window is None
                && p.resolver is None,
            _ => r matches Err(e) && is_not_found(e, raw@, what@),
        },
{
    let both = match args.context {
        Some(both) => both,
        None => 0,
    };
    let before = match args.before {
        Some(before) => before,
        None => both,
    };
    let after = match args.after {
        Some(after) => after,
        None => both,
    };
    match window::context(line, before, after, total) {
        Some(bounds) => Ok(Pick { bounds, window: None, resolver: None }),
        None => Err(not_found(raw, what)),
    }
}

fn between(
    a: usize,
    b: usize,
    total: usize,
    resolver: Option<String>,
    raw: &str,
    what: String,
) -> (r: Result<Pick, Error>)
    ensures
        match range_choice(a as int, b as int, total as int, None, what@) {
            Choice::Lines { start, end, .. } => r matches Ok(p) && p.bounds.start == start
                && p.bounds.end == end && p.bounds.within(total as int) && p.window is None
                && p.resolver == resolver,
            _ => r matches Err(e) && is_not_found(e, raw@, what@),
        },
{
    match window::range(a, b, total) {
        Some(bounds) => Ok(Pick { bounds, window: None, resolver }),
        None => Err(not_found(raw, what)),
    }
}

fn by_pattern(
    raw: &str,
    pattern: &str,
    sought: &Sought,
    args: &ShowArgs,
    total: usize,
    notes: &mut Vec<Omission>,
) -> (r: Result<Pick, Error>)
    requires
        total + widths(*args).1 <= usize::MAX,
        told_all(old(notes)@) == Seq::<Told>::empty(),
    ensures
        is_picked(
            r,
            pattern_choice(pattern@, *sought, *args, total as int),
            raw@,
            Seq::empty(),
            *sought,
            total as int,
        ),
        told_all(final(notes)@) == pattern_notes(pattern@, *sought),
{
    let what = pattern_name(pattern);
    match sought {
        Sought::BadPattern => Err(not_found(raw, what.concat(" (invalid regex)"))),
        Sought::Line(line) => around(*line, args, total, raw, what),
        Sought::Missed { matched, reading } => {
            if *matched {
                return Err(not_found(raw, what));
            }
            let reading = match reading {
                Some(reading) => reading,
                None => return Err(not_found(raw, what)),
            };
            match reading.line {
                Some(line) => {
                    let note = Omission::GrepStyle {
                        pattern: pattern.to_owned(),
                        read_as: reading.read_as.clone(),
                    };
                    notes.push(note);
                    assert(told_all(notes@) =~= seq![note.told()]);
                    around(line, args, total, raw, what)
                },
                None => Err(
                    not_found(
                        raw,
                        what.concat(" (or grep-style ").concat(
                            pattern_name(reading.read_as.as_str()).as_str(),
                        ).concat(")"),
                    ),
                ),
            }
        },
        _ => Err(not_found(raw, what)),
    }
}

fn symbol_name(segments: &Vec<String>) -> (r: String)
    ensures
        r@ == symbol_text(segments@),
{
    "#".to_owned().concat(text::join(segments, ".").as_str())
}

/// A target that names one line is shown with the lines round it.
pub open spec fn takes_context(kind: Kind) -> bool {
    kind is Line || kind is Regex
}

/// A guess that misses does not prove the name absent, so the refusal offers a pattern to try.
fn by_symbol(raw: &str, path: &str, segments: &Vec<String>, sought: &Sought, total: usize) -> (r:
    Result<Pick, Error>)
    ensures
        match *sought {
            Sought::Symbols { found, grammar } => if found@.len() == 0 {
                r matches Err(e) && is_not_found(e, raw@, missing_symbol(segments@, grammar))
            } else if found@.len() == 1 {
                match range_choice(
                    found@[0].line as int,
                    found@[0].end_line as int,
                    total as int,
                    None,
                    missing_symbol(segments@, grammar),
                ) {
                    Choice::Lines { start, end, .. } => r matches Ok(p) && p.bounds.start == start
                        && p.bounds.end == end && p.bounds.within(total as int) && p.window is None
                        && (p.resolver matches Some(by) && by@ == found@[0].resolver@),
                    _ => r matches Err(e) && is_not_found(
                        e,
                        raw@,
                        missing_symbol(segments@, grammar),
                    ),
                }
            } else {
                r matches Err(Error::Ambiguous { target, candidates }) && target@ == raw@
                    && are_symbols_found(candidates@, path@, found@)
            },
            _ => r matches Err(e) && is_not_found(e, raw@, symbol_text(segments@)),
        },
{
    let symbol = symbol_name(segments);
    match sought {
        Sought::Symbols { found, grammar } => {
            let hint = if *grammar {
                None
            } else {
                Some(symbol_hint(segments))
            };
            let what = missing(symbol.as_str(), &hint);
            assert(what@ == missing_symbol(segments@, *grammar));
            if found.len() == 0 {
                Err(not_found(raw, what))
            } else if found.len() == 1 {
                between(
                    found[0].line,
                    found[0].end_line,
                    total,
                    Some(found[0].resolver.clone()),
                    raw,
                    what,
                )
            } else {
                Err(ambiguous(raw, path, found))
            }
        },
        _ => Err(not_found(raw, symbol)),
    }
}

fn pick(
    raw: &str,
    path: &str,
    kind: &Kind,
    sought: &Sought,
    args: &ShowArgs,
    total: usize,
    notes: &mut Vec<Omission>,
) -> (r: Result<Pick, Error>)
    requires
        takes_context(*kind) ==> total + widths(*args).1 <= usize::MAX,
        told_all(old(notes)@) == Seq::<Told>::empty(),
    ensures
        is_picked(
            r,
            choice_of(*kind, *sought, *args, total as int),
            raw@,
            path@,
            *sought,
            total as int,
        ),
        told_all(final(notes)@) == notes_of(*kind, *sought, *args, total as int),
{
    match kind {
        Kind::Whole => {
            let size = if args.all {
                total
            } else {
                args.window
            };
            let (bounds, omission) = window::window(total, size);
            let named = omission.is_some();
            if let Some(omission) = omission {
                notes.push(omission);
                assert(told_all(notes@) =~= seq![omission.told()]);
            }
            match bounds {
                Some(bounds) => Ok(
                    Pick {
                        bounds,
                        window: if named {
                            Some(size)
                        } else {
                            None
                        },
                        resolver: None,
                    },
                ),
                None => Err(not_found(raw, "content".to_owned())),
            }
        },
        Kind::Line(line) => around(
            *line,
            args,
            total,
            raw,
            ":".to_owned().concat(decimal(*line).as_str()),
        ),
        Kind::Range(first, last) => between(
            *first,
            *last,
            total,
            None,
            raw,
            range_name(*first, *last),
        ),
        Kind::Regex { pattern, occurrence: _ } => by_pattern(
            raw,
            pattern.as_str(),
            sought,
            args,
            total,
            notes,
        ),
        Kind::Symbol(segments) => by_symbol(raw, path, segments, sought, total),
    }
}

/// One target in a file whose text was read, with what looking it up there came to.
pub fn resolve(
    raw: &str,
    path: &str,
    kind: &Kind,
    file: &Text,
    sought: &Sought,
    args: &ShowArgs,
) -> (resolved: Resolved)
    requires
        file.content@.len() < usize::MAX,
        takes_context(*kind) ==> lines_of(file.content@).len() + widths(*args).1 <= usize::MAX,
    ensures
        is_resolved(resolved, raw@, path@, *kind, *file, *sought, *args),
{
    let all = text::lines(file.content.as_str());
    let total = all.len();
    assert(texts(all@).len() == total);
    let whole = match kind {
        Kind::Whole => true,
        _ => false,
    };
    if total == 0 && whole {
        return Resolved {
            result: Ok(
                TargetBlock {
                    target: raw.to_owned(),
                    path: path.to_owned(),
                    span: None,
                    window: None,
                    not_shown: None,
                    resolver: None,
                    crlf: false,
                    lossy_lines: Vec::new(),
                    no_trailing_newline: false,
                    lines: Vec::new(),
                },
            ),
            notes: Vec::new(),
        };
    }
    let mut notes: Vec<Omission> = Vec::new();
    assert(told_all(notes@) =~= Seq::empty());
    let picked = match pick(raw, path, kind, sought, args, total, &mut notes) {
        Ok(picked) => picked,
        Err(error) => return Resolved { result: Err(error), notes },
    };
    let bounds = picked.bounds;
    let content = file.content.as_str();
    proof {
        text::lemma_lines_of_content(content@);
    }
    let chars = content.unicode_len();
    let open_ended = chars > 0 && content.get_char(chars - 1) != '\n';
    let block = TargetBlock {
        target: raw.to_owned(),
        path: path.to_owned(),
        span: Some(Span { start: bounds.start, end: bounds.end, total }),
        window: picked.window,
        not_shown: match picked.window {
            Some(_) => Some((bounds.end + 1, total)),
            None => None,
        },
        resolver: picked.resolver,
        crlf: mostly_crlf(content),
        lossy_lines: keep_in(&file.lossy_lines, bounds.start, bounds.end),
        no_trailing_newline: bounds.end == total && open_ended,
        lines: lines_in(&all, content, &bounds),
    };
    Resolved { result: Ok(block), notes }
}

/// The block shows line `k` of the file.
pub open spec fn shows(block: TargetBlock, k: int) -> bool {
    exists|i: int| 0 <= i < block.lines@.len() && (#[trigger] block.lines@[i]).number == k
}

/// The block shows the lines from `low` to `high` that the file has, in order and as they stand
/// there, and says so in its span.
pub open spec fn shows_exactly(block: TargetBlock, content: Seq<char>, low: int, high: int) -> bool {
    let lines = lines_of(content);
    &&& forall|k: int| #[trigger] shows(block, k) <==> low <= k <= high && 1 <= k <= lines.len()
    &&& forall|i: int, j: int|
        0 <= i < j < block.lines@.len() ==> (#[trigger] block.lines@[i]).number < (
        #[trigger] block.lines@[j]).number
    &&& forall|i: int|
        0 <= i < block.lines@.len() ==> {
            let line = #[trigger] block.lines@[i];
            &&& line.text@ == lines[line.number - 1]
            &&& line.marker == Marker::Plain
        }
    &&& block.span matches Some(span) && span.total == lines.len() && shows(
        block,
        span.start as int,
    ) && shows(block, span.end as int) && forall|k: int| #[trigger]
        shows(block, k) ==> span.start <= k <= span.end
}

proof fn lemma_shows_exactly(
    block: TargetBlock,
    raw: Seq<char>,
    path: Seq<char>,
    file: Text,
    start: int,
    end: int,
    window: Option<usize>,
    resolver: Option<Seq<char>>,
    low: int,
    high: int,
)
    requires
        is_block(block, raw, path, file, start, end, window, resolver),
        file.content@.len() < usize::MAX,
        1 <= start <= end <= lines_of(file.content@).len(),
        start == (if low >= 1 {
            low
        } else {
            1
        }),
        end == (if high <= lines_of(file.content@).len() {
            high
        } else {
            lines_of(file.content@).len() as int
        }),
    ensures
        shows_exactly(block, file.content@, low, high),
{
    text::lemma_lines_of_content(file.content@);
    assert forall|k: int| low <= k <= high && 1 <= k <= lines_of(
        file.content@,
    ).len() implies #[trigger] shows(block, k) by {
        assert(block.lines@[k - start].number == k);
    }
    assert(block.lines@[0].number == start);
    assert(block.lines@[end - start].number == end);
}

/// A target that names one line, by its number or by a pattern that matches there, shows that line
/// with as many lines before it and after it as `-B` and `-A` ask for, or else `-C`, as far as the
/// file has them. It is found exactly where the file has the line.
pub proof fn law_a_line_is_shown_with_its_context(
    resolved: Resolved,
    raw: Seq<char>,
    path: Seq<char>,
    kind: Kind,
    file: Text,
    sought: Sought,
    args: ShowArgs,
    line: usize,
    before: int,
    after: int,
)
    requires
        is_resolved(resolved, raw, path, kind, file, sought, args),
        file.content@.len() < usize::MAX,
        kind == Kind::Line(line) || (kind is Regex && (sought == Sought::Line(line) || (
        sought matches Sought::Missed { matched: false, reading: Some(reading) } && reading.line
            == Some(line)))),
        args.before is Some ==> before == args.before->0,
        args.before is None && args.context is Some ==> before == args.context->0,
        args.before is None && args.context is None ==> before == 0,
        args.after is Some ==> after == args.after->0,
        args.after is None && args.context is Some ==> after == args.context->0,
        args.after is None && args.context is None ==> after == 0,
    ensures
        resolved.result is Ok <==> 1 <= line <= lines_of(file.content@).len(),
        resolved.result matches Ok(block) ==> {
            &&& shows_exactly(block, file.content@, line - before, line + after)
            &&& block.target@ == raw && block.path@ == path
            &&& block.window is None && block.not_shown is None && block.resolver is None
        },
        resolved.result matches Err(error) ==> error matches Error::NotFound { target, .. }
            && target@ == raw,
{
    if let Ok(block) = resolved.result {
        let choice = choice_of(kind, sought, args, lines_of(file.content@).len() as int);
        lemma_shows_exactly(
            block,
            raw,
            path,
            file,
            choice->start,
            choice->end,
            None,
            None,
            line - before,
            line + after,
        );
    }
}

/// A pattern that matches on a line shows what the target with that line's number shows.
pub proof fn law_a_pattern_shows_what_its_line_shows(
    by_pattern: Resolved,
    by_number: Resolved,
    raw: Seq<char>,
    path: Seq<char>,
    pattern: String,
    occurrence: usize,
    line: usize,
    file: Text,
    sought: Sought,
    args: ShowArgs,
)
    requires
        file.content@.len() < usize::MAX,
        is_resolved(
            by_pattern,
            raw,
            path,
            (Kind::Regex { pattern, occurrence }),
            file,
            Sought::Line(line),
            args,
        ),
        is_resolved(by_number, raw, path, Kind::Line(line), file, sought, args),
    ensures
        by_pattern.result is Ok <==> by_number.result is Ok,
        by_pattern.result is Ok ==> {
            let (one, other) = (by_pattern.result->Ok_0, by_number.result->Ok_0);
            &&& one.span == other.span
            &&& one.lines@.len() == other.lines@.len()
            &&& forall|i: int|
                0 <= i < one.lines@.len() ==> (#[trigger] one.lines@[i]).number
                    == other.lines@[i].number && one.lines@[i].text@ == other.lines@[i].text@
                    && one.lines@[i].marker == other.lines@[i].marker
        },
        told_all(by_pattern.notes@).len() == 0,
{
    if let Ok(one) = by_pattern.result {
        let other = by_number.result->Ok_0;
        assert forall|i: int| 0 <= i < one.lines@.len() implies (#[trigger] one.lines@[i]).number
            == other.lines@[i].number && one.lines@[i].text@ == other.lines@[i].text@
            && one.lines@[i].marker == other.lines@[i].marker by {
            assert(other.lines@[i].number == one.lines@[i].number);
        }
    }
}

/// A range shows its lines, whichever end is written first, and so does a symbol of which there is
/// one definition. Neither takes context, and either is found exactly where the file has its first
/// line.
pub proof fn law_a_range_shows_its_lines(
    resolved: Resolved,
    raw: Seq<char>,
    path: Seq<char>,
    kind: Kind,
    file: Text,
    sought: Sought,
    args: ShowArgs,
    low: usize,
    high: usize,
)
    requires
        is_resolved(resolved, raw, path, kind, file, sought, args),
        file.content@.len() < usize::MAX,
        low <= high,
        kind == Kind::Range(low, high) || kind == Kind::Range(high, low) || (kind is Symbol && (
        sought matches Sought::Symbols { found, .. } && found@.len() == 1 && found@[0].line == low
            && found@[0].end_line == high)),
    ensures
        resolved.result is Ok <==> 1 <= low <= lines_of(file.content@).len(),
        resolved.result matches Ok(block) ==> {
            &&& shows_exactly(block, file.content@, low as int, high as int)
            &&& block.target@ == raw && block.path@ == path
            &&& block.window is None && block.not_shown is None
            &&& match block.resolver {
                None => kind is Range,
                Some(by) => kind is Symbol && by@ == sought->found@[0].resolver@,
            }
        },
        resolved.result matches Err(error) ==> error matches Error::NotFound { target, .. }
            && target@ == raw,
        resolved.notes@.len() == 0,
{
    assert(told_all(resolved.notes@).len() == resolved.notes@.len());
    if let Ok(block) = resolved.result {
        let choice = choice_of(kind, sought, args, lines_of(file.content@).len() as int);
        lemma_shows_exactly(
            block,
            raw,
            path,
            file,
            choice->start,
            choice->end,
            None,
            choice->resolver,
            low as int,
            high as int,
        );
    }
}

/// A whole file is shown from its first line on: all of it where that is asked for or it has no
/// more lines than the window, else the window, and then what is left out is named.
pub proof fn law_a_file_is_shown_from_its_first_line(
    resolved: Resolved,
    raw: Seq<char>,
    path: Seq<char>,
    file: Text,
    sought: Sought,
    args: ShowArgs,
)
    requires
        is_resolved(resolved, raw, path, Kind::Whole, file, sought, args),
        file.content@.len() < usize::MAX,
        args.all || args.window > 0,
    ensures
        resolved.result is Ok,
        ({
            let block = resolved.result->Ok_0;
            let total = lines_of(file.content@).len();
            let cut = !args.all && total > args.window;
            &&& total > 0 ==> shows_exactly(
                block,
                file.content@,
                1,
                if cut {
                    args.window as int
                } else {
                    total as int
                },
            )
            &&& total == 0 ==> block.lines@.len() == 0 && block.span is None
            &&& block.target@ == raw && block.path@ == path && block.resolver is None
            &&& cut <==> block.not_shown is Some
            &&& block.not_shown matches Some((first, last)) ==> last == total && (forall|k: int|
                1 <= k <= total ==> (first <= k <==> !#[trigger] shows(block, k)))
            &&& cut <==> resolved.notes@.len() == 1
            &&& !cut <==> resolved.notes@.len() == 0
        }),
{
    assert(told_all(resolved.notes@).len() == resolved.notes@.len());
    let total = lines_of(file.content@).len() as int;
    if total > 0 {
        let block = resolved.result->Ok_0;
        text::lemma_lines_of_content(file.content@);
        let choice = choice_of(Kind::Whole, sought, args, total);
        lemma_shows_exactly(
            block,
            raw,
            path,
            file,
            1,
            choice->end,
            choice->window,
            None,
            1,
            choice->end,
        );
    }
}

/// A symbol with several definitions, or with none, is no target: the candidates are told, in the
/// order in which they were found.
pub proof fn law_a_symbol_has_to_be_one(
    resolved: Resolved,
    raw: Seq<char>,
    path: Seq<char>,
    segments: Vec<String>,
    file: Text,
    found: Vec<SymbolFound>,
    grammar: bool,
    args: ShowArgs,
)
    requires
        is_resolved(
            resolved,
            raw,
            path,
            Kind::Symbol(segments),
            file,
            (Sought::Symbols { found, grammar }),
            args,
        ),
        found@.len() != 1,
    ensures
        resolved.result is Err,
        found@.len() == 0 ==> resolved.result->Err_0 is NotFound,
        found@.len() > 1 ==> (resolved.result->Err_0 matches Error::Ambiguous {
            target,
            candidates,
        } && target@ == raw && candidates@.len() == found@.len() && forall|i: int|
            0 <= i < found@.len() ==> (#[trigger] candidates@[i]).line == found@[i].line
                && candidates@[i].path@ == path),
{
}

/// A file is said to end its lines in CRLF where more of them do than do not.
pub proof fn law_a_file_has_the_line_end_of_most_lines(s: Seq<char>)
    ensures
        ({
            let places = Seq::new(s.len(), |i: int| i);
            let ends = places.filter(|i: int| s[i] == '\n').len();
            let crlf = places.filter(|i: int| s[i] == '\n' && i > 0 && s[i - 1] == '\r').len();
            is_mostly_crlf(s) <==> 2 * crlf > ends
        }),
{
    lemma_line_ends_are(s, s.len() as int);
}

proof fn lemma_line_ends_are(s: Seq<char>, n: int)
    requires
        0 <= n <= s.len(),
    ensures
        count_char(s, '\n', n) == Seq::new(n as nat, |i: int| i).filter(
            |i: int| s[i] == '\n',
        ).len(),
        count_crlf(s, n) == Seq::new(n as nat, |i: int| i).filter(
            |i: int| s[i] == '\n' && i > 0 && s[i - 1] == '\r',
        ).len(),
    decreases n,
{
    reveal(Seq::filter);
    let places = Seq::new(n as nat, |i: int| i);
    if n > 0 {
        lemma_line_ends_are(s, n - 1);
        assert(places.drop_last() =~= Seq::new((n - 1) as nat, |i: int| i));
        assert(places.last() == n - 1);
    } else {
        assert(places =~= Seq::empty());
    }
}

/// A symbol that is not found is named as it was typed, and a pattern is offered only where no grammar
/// could have found it.
pub proof fn law_a_pattern_is_offered_where_there_is_no_grammar(segments: Seq<String>, grammar: bool)
    ensures
        symbol_text(segments).is_prefix_of(missing_symbol(segments, grammar)),
        grammar <==> missing_symbol(segments, grammar) == symbol_text(segments),
        !grammar && segments.len() > 0 ==> missing_symbol(segments, grammar) == symbol_text(segments)
            + " (try @'"@ + escaped(segments.last()@) + "')"@,
{
    reveal_strlit(" (try @'");
    let (named, said) = (symbol_text(segments), missing_symbol(segments, grammar));
    assert(said.subrange(0, named.len() as int) =~= named);
    if !grammar {
        assert(said.len() > named.len());
    }
}

} // verus!
