//! What a verb answers with, as plain data: the rendering of it is somebody else's.
use vstd::prelude::*;

use crate::error::Error;
use crate::text::texts;

verus! {

/// How a line of output stands to the file it comes from.
#[derive(Debug, Clone, Copy, PartialEq, Eq, Structural)]
pub enum Marker {
    Plain,
    Hit,
    Context,
    Gap,
    Replaced,
    Added,
    Deleted,
}

#[derive(Debug)]
pub struct Line {
    pub number: usize,
    pub marker: Marker,
    pub text: String,
}

/// The same line again.
pub fn copy_line(line: &Line) -> (r: Line)
    ensures
        r == *line,
{
    Line { number: line.number, marker: line.marker, text: line.text.clone() }
}

/// A line of output as a value.
pub ghost struct Row {
    pub number: nat,
    pub marker: Marker,
    pub text: Seq<char>,
}

impl Line {
    pub open spec fn is(self, row: Row) -> bool {
        self.number == row.number && self.marker == row.marker && self.text@ == row.text
    }
}

/// `lines` are these rows.
pub open spec fn lines_are(lines: Seq<Line>, rows: Seq<Row>) -> bool {
    &&& lines.len() == rows.len()
    &&& forall|i: int| 0 <= i < lines.len() ==> (#[trigger] lines[i]).is(rows[i])
}

/// The lines an edit echoes.
#[derive(Debug)]
pub struct Region {
    pub start: usize,
    pub end: usize,
    pub lines: Vec<Line>,
}

/// The lines `start..=end` of a file of `total` lines.
#[derive(Debug, Clone, Copy, PartialEq, Eq, Structural)]
pub struct Span {
    pub start: usize,
    pub end: usize,
    pub total: usize,
}

/// One target's share of the answer.
#[derive(Debug)]
pub struct TargetBlock {
    pub target: String,
    pub path: String,
    pub span: Option<Span>,
    pub window: Option<usize>,
    pub not_shown: Option<(usize, usize)>,
    pub resolver: Option<String>,
    pub crlf: bool,
    pub lossy_lines: Vec<usize>,
    pub no_trailing_newline: bool,
    pub lines: Vec<Line>,
}

/// What an answer leaves out, named so that a reader can ask for it.
#[derive(Debug)]
#[allow(inconsistent_fields)]
pub enum Omission {
    /// A whole file was asked for and only its first lines are shown.
    Window { shown: (usize, usize), total: usize },
    /// A token budget shortened a target.
    Budget {
        budget: usize,
        trimmed_target: String,
        not_shown: Option<(usize, usize)>,
    },
    /// An echoed region leaves out lines between those it shows.
    RegionGap { not_shown: Vec<(usize, usize)>, path: Option<String> },
    /// Lines over the display cap were cut.
    LongLinesCut { lines: usize },
    /// The answer was cut to its byte limit.
    OutputTrimmed { limit: usize, lines: usize },
    CheckSkipped { reason: String },
    CheckInconclusive { layer: String, reason: String },
    /// The needle matched the file's CRLF lines.
    CrlfMatched,
    /// The needle matched only once folded.
    Normalized,
    PartialBatch { written: Vec<String> },
    /// A target that could not be resolved, with the short name of why.
    Unresolved { target: String, error: String },
    /// The pattern matched nothing, and was read the way grep reads it.
    GrepStyle { pattern: String, read_as: String },
    /// There are more hits than the cap.
    HitCap { hits: usize, cap: usize },
    TopFiles { shown: usize },
    BusiestFile { shown: usize, hits: usize },
    /// Shown lines that did not decode.
    LossyLines { lines: usize },
    Expanded(ExpandedHits),
    Ignored { gitignore: usize, hidden: usize, other: usize, dirs: IgnoredDirs },
    Skipped { binary: usize, too_large: usize, unreadable: usize },
    Glob { patterns: Vec<String> },
    Unreadable { path: String },
    /// An outline was cut to its byte limit.
    OutlineTrimmed { limit: usize, definitions: usize },
    /// A selector, and the key it came to.
    SelectorResolved { selector: String, resolved: String },
}

/// The limit that an answer's context has to fit in.
#[derive(Debug, Clone, Copy, PartialEq, Eq, Structural)]
pub enum ByteLimit {
    Budget(usize),
    MaxBytes(usize),
}

/// How the hits of a small answer were given context.
#[derive(Debug, Clone, Copy, PartialEq, Eq, Structural)]
pub struct ExpandedHits {
    pub symbols: usize,
    pub windows: usize,
    pub around: usize,
    pub unparsed: usize,
    pub parse_max_kib: usize,
    pub unexpanded: usize,
    pub line_cap: usize,
    pub over_limit: usize,
    pub limit: ByteLimit,
}

/// Directories a filter rejected: some by name, and how many more.
#[derive(Debug)]
pub struct NamedDirs {
    pub named: Vec<String>,
    pub more: usize,
}

/// The rejected directories, by the filter that rejected them.
#[derive(Debug)]
pub struct IgnoredDirs {
    pub gitignore: NamedDirs,
    pub hidden: NamedDirs,
}

/// A file and how many hits it has.
#[derive(Debug)]
pub struct CountRow {
    pub count: usize,
    pub path: String,
}

/// An omission as a value.
#[allow(inconsistent_fields)]
pub ghost enum Told {
    Gap { not_shown: Seq<(usize, usize)>, path: Option<Seq<char>> },
    Skipped { reason: Seq<char> },
    Inconclusive { layer: Seq<char>, reason: Seq<char> },
    Partial { written: Seq<Seq<char>> },
    Unresolved { target: Seq<char>, error: Seq<char> },
    GrepStyle { pattern: Seq<char>, read_as: Seq<char> },
    Ignored {
        gitignore: usize,
        hidden: usize,
        other: usize,
        gitignored_dirs: (Seq<Seq<char>>, usize),
        hidden_dirs: (Seq<Seq<char>>, usize),
    },
    Glob { patterns: Seq<Seq<char>> },
    Unreadable { path: Seq<char> },
    Selector { selector: Seq<char>, resolved: Seq<char> },
    /// One that holds no text.
    Plain(Omission),
}

impl Omission {
    pub open spec fn told(self) -> Told {
        match self {
            Omission::RegionGap { not_shown, path } => Told::Gap {
                not_shown: not_shown@,
                path: match path {
                    Some(path) => Some(path@),
                    None => None,
                },
            },
            Omission::CheckSkipped { reason } => Told::Skipped { reason: reason@ },
            Omission::CheckInconclusive { layer, reason } => Told::Inconclusive {
                layer: layer@,
                reason: reason@,
            },
            Omission::PartialBatch { written } => Told::Partial { written: texts(written@) },
            Omission::Unresolved { target, error } => Told::Unresolved {
                target: target@,
                error: error@,
            },
            Omission::GrepStyle { pattern, read_as } => Told::GrepStyle {
                pattern: pattern@,
                read_as: read_as@,
            },
            Omission::Ignored { gitignore, hidden, other, dirs } => Told::Ignored {
                gitignore,
                hidden,
                other,
                gitignored_dirs: (texts(dirs.gitignore.named@), dirs.gitignore.more),
                hidden_dirs: (texts(dirs.hidden.named@), dirs.hidden.more),
            },
            Omission::Glob { patterns } => Told::Glob { patterns: texts(patterns@) },
            Omission::Unreadable { path } => Told::Unreadable { path: path@ },
            Omission::SelectorResolved { selector, resolved } => Told::Selector {
                selector: selector@,
                resolved: resolved@,
            },
            other => Told::Plain(other),
        }
    }
}

/// What a list of omissions tells.
pub open spec fn told_all(omitted: Seq<Omission>) -> Seq<Told> {
    omitted.map_values(|omission: Omission| omission.told())
}

pub proof fn lemma_told_push(omitted: Seq<Omission>, more: Omission)
    ensures
        told_all(omitted.push(more)) == told_all(omitted).push(more.told()),
{
    assert(told_all(omitted.push(more)) =~= told_all(omitted).push(more.told()));
}

/// Adds an omission.
pub fn tell(omitted: &mut Vec<Omission>, more: Omission)
    ensures
        final(omitted)@ == old(omitted)@.push(more),
        told_all(final(omitted)@) == told_all(old(omitted)@).push(more.told()),
{
    proof {
        lemma_told_push(omitted@, more);
    }
    omitted.push(more);
}

/// What an omission tells, where there is one.
pub open spec fn told_of(note: Option<Omission>) -> Seq<Told> {
    match note {
        Some(omission) => seq![omission.told()],
        None => Seq::empty(),
    }
}

/// Adds an omission, where there is one.
pub fn tell_some(omitted: &mut Vec<Omission>, note: Option<Omission>)
    ensures
        told_all(final(omitted)@) == told_all(old(omitted)@) + told_of(note),
{
    let ghost before = told_all(omitted@);
    if let Some(omission) = note {
        tell(omitted, omission);
    }
    assert(told_all(omitted@) =~= before + told_of(note));
}

/// Adds a list of omissions.
pub fn tell_all(omitted: &mut Vec<Omission>, more: Vec<Omission>)
    ensures
        told_all(final(omitted)@) == told_all(old(omitted)@) + told_all(more@),
{
    let ghost before = omitted@;
    let ghost added = more@;
    let mut more = more;
    omitted.append(&mut more);
    assert(told_all(omitted@) =~= told_all(before) + told_all(added));
}

/// What a check of an edit came to.
#[derive(Debug)]
pub struct CheckResult {
    pub layer: String,
    pub status: String,
    pub errors_before: usize,
    pub errors_after: usize,
}

#[derive(Debug)]
pub struct ShaPair {
    pub before: Sha12,
    pub after: Sha12,
}

/// One edit as it is answered.
#[derive(Debug)]
pub struct EditResult {
    pub path: String,
    pub lines: Vec<usize>,
    pub match_kind: String,
    pub resolver: Option<String>,
    pub region: Option<Region>,
    pub check: Option<CheckResult>,
    pub sha: ShaPair,
    pub reverted: bool,
    pub kind: EditKind,
}

/// How much an answer shows.
#[derive(Debug, Clone, Copy, PartialEq, Eq, Structural)]
pub struct Stats {
    pub lines: usize,
    pub bytes: usize,
}

/// What an answer is about.
#[derive(Debug)]
pub enum Body {
    Empty,
    Edit(Vec<EditResult>),
    Targets(Vec<TargetBlock>),
    Files(Vec<String>),
    Counts(Vec<CountRow>),
    Outline(Vec<OutlineBlock>),
    Transform(Vec<TransformResult>),
    Stats(StatsReport),
    Write(WriteResult),
    Update(UpdateCheck),
    /// A text as it stands, and the name of its field where the answer has fields.
    Raw { field: &'static str, text: String },
}

/// How an answer is printed.
#[derive(Debug, Clone, Copy, PartialEq, Eq, Structural)]
pub enum Format {
    Text,
    Json,
    Jsonl,
}

/// What became of a file that was to be written.
#[derive(Debug)]
pub enum WriteOutcome {
    Created,
    Overwritten { prior_lines: usize, prior_sha: String },
    Exists,
}

/// A file that was written, or that stood in the way.
#[derive(Debug)]
pub struct WriteResult {
    pub path: String,
    pub outcome: WriteOutcome,
    pub lines: usize,
    pub bytes: usize,
    pub sha: String,
    pub check: Option<CheckResult>,
}

/// The running version and the latest.
#[derive(Debug)]
pub struct UpdateCheck {
    pub update_available: bool,
    pub current: String,
    pub latest: String,
}

/// What a scan left out.
#[derive(Debug, Clone, Copy, PartialEq, Eq, Structural)]
pub struct StatsSkips {
    pub walk_errors: usize,
    pub unreadable_files: usize,
    pub non_utf8_lines: usize,
    pub malformed_lines: usize,
}

/// What a scan counted: numbers and the names of verbs, and nothing else.
#[derive(Debug)]
pub struct StatsReport {
    pub sessions: usize,
    pub bash_calls: usize,
    /// How often each verb was called, in the order of their names.
    pub lets_calls: Vec<(String, usize)>,
    pub hook_blocks: usize,
    pub blocks_followed: usize,
    pub calls_saved: usize,
    pub read_calls: usize,
    pub read_bytes: u64,
    pub skipped: StatsSkips,
}

/// The format of a structured file.
#[derive(Debug, Clone, Copy, PartialEq, Eq, Structural)]
pub enum TransformFormat {
    Json,
    Yaml,
    Toml,
    Frontmatter,
}

impl TransformFormat {
    pub open spec fn name_of(self) -> Seq<char> {
        match self {
            TransformFormat::Json => "json"@,
            TransformFormat::Yaml => "yaml"@,
            TransformFormat::Toml => "toml"@,
            TransformFormat::Frontmatter => "frontmatter"@,
        }
    }

    pub fn name(&self) -> (r: &'static str)
        ensures
            r@ == self.name_of(),
    {
        match self {
            TransformFormat::Json => "json",
            TransformFormat::Yaml => "yaml",
            TransformFormat::Toml => "toml",
            TransformFormat::Frontmatter => "frontmatter",
        }
    }
}

/// An operation that was carried out, with the key it came to.
#[derive(Debug)]
#[allow(inconsistent_fields)]
pub enum TransformOp {
    Assigned { key: String },
    Deleted { key: String },
    Appended { key: String },
}

impl TransformOp {
    pub open spec fn key_of(self) -> Seq<char> {
        match self {
            TransformOp::Assigned { key } => key@,
            TransformOp::Deleted { key } => key@,
            TransformOp::Appended { key } => key@,
        }
    }

    pub fn key(&self) -> (r: &str)
        ensures
            r@ == self.key_of(),
    {
        match self {
            TransformOp::Assigned { key } => key.as_str(),
            TransformOp::Deleted { key } => key.as_str(),
            TransformOp::Appended { key } => key.as_str(),
        }
    }
}

/// One file's operations as they are answered.
#[derive(Debug)]
pub struct TransformResult {
    pub path: String,
    pub format: TransformFormat,
    pub operations: Vec<TransformOp>,
    pub lines: Vec<usize>,
    pub region: Option<Region>,
    pub check: Option<CheckResult>,
    pub sha: ShaPair,
}

/// A definition in an outline: its lines, and the first of them.
#[derive(Debug)]
pub struct OutlineEntry {
    pub line: usize,
    pub end_line: usize,
    pub sig: String,
}

/// One file's outline; `omitted` says that some of its definitions are left out.
#[derive(Debug)]
pub struct OutlineBlock {
    pub target: String,
    pub path: String,
    pub entries: Vec<OutlineEntry>,
    pub omitted: bool,
}

/// What a verb answers with.
#[derive(Debug)]
pub struct Response {
    pub verb: String,
    pub omitted: Vec<Omission>,
    pub stats: Stats,
    pub summary: String,
    pub body: Body,
    pub no_header: bool,
    pub top_files: Vec<CountRow>,
    pub top_files_more: usize,
}

impl Response {
    /// There is nothing in the answer of `verb`.
    pub open spec fn is_empty_for(self, verb: Seq<char>) -> bool {
        &&& self.verb@ == verb
        &&& self.omitted@.len() == 0
        &&& self.stats == (Stats { lines: 0, bytes: 0 })
        &&& self.summary@ == ""@
        &&& self.body == Body::Empty
        &&& !self.no_header
        &&& self.top_files@.len() == 0
        &&& self.top_files_more == 0
    }

    pub fn empty(verb: &str) -> (r: Response)
        ensures
            r.is_empty_for(verb@),
    {
        Response {
            verb: verb.to_owned(),
            omitted: Vec::new(),
            stats: Stats { lines: 0, bytes: 0 },
            summary: "".to_owned(),
            body: Body::Empty,
            no_header: false,
            top_files: Vec::new(),
            top_files_more: 0,
        }
    }

    /// The answer of `verb` is one text, and nothing else.
    pub open spec fn is_raw(self, verb: Seq<char>, field: Seq<char>, text: Seq<char>) -> bool {
        &&& (Response { body: Body::Empty, ..self }).is_empty_for(verb)
        &&& self.body matches Body::Raw { field: f, text: t } && f@ == field && t@ == text
    }

    pub fn raw(verb: &str, field: &'static str, text: String) -> (r: Response)
        ensures
            r.is_raw(verb@, field@, text@),
    {
        let mut response = Response::empty(verb);
        response.body = Body::Raw { field, text };
        response
    }

    /// Whether there is anything to print.
    pub fn has_output(&self) -> (r: bool)
        ensures
            r == (self.body !is Empty || self.summary@.len() > 0),
    {
        match self.body {
            Body::Empty => !self.summary.as_str().is_empty(),
            _ => true,
        }
    }
}

/// An answer, a failure, or both.
#[derive(Debug)]
pub struct Outcome {
    pub response: Response,
    pub error: Option<Error>,
}

impl Outcome {
    pub fn ok(response: Response) -> (r: Outcome)
        ensures
            r.response == response,
            r.error is None,
    {
        Outcome { response, error: None }
    }

    /// The failure alone.
    pub open spec fn is_failed(self, verb: Seq<char>, error: Error) -> bool {
        self.response.is_empty_for(verb) && self.error == Some(error)
    }

    pub fn failed(verb: &str, error: Error) -> (r: Outcome)
        ensures
            r.is_failed(verb@, error),
    {
        Outcome { response: Response::empty(verb), error: Some(error) }
    }

    pub fn partial(response: Response, error: Error) -> (r: Outcome)
        ensures
            r.response == response,
            r.error == Some(error),
    {
        Outcome { response, error: Some(error) }
    }
}

/// The side of its anchor on which an insert lands.
#[derive(Debug, Clone, Copy, PartialEq, Eq, Structural)]
pub enum AnchorSide {
    After,
    Before,
}

/// What an insert was anchored to: `at` as the answer names it, and the line where a symbol put
/// it.
#[derive(Debug)]
pub struct Anchor {
    pub side: AnchorSide,
    pub at: String,
    pub line: Option<usize>,
}

#[derive(Debug)]
pub enum EditKind {
    Replaced { count: usize },
    Inserted { lines: usize, anchor: Anchor },
}

/// The first twelve hex digits of a file's hash.
#[derive(Debug)]
pub struct Sha12 {
    pub hex: String,
}

/// A hexadecimal digit.
pub open spec fn is_hex(c: char) -> bool {
    '0' <= c <= '9' || 'a' <= c <= 'f' || 'A' <= c <= 'F'
}

/// `raw` is twelve or more hexadecimal digits.
pub open spec fn is_sha(raw: Seq<char>) -> bool {
    raw.len() >= 12 && forall|i: int| 0 <= i < raw.len() ==> is_hex(#[trigger] raw[i])
}

impl Sha12 {
    /// Twelve or more hex digits, of which the first twelve count.
    pub fn parse(raw: &str) -> (r: Option<Sha12>)
        ensures
            match r {
                Some(sha) => is_sha(raw@) && sha.hex@ == raw@.take(12),
                None => !is_sha(raw@),
            },
    {
        let n = raw.unicode_len();
        if n < 12 {
            return None;
        }
        let mut i: usize = 0;
        while i < n
            invariant
                12 <= n == raw@.len(),
                i <= n,
                forall|j: int| 0 <= j < i ==> is_hex(#[trigger] raw@[j]),
            decreases n - i,
        {
            let c = raw.get_char(i);
            if !(('0' <= c && c <= '9') || ('a' <= c && c <= 'f') || ('A' <= c && c <= 'F')) {
                assert(!is_hex(raw@[i as int]));
                return None;
            }
            i = i + 1;
        }
        Some(Sha12 { hex: raw.substring_char(0, 12).to_owned() })
    }

    pub fn as_str(&self) -> (r: &str)
        ensures
            r@ == self.hex@,
    {
        self.hex.as_str()
    }
}

} // verus!
