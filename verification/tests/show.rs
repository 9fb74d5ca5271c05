use lets::edit::spec::Kind;
use lets::error::{Error, UnsupportedReason};
use lets::find::args::Global;
use lets::output::{Body, Omission, Outcome, OutlineBlock, Span, TargetBlock};
use lets::show::outline::{
    cap_sig, entry_bytes, no_grammar, outline_of, DefinitionSpan, OUTLINE_SIG_CAP,
};
use lets::show::read::{mistyped, read_lossy, read_text, Text};
use lets::show::resolve::{resolve, GrepReading, Resolved, ShowArgs, Sought, SymbolFound};
use lets::show::{outline, over_max_bytes, refuse_outline, run};
use lets::window;

fn numbered(lines: usize) -> String {
    (1..=lines).map(|n| format!("line {n}\n")).collect()
}

fn args(targets: &[&str]) -> ShowArgs {
    ShowArgs {
        targets: targets.iter().map(|t| (*t).to_owned()).collect(),
        window: 200,
        all: false,
        after: None,
        before: None,
        context: None,
        no_header: false,
        outline: false,
    }
}

fn global() -> Global {
    Global {
        json: false,
        jsonl: false,
        budget: None,
        max_bytes: 65536,
        max_file_bytes: 8_388_608,
        no_ignore: false,
        allow_outside: false,
        no_check: false,
        quiet: false,
    }
}

/// Files in memory, and the definitions that a name is known to have.
struct Files {
    files: Vec<(&'static str, Vec<u8>)>,
    symbols: Vec<(&'static str, usize, usize, &'static str)>,
    grammar: bool,
    /// Whether files outside the working tree may be read.
    allow_outside: bool,
}

fn files(list: &[(&'static str, &str)]) -> Files {
    Files {
        files: list.iter().map(|(name, text)| (*name, text.as_bytes().to_vec())).collect(),
        symbols: Vec::new(),
        grammar: true,
        allow_outside: false,
    }
}

fn kind_of(raw: &str) -> (String, Kind) {
    if let Some((path, rest)) = raw.split_once("@'") {
        let pattern = rest.strip_suffix('\'').expect("a quoted pattern").to_owned();
        return (path.to_owned(), Kind::Regex { pattern, occurrence: 1 });
    }
    if let Some((path, name)) = raw.split_once('#') {
        return (path.to_owned(), Kind::Symbol(name.split('.').map(str::to_owned).collect()));
    }
    if let Some((path, lines)) = raw.split_once(':') {
        if let Some((a, b)) = lines.split_once('-') {
            if let (Ok(a), Ok(b)) = (a.parse(), b.parse()) {
                return (path.to_owned(), Kind::Range(a, b));
            }
        } else if let Ok(line) = lines.parse() {
            return (path.to_owned(), Kind::Line(line));
        }
    }
    (raw.to_owned(), Kind::Whole)
}

impl Files {
    fn read(&self, path: &str, max_file_bytes: u64) -> Result<Text, Error> {
        if path.starts_with('/') && !self.allow_outside {
            return Err(Error::OutsideTree { path: path.to_owned() });
        }
        let Some((_, raw)) = self.files.iter().find(|(name, _)| *name == path) else {
            return Err(Error::Io {
                path: path.to_owned(),
                detail: "No such file or directory".to_owned(),
                missing: true,
            });
        };
        let unsupported = |reason| Error::Unsupported { path: path.to_owned(), reason };
        let bytes = raw.len() as u64;
        let read = if bytes > max_file_bytes {
            Err(unsupported(UnsupportedReason::TooLarge { bytes, limit: max_file_bytes }))
        } else {
            match String::from_utf8(raw.clone()) {
                Ok(content) => Ok(content),
                Err(_) => Err(unsupported(UnsupportedReason::NonUtf8Region)),
            }
        };
        read_text(path, read, Ok(raw.clone()), max_file_bytes)
    }

    fn sought(&self, kind: &Kind, content: &str) -> Sought {
        match kind {
            Kind::Regex { pattern, .. } => match regex::Regex::new(pattern) {
                Err(_) => Sought::BadPattern,
                Ok(regex) => match content.lines().position(|line| regex.is_match(line)) {
                    Some(at) => Sought::Line(at + 1),
                    None => Sought::Missed { matched: false, reading: None },
                },
            },
            Kind::Symbol(segments) => {
                let name = segments.join(".");
                let found = self
                    .symbols
                    .iter()
                    .filter(|(known, ..)| *known == name)
                    .map(|(_, line, end_line, resolver)| SymbolFound {
                        line: *line,
                        end_line: *end_line,
                        text: content.lines().nth(line - 1).unwrap_or("").to_owned(),
                        resolver: (*resolver).to_owned(),
                    })
                    .collect();
                Sought::Symbols { found, grammar: self.grammar }
            },
            _ => Sought::Unasked,
        }
    }

    fn resolved(&self, raw: &str, args: &ShowArgs, global: &Global) -> Resolved {
        let (path, kind) = kind_of(raw);
        match self.read(&path, global.max_file_bytes) {
            Ok(text) => {
                let sought = self.sought(&kind, &text.content);
                resolve(raw, &path, &kind, &text, &sought, args)
            },
            Err(error) => Resolved { result: Err(error), notes: Vec::new() },
        }
    }

    fn show(&self, args: &ShowArgs, global: &Global) -> Outcome {
        let resolved =
            args.targets.iter().map(|raw| self.resolved(raw, args, global)).collect();
        run(args, global, resolved)
    }
}

fn blocks(outcome: &Outcome) -> &[TargetBlock] {
    match &outcome.response.body {
        Body::Targets(blocks) => blocks,
        Body::Empty => &[],
        other => panic!("show renders targets, got {other:?}"),
    }
}

fn only(outcome: &Outcome) -> &TargetBlock {
    match blocks(outcome) {
        [one] => one,
        many => panic!("expected one block, got {}", many.len()),
    }
}

fn span(start: usize, end: usize, total: usize) -> Option<Span> {
    Some(Span { start, end, total })
}

fn not_found(outcome: &Outcome) -> &str {
    match &outcome.error {
        Some(Error::NotFound { what, .. }) => what,
        other => panic!("expected Error::NotFound, got {other:?}"),
    }
}

#[test]
fn every_target_failing_leaves_no_response_body_at_all() {
    let outcome = files(&[]).show(&args(&["gone.md", "also-gone.md"]), &global());

    assert!(!outcome.response.has_output(), "nothing resolved");
    let error = outcome.error.expect("a failure");
    assert!(
        matches!(&error, Error::Several { errors } if errors.len() == 2),
        "{error:?}"
    );
    let message = error.text();
    assert!(
        message.contains("gone.md:") && message.contains("also-gone.md:"),
        "stderr names both: {message}"
    );
}

#[test]
fn a_whole_file_inside_the_window_shows_every_line_and_names_no_narrowing() {
    let outcome =
        files(&[("small.md", &numbered(64))]).show(&args(&["small.md"]), &global());

    let block = only(&outcome);
    assert_eq!(block.span, span(1, 64, 64));
    assert_eq!(block.window, None);
    assert_eq!(block.not_shown, None);
    assert_eq!(block.lines.len(), 64);
    assert_eq!(block.lines[63].number, 64);
    assert!(outcome.response.omitted.is_empty());
    assert!(outcome.error.is_none(), "every target resolved");
    assert_eq!(outcome.response.summary, "showed 1 target \u{b7} 64 lines");
}

#[test]
fn a_whole_file_over_the_window_names_the_range_the_window_and_the_rest() {
    let outcome = files(&[("big.md", &numbered(243))]).show(&args(&["big.md"]), &global());

    let block = only(&outcome);
    assert_eq!(block.span, span(1, 200, 243));
    assert_eq!(block.window, Some(200));
    assert_eq!(block.not_shown, Some((201, 243)));
    assert_eq!(block.lines.len(), 200);
    assert!(matches!(
        outcome.response.omitted.as_slice(),
        [Omission::Window { shown: (1, 200), total: 243 }]
    ));
}

#[test]
fn all_drops_the_window_and_leaves_nothing_unshown() {
    let mut args = args(&["big.md"]);
    args.all = true;

    let outcome = files(&[("big.md", &numbered(243))]).show(&args, &global());

    let block = only(&outcome);
    assert_eq!(block.span, span(1, 243, 243));
    assert_eq!(block.window, None, "--all applies no window");
    assert_eq!(block.not_shown, None);
    assert_eq!(block.lines.len(), 243);
    assert!(outcome.response.omitted.is_empty());
    assert!(outcome.error.is_none());
}

const USAGE_TS: &str = "import { config } from './config'\n\
                        \n\
                        export function usage(id: string) {\n\
                        \x20 const cap = config.cap\n\
                        \x20 return cap\n\
                        }\n\
                        \n\
                        export function other() {}\n";

#[test]
fn a_symbol_that_resolves_once_shows_its_span_and_names_the_resolver() {
    let mut files = files(&[("usage.ts", USAGE_TS)]);
    files.symbols.push(("usage", 3, 6, "tree-sitter"));

    let outcome = files.show(&args(&["usage.ts#usage"]), &global());

    let block = only(&outcome);
    assert_eq!(block.span, span(3, 6, 8));
    assert_eq!(block.resolver.as_deref(), Some("tree-sitter"));
    assert_eq!(block.window, None);
    assert_eq!(
        block.not_shown, None,
        "a symbol names its own bounds; nothing narrowed them"
    );
    assert_eq!(block.lines.first().map(|line| line.number), Some(3));
    assert_eq!(block.lines.last().map(|line| line.number), Some(6));
}

#[test]
fn an_ambiguous_symbol_lists_every_candidate_and_renders_no_block() {
    let text = "package store\n\nfunc Open(path string) {}\n\ntype Store struct{}\n\nfunc (s *Store) Open() {}\n";
    let mut files = files(&[("store.go", text)]);
    files.symbols.push(("Open", 3, 3, "tree-sitter"));
    files.symbols.push(("Open", 7, 7, "tree-sitter"));

    let outcome = files.show(&args(&["store.go#Open"]), &global());

    assert!(blocks(&outcome).is_empty(), "an ambiguity shows no content");
    let Some(Error::Ambiguous { candidates, .. }) = &outcome.error else {
        panic!("expected Error::Ambiguous, got {:?}", outcome.error);
    };
    let listed: Vec<(usize, &str)> =
        candidates.iter().map(|c| (c.line, c.text.as_str())).collect();
    assert_eq!(listed, [(3, "func Open(path string) {}"), (7, "func (s *Store) Open() {}")]);
}

#[test]
fn a_plaintext_miss_is_not_found_and_hands_back_a_regex_target() {
    let mut files = files(&[("app.vue", "<template><div/></template>\n")]);
    files.grammar = false;

    let outcome = files.show(&args(&["app.vue#render"]), &global());

    assert!(blocks(&outcome).is_empty());
    assert_eq!(not_found(&outcome), "#render (try @'render')");
    assert_eq!(outcome.error.as_ref().map(|error| error.slug()), Some("not_found"));
}

#[test]
fn a_plaintext_qualifier_nothing_encloses_is_not_found_rather_than_the_top_level_name() {
    let mut files = files(&[("g.kt", "fun greet() {}\n")]);
    files.grammar = false;

    let outcome = files.show(&args(&["g.kt#Nope.greet"]), &global());

    assert!(blocks(&outcome).is_empty());
    assert_eq!(not_found(&outcome), "#Nope.greet (try @'greet')");
}

#[test]
fn a_grammar_miss_keeps_the_bare_symbol_with_no_regex_hint() {
    let outcome =
        files(&[("usage.ts", USAGE_TS)]).show(&args(&["usage.ts#render"]), &global());

    assert_eq!(not_found(&outcome), "#render");
}

#[test]
fn a_symbol_the_file_does_not_define_is_not_found() {
    let outcome =
        files(&[("usage.ts", USAGE_TS)]).show(&args(&["usage.ts#missing"]), &global());

    let Some(Error::NotFound { what, target, .. }) = &outcome.error else {
        panic!("expected Error::NotFound, got {:?}", outcome.error);
    };
    assert_eq!(what, "#missing");
    assert_eq!(target, "usage.ts#missing");
}

fn latin1() -> Vec<u8> {
    let mut bytes = Vec::new();
    for n in 1..=8 {
        bytes.extend_from_slice(format!("line {n}").as_bytes());
        if n == 3 || n == 7 {
            bytes.extend_from_slice(b" caf\xe9");
        }
        bytes.push(b'\n');
    }
    bytes
}

#[test]
fn a_non_utf8_file_renders_lossily_and_its_header_names_the_lines() {
    let mut files = files(&[]);
    files.files.push(("latin1.txt", latin1()));

    let outcome = files.show(&args(&["latin1.txt"]), &global());

    assert!(outcome.error.is_none(), "{:?}", outcome.error);
    let block = only(&outcome);
    assert_eq!(block.lines.len(), 8);
    assert_eq!(block.lines[2].text, "line 3 caf\u{fffd}");
    assert_eq!(block.lossy_lines, [3, 7]);
}

#[test]
fn only_the_lossy_lines_inside_the_shown_range_are_named() {
    let mut files = files(&[]);
    files.files.push(("latin1.txt", latin1()));

    let outcome = files.show(&args(&["latin1.txt:5-8", "latin1.txt:1-2"]), &global());

    let shown = blocks(&outcome);
    assert_eq!(shown[0].lossy_lines, [7]);
    assert!(shown[1].lossy_lines.is_empty());
}

#[test]
fn a_valid_utf8_file_names_no_lossy_lines() {
    let outcome = files(&[("cafe.txt", "line 1\nline 2 caf\u{e9}\n")])
        .show(&args(&["cafe.txt"]), &global());

    assert!(only(&outcome).lossy_lines.is_empty());
}

#[test]
fn a_non_utf8_file_with_a_nul_past_the_sniff_window_is_still_binary() {
    let mut raw = vec![b'a'; 9_000];
    raw.extend_from_slice(b"\xe9\x00\n");
    let mut files = files(&[]);
    files.files.push(("late.bin", raw));

    let outcome = files.show(&args(&["late.bin"]), &global());

    let Some(Error::Unsupported { reason, .. }) = &outcome.error else {
        panic!("expected Error::Unsupported, got {:?}", outcome.error);
    };
    assert!(matches!(reason, UnsupportedReason::Binary), "{reason:?}");
    assert_eq!(
        outcome.error.as_ref().map(|error| error.text()).as_deref(),
        Some("late.bin is unsupported: binary file")
    );
}

#[test]
fn a_utf16_bom_is_binary_not_lossy_text() {
    let refused = read_lossy("wide.txt", b"\xff\xfeh\xe9llo\n".to_vec(), 100);
    assert!(matches!(
        refused,
        Err(Error::Unsupported { reason: UnsupportedReason::Binary, .. })
    ));
    let refused = read_lossy("long.txt", b"\xe9\xe9".to_vec(), 1);
    assert!(matches!(
        refused,
        Err(Error::Unsupported { reason: UnsupportedReason::TooLarge { bytes: 2, limit: 1 }, .. })
    ));
}

#[test]
fn every_missing_target_is_named_in_the_footer_json_and_stderr() {
    let outcome = files(&[("good.ts", "a\nb\nc\n")])
        .show(&args(&["nope1.ts", "good.ts", "nope2.ts"]), &global());

    assert_eq!(blocks(&outcome).len(), 1);
    assert_eq!(outcome.response.summary, "showed 1 target \u{b7} 3 lines");
    let named: Vec<(&str, &str)> = outcome
        .response
        .omitted
        .iter()
        .filter_map(|omission| match omission {
            Omission::Unresolved { target, error } => Some((target.as_str(), error.as_str())),
            _ => None,
        })
        .collect();
    assert_eq!(named, [("nope1.ts", "not_found"), ("nope2.ts", "not_found")]);
    let error = outcome.error.expect("exit 1");
    assert_eq!(error.slug(), "not_found");
    let stderr = error.text();
    assert!(
        stderr.contains("nope1.ts") && stderr.contains("nope2.ts"),
        "{stderr}"
    );
}

#[test]
fn with_every_target_resolved_nothing_is_named_as_failed() {
    let outcome = files(&[("nope1.ts", "a\n"), ("good.ts", "a\n"), ("nope2.ts", "a\n")])
        .show(&args(&["nope1.ts", "good.ts", "nope2.ts"]), &global());

    assert!(outcome.error.is_none(), "{:?}", outcome.error);
    assert!(outcome.response.omitted.is_empty());
}

#[test]
fn a_budget_trim_under_a_window_names_the_range_the_budget_cut() {
    let mut global = global();
    global.budget = Some(100);

    let outcome = files(&[("big.txt", &numbered(450))]).show(&args(&["big.txt"]), &global);

    let last = blocks(&outcome)[0]
        .lines
        .last()
        .expect("a trimmed target keeps a line")
        .number;
    assert!(last < 200, "the budget cut inside the window: {last}");
    let [Omission::Window { shown: (1, 200), total: 450 }, Omission::Budget {
        budget: 100,
        trimmed_target,
        not_shown,
    }] = outcome.response.omitted.as_slice()
    else {
        panic!("{:?}", outcome.response.omitted);
    };
    assert_eq!(trimmed_target, "big.txt");
    assert_eq!(*not_shown, Some((last + 1, 200)));
}

#[test]
fn a_failing_second_target_still_leaves_the_first_one_shown() {
    let outcome =
        files(&[("a.md", &numbered(3))]).show(&args(&["a.md", "missing.md"]), &global());

    let shown = blocks(&outcome);
    assert_eq!(shown.len(), 1);
    assert_eq!(shown[0].target, "a.md");
    assert_eq!(shown[0].lines.len(), 3);
    assert!(
        matches!(outcome.error, Some(Error::Io { .. })),
        "{:?}",
        outcome.error
    );
    assert_eq!(outcome.response.summary, "showed 1 target \u{b7} 3 lines");
}

#[test]
fn a_path_outside_the_working_tree_is_refused_and_shows_nothing() {
    let outcome =
        files(&[("/elsewhere.md", "secret\n")]).show(&args(&["/elsewhere.md"]), &global());

    assert!(blocks(&outcome).is_empty());
    assert!(
        matches!(outcome.error, Some(Error::OutsideTree { .. })),
        "{:?}",
        outcome.error
    );
}

#[test]
fn allow_outside_reads_the_same_path() {
    let mut files = files(&[("/elsewhere.md", "secret\n")]);
    files.allow_outside = true;

    let outcome = files.show(&args(&["/elsewhere.md"]), &global());

    assert!(outcome.error.is_none(), "{:?}", outcome.error);
    assert_eq!(only(&outcome).lines.len(), 1);
}

#[test]
fn every_failing_target_is_the_call_s_error_in_argument_order() {
    let files = files(&[("a.md", &numbered(3)), ("/elsewhere.md", "secret\n")]);

    let outcome = files.show(&args(&["a.md", "a.md:900", "/elsewhere.md"]), &global());

    assert_eq!(blocks(&outcome).len(), 1);
    match &outcome.error {
        Some(Error::Several { errors }) => assert!(
            matches!(errors.as_slice(), [
                Error::NotFound { .. },
                Error::OutsideTree { .. }
            ]),
            "the line target precedes the escaped path: {errors:?}"
        ),
        other => panic!("expected both failures, got {other:?}"),
    }
    let error = outcome.error.as_ref().expect("a failure");
    assert_eq!(error.slug(), "not_found", "the first failure sets the slug");
}

#[test]
fn a_line_target_widens_only_with_its_own_context_flags() {
    let files = files(&[("a.md", &numbered(20))]);
    let mut wide = args(&["a.md:10"]);
    wide.context = Some(2);

    assert_eq!(only(&files.show(&wide, &global())).span, span(8, 12, 20));

    let bare = files.show(&args(&["a.md:10"]), &global());
    assert_eq!(only(&bare).span, span(10, 10, 20));
}

#[test]
fn before_and_after_override_the_symmetric_context_flag() {
    let mut args = args(&["a.md:10"]);
    args.context = Some(5);
    args.before = Some(1);
    args.after = Some(2);

    let outcome = files(&[("a.md", &numbered(20))]).show(&args, &global());

    assert_eq!(only(&outcome).span, span(9, 12, 20));
}

#[test]
fn context_flags_do_not_widen_a_range_or_a_whole_file() {
    let mut args = args(&["a.md:5-6", "a.md"]);
    args.context = Some(4);

    let outcome = files(&[("a.md", &numbered(20))]).show(&args, &global());

    let shown = blocks(&outcome);
    assert_eq!(shown[0].span, span(5, 6, 20));
    assert_eq!(shown[1].span, span(1, 20, 20));
}

#[test]
fn a_range_past_the_last_line_is_not_found_rather_than_an_empty_block() {
    let outcome = files(&[("a.md", &numbered(20))]).show(&args(&["a.md:30-40"]), &global());

    assert!(blocks(&outcome).is_empty());
    assert_eq!(not_found(&outcome), ":30-40");
}

#[test]
fn a_range_overlapping_the_end_clamps_to_the_last_line() {
    let outcome = files(&[("a.md", &numbered(20))]).show(&args(&["a.md:18-40"]), &global());

    assert_eq!(only(&outcome).span, span(18, 20, 20));
}

#[test]
fn an_empty_file_resolves_to_a_block_with_no_lines() {
    let outcome = files(&[("empty.md", "")]).show(&args(&["empty.md"]), &global());

    assert!(outcome.error.is_none(), "{:?}", outcome.error);
    let block = only(&outcome);
    assert_eq!(block.span, None);
    assert!(block.lines.is_empty());
    assert!(outcome.response.omitted.is_empty());
    assert_eq!(outcome.response.summary, "showed 1 target \u{b7} 0 lines");
}

#[test]
fn a_file_holding_one_blank_line_resolves_through_the_ordinary_window() {
    let outcome = files(&[("blank.md", "\n")]).show(&args(&["blank.md"]), &global());

    let block = only(&outcome);
    assert_eq!(block.span, span(1, 1, 1));
    assert_eq!(block.lines.len(), 1);
    assert_eq!(block.lines[0].text, "");
}

#[test]
fn a_line_target_in_an_empty_file_is_still_not_found() {
    let outcome = files(&[("empty.md", "")]).show(&args(&["empty.md:1"]), &global());

    assert_eq!(not_found(&outcome), ":1");
}

#[test]
fn a_regex_target_centres_on_its_match_and_names_the_pattern_when_it_misses() {
    let files = files(&[(
        "compose.ts",
        "import x from 'y'\n\nexport async function compose(req: Request) {\n  return x\n}\n",
    )]);
    let mut wide = args(&["compose.ts@'export async function compose'"]);
    wide.after = Some(2);

    let outcome = files.show(&wide, &global());

    assert_eq!(only(&outcome).span, span(3, 5, 5));

    let missed = files.show(&args(&["compose.ts@'no such line'"]), &global());
    assert_eq!(not_found(&missed), "@'no such line'");
}

#[test]
fn an_uncompilable_pattern_says_so_instead_of_reading_as_absent() {
    let outcome =
        files(&[("a.md", &numbered(3))]).show(&args(&["a.md@'(unclosed'"]), &global());

    assert_eq!(not_found(&outcome), "@'(unclosed' (invalid regex)");
}

#[test]
fn a_pattern_that_only_grep_would_match_is_shown_and_named() {
    let text = Text { content: "a\nb\nc\n".to_owned(), lossy_lines: Vec::new() };
    let kind = Kind::Regex { pattern: r"b\|x".to_owned(), occurrence: 1 };
    let reading = |line| GrepReading { read_as: "b|x".to_owned(), line };
    let args = args(&[r"a.md@'b\|x'"]);

    let sought = Sought::Missed { matched: false, reading: Some(reading(Some(2))) };
    let found = resolve(r"a.md@'b\|x'", "a.md", &kind, &text, &sought, &args);
    assert_eq!(found.result.expect("grep finds it").span, span(2, 2, 3));
    assert!(matches!(
        found.notes.as_slice(),
        [Omission::GrepStyle { pattern, read_as }] if pattern == r"b\|x" && read_as == "b|x"
    ));

    let sought = Sought::Missed { matched: false, reading: Some(reading(None)) };
    let missed = resolve(r"a.md@'b\|x'", "a.md", &kind, &text, &sought, &args);
    assert!(matches!(
        missed.result,
        Err(Error::NotFound { what, .. }) if what == r"@'b\|x' (or grep-style @'b|x')"
    ));
}

#[test]
fn a_budget_trims_the_largest_target_first_and_names_it_with_the_budget() {
    // A 20-token budget is 80 bytes: room for the 4-line target, not the 40-line one.
    let files = files(&[("big.md", &numbered(40)), ("small.md", &numbered(4))]);
    let mut global = global();
    global.budget = Some(20);

    let outcome = files.show(&args(&["small.md", "big.md"]), &global);

    let shown = blocks(&outcome);
    assert_eq!(shown[0].target, "small.md");
    assert_eq!(shown[0].lines.len(), 4, "the smaller target is untouched");
    assert_eq!(shown[0].not_shown, None);
    assert!(
        shown[1].lines.len() < 40,
        "the larger target is the one trimmed"
    );
    let last = shown[1]
        .lines
        .last()
        .expect("a trimmed target keeps at least one line")
        .number;
    assert_eq!(shown[1].span.map(|span| span.end), Some(last));
    assert_eq!(shown[1].not_shown, Some((last + 1, 40)));
    assert!(
        matches!(
            outcome.response.omitted.as_slice(),
            [Omission::Budget { budget: 20, trimmed_target, not_shown: Some(cut) }]
                if trimmed_target == "big.md" && *cut == (last + 1, 40)
        ),
        "{:?}",
        outcome.response.omitted
    );
    assert_eq!(
        outcome.response.stats.bytes,
        window::content_bytes(&shown[0].lines) + window::content_bytes(&shown[1].lines),
        "the cost line counts what survived the trim"
    );
    assert!(outcome.error.is_none(), "a trim is not a failure");
}

#[test]
fn a_budget_the_answer_already_fits_trims_nothing() {
    let files = files(&[("big.md", &numbered(40)), ("small.md", &numbered(4))]);
    let mut global = global();
    global.budget = Some(5000);

    let outcome = files.show(&args(&["small.md", "big.md"]), &global);

    assert_eq!(blocks(&outcome)[1].lines.len(), 40);
    assert!(outcome.response.omitted.is_empty());
}

#[test]
fn content_over_max_bytes_with_no_budget_is_refused_whole() {
    let mut global = global();
    global.max_bytes = 100;

    let outcome = files(&[("a.md", &numbered(40))]).show(&args(&["a.md"]), &global);

    assert!(
        !outcome.response.has_output(),
        "an over-budget answer lands nowhere"
    );
    let Some(Error::OverBudget { limit, .. }) = &outcome.error else {
        panic!("expected Error::OverBudget, got {:?}", outcome.error);
    };
    assert_eq!(*limit, 100);
    assert!(over_max_bytes(&global, 100).is_none());
    assert!(over_max_bytes(&global, 101).is_some());
}

#[test]
fn a_budget_takes_max_bytes_out_of_the_decision() {
    let mut global = global();
    global.max_bytes = 100;
    global.budget = Some(20);

    let outcome = files(&[("a.md", &numbered(40))]).show(&args(&["a.md"]), &global);

    assert!(outcome.error.is_none(), "{:?}", outcome.error);
    assert!(!blocks(&outcome).is_empty());
}

#[test]
fn a_file_over_max_file_bytes_is_unsupported() {
    let mut global = global();
    global.max_file_bytes = 10;

    let outcome = files(&[("a.md", &numbered(40))]).show(&args(&["a.md"]), &global);

    assert!(
        matches!(outcome.error, Some(Error::Unsupported { .. })),
        "{:?}",
        outcome.error
    );
}

#[test]
fn three_targets_pluralise_the_summary_and_sum_their_lines() {
    let files = files(&[("a.md", &numbered(3)), ("b.md", &numbered(4))]);

    let outcome = files.show(&args(&["a.md", "b.md", "a.md:1-2"]), &global());

    assert_eq!(outcome.response.summary, "showed 3 targets \u{b7} 9 lines");
    assert_eq!(outcome.response.stats.lines, 9);
}

#[test]
fn a_window_that_narrows_a_target_to_nothing_is_still_named_in_the_footer() {
    let mut args = args(&["a.md:1", "a.md"]);
    args.window = 0;

    let outcome = files(&[("a.md", &numbered(20))]).show(&args, &global());

    assert_eq!(blocks(&outcome).len(), 1, "the line target still resolves");
    assert!(
        matches!(outcome.response.omitted.as_slice(), [
            Omission::Window { total: 20, .. },
            Omission::Unresolved { target, error },
        ] if target == "a.md" && error == "not_found"),
        "a narrowing the footer does not name did not happen: {:?}",
        outcome.response.omitted
    );
    assert!(matches!(outcome.error, Some(Error::NotFound { .. })));
}

#[test]
fn a_symbol_ending_past_the_last_line_is_clamped_to_the_file() {
    let mut files =
        files(&[("config.toml", "[server]\nport = 8080\n\n[client]\nretries = 3\n")]);
    files.symbols.push(("client", 4, 6, "tree-sitter"));

    let outcome = files.show(&args(&["config.toml#client"]), &global());

    assert!(outcome.error.is_none(), "{:?}", outcome.error);
    let block = only(&outcome);
    assert_eq!(block.span, span(4, 5, 5));
    assert_eq!(block.lines.len(), 2);
    assert_eq!(block.lines.last().map(|line| line.number), Some(5));
}

#[test]
fn two_targets_that_both_overflow_the_budget_are_each_named_once() {
    // A 20-token budget is 80 bytes, so trimming one 40-line target still leaves the pair over.
    let files = files(&[("a.md", &numbered(40)), ("b.md", &numbered(40))]);
    let mut global = global();
    global.budget = Some(20);

    let outcome = files.show(&args(&["a.md", "b.md"]), &global);

    let shown = blocks(&outcome);
    assert!(
        shown[0].lines.len() < 40 && shown[1].lines.len() < 40,
        "{shown:?}"
    );
    let trimmed: Vec<&str> = outcome
        .response
        .omitted
        .iter()
        .filter_map(|omission| match omission {
            Omission::Budget { budget: 20, trimmed_target, .. } => Some(trimmed_target.as_str()),
            _ => None,
        })
        .collect();
    assert_eq!(trimmed, ["a.md", "b.md"], "{:?}", outcome.response.omitted);
    assert_eq!(outcome.response.omitted.len(), 2);
    for block in shown {
        let last = block.lines.last().expect("a trimmed target keeps a line").number;
        assert_eq!(block.not_shown, Some((last + 1, 40)));
    }
}

#[test]
fn a_line_over_the_display_cap_is_cut_and_named_instead_of_refused() {
    // Uncut, the 5,000-byte line alone would exceed `--max-bytes 2000` and refuse with exit 4.
    let mut global = global();
    global.max_bytes = 2_000;

    let outcome = files(&[("min.js", &format!("{}\nshort\n", "x".repeat(5_000)))])
        .show(&args(&["min.js"]), &global);

    assert!(outcome.error.is_none(), "{:?}", outcome.error);
    let block = only(&outcome);
    assert_eq!(
        block.lines[0].text,
        format!("{}\u{2026}", "x".repeat(1_000))
    );
    assert_eq!(block.lines[1].text, "short");
    assert!(matches!(
        outcome.response.omitted.as_slice(),
        [Omission::LongLinesCut { lines: 1 }]
    ));
}

#[test]
fn lines_within_the_display_cap_are_shown_whole_and_no_cut_is_named() {
    let outcome = files(&[("a.js", &format!("{}\n", "x".repeat(900)))])
        .show(&args(&["a.js"]), &global());

    assert_eq!(only(&outcome).lines[0].text, "x".repeat(900));
    assert!(outcome.response.omitted.is_empty());
}

#[test]
fn a_file_whose_endings_are_mostly_crlf_says_so_in_its_header() {
    let outcome =
        files(&[("win.txt", "one\r\ntwo\r\nthree\n")]).show(&args(&["win.txt"]), &global());

    assert!(only(&outcome).crlf);
    let texts: Vec<&str> = only(&outcome).lines.iter().map(|line| line.text.as_str()).collect();
    assert_eq!(texts, ["one", "two", "three"]);
}

#[test]
fn a_file_whose_endings_are_mostly_lf_names_no_crlf() {
    let outcome = files(&[("unix.txt", "one\ntwo\n"), ("mixed.txt", "one\r\ntwo\nthree\n")])
        .show(&args(&["unix.txt", "mixed.txt"]), &global());

    for block in blocks(&outcome) {
        assert!(!block.crlf, "{}", block.target);
    }
}

#[test]
fn a_missing_file_that_looks_like_another_target_names_it() {
    let missing = |missing| Error::Io {
        path: "a.ts:40,60".to_owned(),
        detail: "not there".to_owned(),
        missing,
    };
    let hinted = mistyped("a.ts:40,60", missing(true), Some("a.ts:40-60".to_owned()));
    assert_eq!(hinted.slug(), "not_found");
    assert_eq!(
        hinted.text(),
        "a.ts:40,60: no such file \u{b7} did you mean a.ts:40-60"
    );
    let other = mistyped("a.ts:40,60", missing(false), Some("a.ts:40-60".to_owned()));
    assert!(matches!(other, Error::Io { missing: false, .. }));
    let plain = mistyped("a.ts:40,60", missing(true), None);
    assert!(!plain.text().contains("did you mean"));
}

fn outline_args(targets: &[&str]) -> ShowArgs {
    ShowArgs { outline: true, ..args(targets) }
}

fn outlined(outcome: &Outcome) -> &[OutlineBlock] {
    match &outcome.response.body {
        Body::Outline(blocks) => blocks,
        other => panic!("an outline renders outline blocks, got {other:?}"),
    }
}

fn entries(block: &OutlineBlock) -> Vec<(usize, usize, &str)> {
    block
        .entries
        .iter()
        .map(|entry| (entry.line, entry.end_line, entry.sig.as_str()))
        .collect()
}

fn file_outline(path: &str, content: &str, spans: &[(usize, usize)]) -> OutlineBlock {
    let spans =
        spans.iter().map(|(line, end_line)| DefinitionSpan { line: *line, end_line: *end_line });
    outline_of(path, path, content, spans.collect())
}

const LIB_RS: &str = "use std::path::Path;\n\npub struct Store {\n    root: String,\n}\n\nimpl \
                      Store {\n    pub fn open(path: &Path) -> Store {\n        Store { root: \
                      path.display().to_string() }\n    }\n}\n\nfn helper() {}\n";

#[test]
fn an_outline_lists_each_queried_definition_s_first_line_and_range_in_source_order() {
    let block = file_outline("lib.rs", LIB_RS, &[(13, 13), (3, 5), (8, 10)]);

    let outcome = outline(&outline_args(&["lib.rs"]), &global(), vec![Ok(block)]);

    assert!(outcome.error.is_none(), "{:?}", outcome.error);
    let [block] = outlined(&outcome) else {
        panic!("one target, one block")
    };
    assert_eq!(entries(block), [
        (3, 5, "pub struct Store {"),
        (8, 10, "pub fn open(path: &Path) -> Store {"),
        (13, 13, "fn helper() {}"),
    ]);
    assert!(!block.omitted);
    assert!(outcome.response.omitted.is_empty());
    assert_eq!(outcome.response.summary, "showed 1 target \u{b7} 3 definitions");
}

#[test]
fn a_signature_over_the_cap_is_cut_marked_and_named_and_one_at_the_cap_is_not() {
    let at_cap = format!("fn f() {{}} //{}", "x".repeat(OUTLINE_SIG_CAP - 12));
    let over = format!("fn g() {{}} //{}", "y".repeat(OUTLINE_SIG_CAP - 11));
    assert_eq!(
        (at_cap.chars().count(), over.chars().count()),
        (OUTLINE_SIG_CAP, OUTLINE_SIG_CAP + 1)
    );
    let content = format!("{at_cap}\n{over}\n");
    let block = file_outline("wide.rs", &content, &[(1, 1), (2, 2)]);

    let outcome = outline(&outline_args(&["wide.rs"]), &global(), vec![Ok(block)]);

    let [block] = outlined(&outcome) else {
        panic!("one target, one block")
    };
    let cut = format!("{}\u{2026}", &over[..OUTLINE_SIG_CAP]);
    assert_eq!(entries(block), [
        (1, 1, at_cap.as_str()),
        (2, 2, cut.as_str())
    ]);
    assert!(
        matches!(outcome.response.omitted.as_slice(), [
            Omission::LongLinesCut { lines: 1 }
        ]),
        "{:?}",
        outcome.response.omitted
    );
    let mut sig = over.clone();
    assert!(cap_sig(&mut sig));
    assert_eq!(sig, cut);
}

fn two_files() -> Vec<Result<OutlineBlock, Error>> {
    // Rendered as `{line}\t{sig}\n`: 14 + 14 bytes, then 16 + 12.
    vec![
        Ok(file_outline("a.rs", "fn one() {}\nfn two() {}\n", &[(1, 1), (2, 2)])),
        Ok(file_outline("b.rs", "fn three() {}\nfn f() {}\n", &[(1, 1), (2, 2)])),
    ]
}

#[test]
fn the_size_bound_stops_at_the_first_entry_that_overflows_it_even_past_a_smaller_one() {
    let mut global = global();
    global.max_bytes = 28 + 15;

    let outcome = outline(&outline_args(&["a.rs", "b.rs"]), &global, two_files());

    assert!(outcome.error.is_none(), "{:?}", outcome.error);
    let [a, b] = outlined(&outcome) else {
        panic!("two targets, two blocks")
    };
    assert_eq!(entries(a), [(1, 1, "fn one() {}"), (2, 2, "fn two() {}")]);
    assert_eq!(entry_bytes(&a.entries[0]), 14);
    assert!(!a.omitted);
    assert!(entries(b).is_empty(), "{:?}", entries(b));
    assert!(b.omitted);
    assert!(
        matches!(outcome.response.omitted.as_slice(), [
            Omission::OutlineTrimmed { limit: 43, definitions: 2 }
        ]),
        "{:?}",
        outcome.response.omitted
    );
    assert_eq!(outcome.response.summary, "showed 2 targets \u{b7} 2 definitions");
}

#[test]
fn a_size_bound_the_outline_fits_exactly_leaves_nothing_out() {
    let mut global = global();
    global.max_bytes = 28 + 16 + 12;

    let outcome = outline(&outline_args(&["a.rs", "b.rs"]), &global, two_files());

    assert!(
        outcome.response.omitted.is_empty(),
        "{:?}",
        outcome.response.omitted
    );
    assert_eq!(outcome.response.stats.bytes, 56);
    assert!(outlined(&outcome).iter().all(|block| !block.omitted));
}

#[test]
fn a_narrowing_target_refuses_the_whole_outline_call_naming_its_form() {
    for (narrowed, form) in [
        ("lib.rs:3", ":line"),
        ("lib.rs:3-5", ":a-b"),
        ("lib.rs#open", "#symbol"),
        ("lib.rs@'fn'", "@'regex'"),
    ] {
        let args = outline_args(&["lib.rs", narrowed]);
        let kinds = args.targets.iter().map(|raw| kind_of(raw).1).collect();
        let outcome = refuse_outline(&args, &kinds).expect("a refusal");

        let Some(Error::Usage { message }) = &outcome.error else {
            panic!(
                "{narrowed}: expected a usage error, got {:?}",
                outcome.error
            )
        };
        assert!(
            message.contains(narrowed) && message.contains(form),
            "{message}"
        );
        assert!(
            !outcome.response.has_output(),
            "{narrowed}: neither mode ran"
        );
    }
    let whole = vec![Kind::Whole, Kind::Whole];
    let mut args = outline_args(&["a.rs", "b.rs"]);
    assert!(refuse_outline(&args, &whole).is_none());
    args.no_header = true;
    assert!(refuse_outline(&args, &whole).is_some(), "several files need their names");
}

#[test]
fn an_outline_of_a_file_with_no_grammar_is_no_grammar_and_the_rest_still_outline() {
    let found = vec![
        Err(no_grammar("page.vue", "vue")),
        Ok(file_outline("lib.rs", LIB_RS, &[(3, 5)])),
    ];

    let outcome = outline(&outline_args(&["page.vue", "lib.rs"]), &global(), found);

    assert_eq!(outcome.error.as_ref().map(|error| error.slug()), Some("no_grammar"));
    let [block] = outlined(&outcome) else {
        panic!("the resolved target still renders")
    };
    assert_eq!(block.target, "lib.rs");
    assert!(
        matches!(outcome.response.omitted.as_slice(), [Omission::Unresolved { target, error }]
            if target == "page.vue" && error == "no_grammar"),
        "{:?}",
        outcome.response.omitted
    );
}
