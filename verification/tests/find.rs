use lets::error::Error;
use lets::find::args::{
    build_overrides, check_pattern, context_lines, spans_pattern, typed_roots, FindArgs, Global,
};
use lets::find::expand::EXPAND_PARSE_MAX_BYTES;
use lets::find::lines::{wrap_matches, FileOutcome, RawLine, Skip};
use lets::find::name::{declared_name, Node};
use lets::find::order::{path_order, Order, Ranked};
use lets::find::path::{compare_paths, is_same_path};
use lets::find::preview::busiest_first;
use lets::find::roots::{display_path, root_index, search_roots};
use lets::find::search::{answer, prepare, Missing};
use lets::find::shown::Source;
use lets::find::symbol::{
    definition, definition_like, hit_place, is_near, place_of, section, smallest, Ancestor,
    Defined, Section,
};
use lets::find::visit::{
    is_candidate, settled, take_in, unread, FileVisit, Opened, Read, Visit,
};
use lets::find::walk::{
    judge, name_dirs, probe_listing, Entry, Found, Head, Listed, Matched, Parents, Probe,
    Rejection, Traversal, Walk, MATCHER_PARENTS_MAX, SEQUENTIAL_WALK_MAX_DIRS,
    SEQUENTIAL_WALK_MAX_ENTRIES,
};
use lets::find::{reread, rereads, run, Reading};
use lets::output::{Body, ByteLimit, CountRow, ExpandedHits, Marker, Omission, Outcome, TargetBlock};
use lets::window;

fn many_hits(n: usize) -> String {
    (1..=n).map(|i| format!("needle {i}\n")).collect()
}

fn find_args(pattern: &str, paths: &[&str]) -> FindArgs {
    FindArgs {
        pattern: pattern.to_owned(),
        paths: paths.iter().map(|p| (*p).to_owned()).collect(),
        fixed_string: false,
        ignore_case: false,
        word: false,
        cap: 50,
        files: false,
        count: false,
        globs: Vec::new(),
        hidden: false,
        after: None,
        before: None,
        context: None,
        no_expand: false,
    }
}

fn global_args() -> Global {
    Global {
        json: false,
        jsonl: false,
        budget: None,
        max_bytes: 65536,
        max_file_bytes: 8_388_608,
        no_ignore: false,
        allow_outside: false,
        no_check: false,
        quiet: false,
    }
}

fn with_budget(budget: usize) -> Global {
    Global { budget: Some(budget), ..global_args() }
}

/// Files in memory, and what the ignore rules say of each.
struct Tree {
    files: Vec<(String, Vec<u8>, Matched)>,
    missing: Vec<String>,
    /// The definitions of each file, by their lines.
    symbols: Vec<(&'static str, usize, usize)>,
    /// The files that are too large to be parsed.
    unparsed: Vec<&'static str>,
}

fn tree(files: &[(&str, &str)]) -> Tree {
    Tree {
        files: files
            .iter()
            .map(|(path, text)| ((*path).to_owned(), text.as_bytes().to_vec(), Matched::Nothing))
            .collect(),
        missing: Vec::new(),
        symbols: Vec::new(),
        unparsed: Vec::new(),
    }
}

fn with_symbols(mut tree: Tree, symbols: &[(&'static str, usize, usize)]) -> Tree {
    tree.symbols = symbols.to_vec();
    tree
}

/// The smallest definition that holds a line.
fn symbol_at(tree: &Tree, path: &str, line: usize) -> Option<(usize, usize)> {
    let spans = tree
        .symbols
        .iter()
        .filter(|(name, ..)| *name == path)
        .map(|(_, start, end)| (*start, *end))
        .collect();
    smallest(&spans, line)
}

/// A file's lines, as a searcher hands them over.
fn searched_lines(content: &[u8], args: &FindArgs) -> Vec<RawLine> {
    let regex = regex::bytes::RegexBuilder::new(&spans_pattern(args))
        .case_insensitive(args.ignore_case)
        .build()
        .expect("the pattern compiles");
    let lines: Vec<&[u8]> = content.split_inclusive(|byte| *byte == b'\n').collect();
    let hits: Vec<bool> = lines
        .iter()
        .map(|line| regex.is_match(line.strip_suffix(b"\n").unwrap_or(line)))
        .collect();
    let (before, after) = context_lines(args);
    let mut out = Vec::new();
    for (at, line) in lines.iter().enumerate() {
        let near = (at.saturating_sub(after)..=(at + before).min(lines.len() - 1))
            .any(|other| hits[other]);
        if near {
            out.push(RawLine {
                bytes: line.to_vec(),
                number: Some(at as u64 + 1),
                hit: hits[at],
            });
        }
    }
    out
}

fn visit(tree: &Tree, args: &FindArgs, global: &Global) -> Vec<Visit> {
    let mut visits = Vec::new();
    for (path, content, matched) in &tree.files {
        let name = path.rsplit('/').next().unwrap_or(path);
        let entry = Entry {
            path: path.clone(),
            depth: 1,
            is_dir: false,
            is_file: true,
            dotted: name.starts_with('.'),
            matched: *matched,
        };
        if let Some(rejection) = judge(&entry, !args.hidden) {
            visits.push(Visit::Rejected(rejection));
            continue;
        }
        let names: Vec<String> = path.split('/').map(str::to_owned).collect();
        if !is_candidate(true, &names) {
            continue;
        }
        let opened = Some(Opened { is_file: true, bytes: content.len() as u64 });
        let outcome = match unread(opened, global.max_file_bytes) {
            Some(skip) => FileOutcome::Skipped(skip),
            None => {
                let mut head = Head::new();
                let utf16 = head.read(content);
                let binary = content.contains(&0);
                let read = Read { lines: searched_lines(content, args), binary, utf16 };
                settled(Some(read), args).expect("the lines can be marked")
            },
        };
        visits.push(Visit::File(FileVisit { root: 0, path: path.clone(), outcome }));
    }
    visits
}

fn find_in(tree: &Tree, args: &FindArgs, global: &Global, in_order: bool) -> Outcome {
    let missing: Vec<Missing> = tree
        .missing
        .iter()
        .map(|typed| Missing {
            typed: typed.clone(),
            error: Error::NotFound { target: typed.clone(), what: "path".to_owned(), nearest: None },
        })
        .collect();
    let missing = match prepare(&vec![".".to_owned()], missing, args) {
        Ok(missing) => missing,
        Err(outcome) => return outcome,
    };
    let mut walk = Walk::new();
    let mut found = Found::new();
    take_in(&mut walk, &mut found, args, visit(tree, args, global), in_order);
    let sources: Vec<Source> = found
        .blocks
        .iter()
        .map(|block| Source {
            raw: tree
                .files
                .iter()
                .find(|(path, ..)| *path == block.path)
                .map(|(_, content, _)| content.clone()),
            symbols: block
                .lines
                .iter()
                .map(|line| symbol_at(tree, &block.path, line.number))
                .collect(),
            unparsed: tree.unparsed.contains(&block.path.as_str()),
        })
        .collect();
    answer(found, walk, args, global, &sources, missing)
}

fn run_find(tree: &Tree, args: &FindArgs, global: &Global) -> Outcome {
    find_in(tree, args, global, true)
}

fn blocks(outcome: &Outcome) -> &[TargetBlock] {
    match &outcome.response.body {
        Body::Targets(blocks) => blocks,
        other => panic!("expected Body::Targets, got {other:?}"),
    }
}

fn target_names(outcome: &Outcome) -> Vec<&str> {
    blocks(outcome).iter().map(|block| block.target.as_str()).collect()
}

fn line_numbers(block: &TargetBlock) -> Vec<usize> {
    block.lines.iter().map(|line| line.number).collect()
}

/// What the busiest file's preview says of itself: the hits shown, and how many there are.
fn preview_note(outcome: &Outcome) -> Option<(usize, usize)> {
    outcome.response.omitted.iter().find_map(|omission| match omission {
        Omission::BusiestFile { shown, hits } => Some((*shown, *hits)),
        _ => None,
    })
}

#[test]
fn an_unparsable_regex_fails_before_any_walk_with_no_response_content() {
    let outcome = run_find(&tree(&[]), &find_args("(unclosed", &[]), &global_args());

    assert!(!outcome.response.has_output());
    let Some(error @ Error::InvalidPattern { pattern, message }) = &outcome.error else {
        panic!("expected Error::InvalidPattern, got {:?}", outcome.error);
    };
    assert_eq!(pattern, "(unclosed");
    assert_eq!(message, "unclosed group");
    assert_eq!(
        error.text(),
        "invalid pattern: unclosed group",
        "stderr carries one line before ERROR_CODE=, not a four-line diagram"
    );
}

fn gitignored_log() -> Tree {
    let mut tree = tree(&[(".gitignore", "x.log\n"), ("a.txt", "needle\n"), ("x.log", "needle\n")]);
    tree.files[2].2 = Matched::Ignore;
    tree
}

#[test]
fn a_glob_outranks_gitignore_for_a_file_it_matches() {
    let mut tree = gitignored_log();
    // The glob keeps the file that it matches, and the walk never comes upon the others.
    tree.files.retain(|(path, ..)| path.ends_with(".log"));
    tree.files[0].2 = Matched::Whitelist;
    let mut args = find_args("needle", &[]);
    args.globs = vec!["*.log".to_owned()];

    let outcome = run_find(&tree, &args, &global_args());

    assert!(outcome.error.is_none(), "{:?}", outcome.error);
    assert_eq!(target_names(&outcome), ["x.log"]);
    let [Omission::Glob { patterns }] = outcome.response.omitted.as_slice() else {
        panic!("no ignore bucket may claim x.log: {:?}", outcome.response.omitted);
    };
    assert_eq!(patterns, &["*.log"]);
}

#[test]
fn without_the_glob_the_gitignored_file_is_not_found_and_is_counted_as_gitignore() {
    let outcome = run_find(&gitignored_log(), &find_args("needle", &[]), &global_args());

    assert_eq!(target_names(&outcome), ["a.txt"]);
    let [Omission::Ignored { gitignore, hidden, other, .. }] = outcome.response.omitted.as_slice()
    else {
        panic!("expected exactly one Omission::Ignored, got {:?}", outcome.response.omitted);
    };
    assert_eq!(
        (*gitignore, *hidden, *other),
        (1, 1, 0),
        "x.log is gitignore's; .gitignore itself is hidden"
    );
}

#[test]
fn a_few_hits_render_one_block_per_file_with_hit_and_context_markers() {
    let tree = tree(&[("a.txt", "one\nneedle here\nthree\n"), ("b.txt", "nothing to see\n")]);
    let mut args = find_args("needle", &[]);
    args.context = Some(1);

    let outcome = run_find(&tree, &args, &global_args());

    assert!(outcome.error.is_none(), "under the cap is a clean exit");
    let [block] = blocks(&outcome) else {
        panic!("only a.txt has a hit");
    };
    assert_eq!(block.target, "a.txt");
    assert!(block.span.is_none(), "a find hit block names no range");
    assert_eq!(block.lines.len(), 3);
    assert_eq!(block.lines[0].marker, Marker::Context);
    assert_eq!(block.lines[1].marker, Marker::Hit);
    assert_eq!(block.lines[1].number, 2);
    assert_eq!(block.lines[1].text, "\u{ab}needle\u{bb} here");
    assert_eq!(block.lines[2].marker, Marker::Context);
    assert_eq!(outcome.response.summary, "1 hit in 1 file \u{b7} searched 2 files");
}

#[test]
fn hits_exceeding_the_cap_print_only_the_busiest_file_s_first_ten_and_name_the_true_counts() {
    let outcome =
        run_find(&tree(&[("many.txt", &many_hits(55))]), &find_args("needle", &[]), &global_args());

    let err = outcome.error.as_ref().expect("over cap is a terminal error");
    assert_eq!(err.slug(), "over_cap");
    assert!(matches!(err, Error::OverCap { hits: 55, files: 1, cap: 50 }));
    let [preview] = blocks(&outcome) else {
        panic!("the busiest file alone is previewed");
    };
    assert_eq!(preview.target, "many.txt");
    assert_eq!(line_numbers(preview), (1..=10).collect::<Vec<_>>());
    assert!(preview.lines.iter().all(|line| line.marker == Marker::Hit));
    assert_eq!(outcome.response.summary, "55 hits in 1 file \u{b7} searched 1 file");
    assert_eq!(preview_note(&outcome), Some((10, 55)));
    assert!(
        outcome
            .response
            .omitted
            .iter()
            .any(|o| matches!(o, Omission::HitCap { hits: 55, cap: 50 })),
        "{:?}",
        outcome.response.omitted
    );
}

#[test]
fn over_cap_lists_the_top_ten_files_by_hit_count_then_names_the_rest() {
    let counts = [
        ("a.txt", 1),
        ("b.txt", 2),
        ("c.txt", 3),
        ("d.txt", 4),
        ("e.txt", 5),
        ("f.txt", 6),
        ("g.txt", 7),
        ("h.txt", 8),
        ("i.txt", 9),
        ("j.txt", 10),
        ("k.txt", 1),
        ("l.txt", 1),
        ("m.txt", 1),
    ];
    let texts: Vec<(&str, String)> = counts.iter().map(|(name, n)| (*name, many_hits(*n))).collect();
    let files: Vec<(&str, &str)> = texts.iter().map(|(name, text)| (*name, text.as_str())).collect();

    let outcome = run_find(&tree(&files), &find_args("needle", &[]), &global_args());

    let err = outcome.error.as_ref().expect("over cap is a terminal error");
    assert_eq!(err.slug(), "over_cap");
    assert!(matches!(err, Error::OverCap { hits: 58, files: 13, cap: 50 }));
    let rows: Vec<(usize, &str)> = outcome
        .response
        .top_files
        .iter()
        .map(|row| (row.count, row.path.as_str()))
        .collect();
    assert_eq!(rows, vec![
        (10, "j.txt"),
        (9, "i.txt"),
        (8, "h.txt"),
        (7, "g.txt"),
        (6, "f.txt"),
        (5, "e.txt"),
        (4, "d.txt"),
        (3, "c.txt"),
        (2, "b.txt"),
        (1, "a.txt"),
    ]);
    assert_eq!(
        outcome.response.top_files_more, 3,
        "k.txt, l.txt and m.txt tie at the cut and are not shown"
    );
    assert_eq!(preview_note(&outcome), Some((10, 10)));
    // Nine preview lines of 13 bytes and one of 14 are 131 bytes.
    assert_eq!(outcome.response.stats.bytes, 131);
}

#[test]
fn over_cap_with_ten_or_fewer_files_lists_them_all_with_no_more_line() {
    let tree = tree(&[
        ("a.txt", &many_hits(2)),
        ("m.txt", &many_hits(1)),
        ("z.txt", &many_hits(3)),
    ]);
    let mut args = find_args("needle", &[]);
    args.cap = 2;

    let outcome = run_find(&tree, &args, &global_args());

    assert!(outcome.error.is_some(), "6 hits over a cap of 2");
    assert_eq!(outcome.response.top_files.len(), 3);
    assert_eq!(outcome.response.top_files_more, 0);
    assert_eq!(preview_note(&outcome), Some((2, 3)));
    assert_eq!(target_names(&outcome), ["z.txt"]);
}

#[test]
fn under_the_cap_carries_no_top_files_map() {
    let outcome =
        run_find(&tree(&[("a.txt", "needle here\n")]), &find_args("needle", &[]), &global_args());

    assert!(outcome.error.is_none());
    assert!(outcome.response.top_files.is_empty());
    assert_eq!(outcome.response.top_files_more, 0);
    assert!(
        !outcome
            .response
            .omitted
            .iter()
            .any(|o| matches!(o, Omission::TopFiles { .. }))
    );
}

#[test]
fn count_mode_over_cap_still_reports_every_file_with_no_top_files_map() {
    let mut args = find_args("needle", &[]);
    args.count = true;

    let outcome = run_find(&tree(&[("many.txt", &many_hits(55))]), &args, &global_args());

    assert!(outcome.error.is_none(), "--count applies no cap");
    let Body::Counts(rows) = &outcome.response.body else {
        panic!("expected Body::Counts");
    };
    assert_eq!(rows.len(), 1);
    assert_eq!(rows[0].count, 55);
    assert!(outcome.response.top_files.is_empty());
}

#[test]
fn files_mode_lists_every_matching_path_with_no_cap_applied() {
    let tree = tree(&[("many.txt", &many_hits(55)), ("one.txt", "needle once\n")]);
    let mut args = find_args("needle", &[]);
    args.files = true;

    let outcome = run_find(&tree, &args, &global_args());

    assert!(outcome.error.is_none(), "--files applies no cap");
    let Body::Files(paths) = &outcome.response.body else {
        panic!("expected Body::Files");
    };
    assert_eq!(paths, &["many.txt", "one.txt"]);
    assert!(
        outcome.response.top_files.is_empty(),
        "--files applies no cap and builds no map"
    );
    assert!(
        !outcome
            .response
            .omitted
            .iter()
            .any(|o| matches!(o, Omission::HitCap { .. }))
    );
    assert_eq!(outcome.response.summary, "2 files \u{b7} searched 2 files");
}

#[test]
fn count_mode_reports_one_row_per_file_sorted_by_path() {
    let tree = tree(&[("b.txt", "needle\nneedle\n"), ("a.txt", "needle\n")]);
    let mut args = find_args("needle", &[]);
    args.count = true;

    let outcome = find_in(&tree, &args, &global_args(), false);

    assert!(outcome.error.is_none());
    let Body::Counts(rows) = &outcome.response.body else {
        panic!("expected Body::Counts");
    };
    let rows: Vec<(&str, usize)> = rows.iter().map(|row| (row.path.as_str(), row.count)).collect();
    assert_eq!(rows, [("a.txt", 1), ("b.txt", 2)]);
    assert_eq!(outcome.response.summary, "3 hits in 2 files");
}

#[test]
fn zero_hits_is_a_terminal_not_found_with_an_empty_footer_count() {
    let outcome = run_find(
        &tree(&[("a.txt", "nothing relevant\n")]),
        &find_args("needle", &[]),
        &global_args(),
    );

    let err = outcome.error.as_ref().expect("no match is terminal");
    assert_eq!(err.slug(), "not_found");
    assert_eq!(err.text(), "no hits for \u{ab}needle\u{bb}");
    assert_eq!(outcome.response.summary, "0 hits in 0 files \u{b7} searched 1 file");
}

#[test]
fn every_missing_search_root_is_named_and_the_others_are_still_searched() {
    let mut tree = tree(&[("a.txt", "needle\n")]);
    tree.missing = vec!["nope1".to_owned(), "nope2".to_owned()];

    let outcome = run_find(&tree, &find_args("needle", &["nope1", ".", "nope2"]), &global_args());

    assert_eq!(blocks(&outcome).len(), 1, "the root that exists is searched");
    let named: Vec<&str> = outcome
        .response
        .omitted
        .iter()
        .filter_map(|omission| match omission {
            Omission::Unresolved { target, error } if error == "not_found" => Some(target.as_str()),
            _ => None,
        })
        .collect();
    assert_eq!(named, ["nope1", "nope2"]);
    let err = outcome.error.as_ref().expect("a missing root fails the call");
    assert_eq!(err.slug(), "not_found");
    let stderr = err.text();
    assert!(stderr.contains("nope1") && stderr.contains("nope2"), "{stderr}");
}

fn preview_of(tree: &Tree, cap: usize, global: &Global) -> (Option<Vec<usize>>, Option<(usize, usize)>) {
    let mut args = find_args("needle", &[]);
    args.cap = cap;
    let outcome = run_find(tree, &args, global);
    assert!(matches!(outcome.error, Some(Error::OverCap { .. })));
    let lines = match &outcome.response.body {
        Body::Targets(blocks) => match blocks.as_slice() {
            [block] => Some(line_numbers(block)),
            _ => None,
        },
        _ => None,
    };
    (lines, preview_note(&outcome))
}

#[test]
fn a_cap_under_ten_previews_no_more_hits_than_the_cap() {
    let (lines, named) = preview_of(&tree(&[("n.txt", &many_hits(30))]), 5, &global_args());

    assert_eq!(lines, Some(vec![1, 2, 3, 4, 5]));
    assert_eq!(named, Some((5, 30)));
}

#[test]
fn a_cap_of_zero_previews_nothing_and_names_no_preview() {
    let (lines, named) = preview_of(&tree(&[("n.txt", &many_hits(30))]), 0, &global_args());

    assert_eq!(lines, None);
    assert_eq!(named, None);
}

#[test]
fn a_cap_over_ten_previews_ten() {
    let (lines, named) = preview_of(&tree(&[("n.txt", &many_hits(30))]), 20, &global_args());

    assert_eq!(lines, Some((1..=10).collect()));
    assert_eq!(named, Some((10, 30)));
}

fn twenty_long_hits() -> Tree {
    let texts: Vec<(String, String)> = ["a", "b", "c"]
        .iter()
        .map(|name| {
            let text =
                (0..20).map(|n| format!("needle {name} {n} {}\n", "x".repeat(50))).collect();
            (format!("{name}.txt"), text)
        })
        .collect();
    let mut files: Vec<(&str, &str)> =
        texts.iter().map(|(name, text)| (name.as_str(), text.as_str())).collect();
    files.push(("z.txt", "needle z\nneedle z\nneedle z\n"));
    tree(&files)
}

#[test]
fn a_budget_that_trims_the_preview_names_the_lines_it_kept() {
    let (lines, named) = preview_of(&twenty_long_hits(), 50, &with_budget(30));

    // 120 bytes hold one 65-byte preview line, not two.
    assert_eq!(lines, Some(vec![1]));
    assert_eq!(named, Some((1, 20)), "first 1 of 20 hits in the busiest file shown");
}

#[test]
fn with_no_budget_the_same_preview_names_all_ten() {
    let (lines, named) = preview_of(&twenty_long_hits(), 50, &global_args());

    assert_eq!(lines, Some((1..=10).collect()));
    assert_eq!(named, Some((10, 20)), "first 10 of 20 hits in the busiest file shown");
}

#[test]
fn a_leaf_key_in_yaml_toml_and_json_gets_five_lines_either_side() {
    let above = "a1: 1\na2: 2\na3: 3\na4: 3\na5: 5\na6: 6\n";
    let toml = format!("[package]\n{}version = \"NEEDLE\"\n", above.replace(':', " ="));
    let yaml = format!("{above}x: NEEDLE\n{above}");
    let json = "{\n\"a\": 1,\n\"b\": 2,\n\"c\": 3,\n\"x\": \"NEEDLE\",\n\"d\": 4\n}\n";
    let tree = tree(&[("c.json", json), ("c.toml", &toml), ("c.yaml", &yaml)]);

    let outcome = run_find(&tree, &find_args("NEEDLE", &[]), &global_args());

    let shown: Vec<(&str, Vec<usize>)> = blocks(&outcome)
        .iter()
        .map(|block| (block.target.as_str(), line_numbers(block)))
        .collect();
    assert_eq!(shown, [
        ("c.json", (1..=7).collect::<Vec<_>>()),
        ("c.toml", (3..=8).collect()),
        ("c.yaml", (2..=12).collect()),
    ]);
    let [Omission::Expanded(hits)] = outcome.response.omitted.as_slice() else {
        panic!("expected one note, got {:?}", outcome.response.omitted);
    };
    assert_eq!((hits.symbols, hits.windows, hits.around), (0, 3, 5));
}

#[test]
fn a_hit_takes_the_definition_that_holds_it() {
    let text = "fn a() {\n  one\n  needle\n  two\n}\nfn b() {}\n";
    let tree = with_symbols(tree(&[("a.rs", text)]), &[("a.rs", 1, 5)]);

    let outcome = run_find(&tree, &find_args("needle", &[]), &global_args());

    let [block] = blocks(&outcome) else {
        panic!("one file has a hit");
    };
    assert_eq!(line_numbers(block), [1, 2, 3, 4, 5]);
    assert_eq!(block.lines[2].marker, Marker::Hit);
    assert_eq!(block.lines[2].text, "  \u{ab}needle\u{bb}");
    let [Omission::Expanded(hits)] = outcome.response.omitted.as_slice() else {
        panic!("expected one note, got {:?}", outcome.response.omitted);
    };
    assert_eq!((hits.symbols, hits.windows), (1, 0));
}

#[test]
fn files_that_cannot_be_searched_are_counted_by_why() {
    let mut tree = tree(&[
        ("big.txt", &"needle ".repeat(20)),
        ("bin.dat", "needle\0\n"),
        ("ok.txt", "needle\n"),
    ]);
    tree.files.push(("u.txt".to_owned(), b"\xff\xfen\0".to_vec(), Matched::Nothing));
    let global = Global { max_file_bytes: 100, ..global_args() };

    let outcome = run_find(&tree, &find_args("needle", &[]), &global);

    assert_eq!(target_names(&outcome), ["ok.txt"]);
    assert!(
        outcome.response.omitted.iter().any(|omission| matches!(
            omission,
            Omission::Skipped { binary: 2, too_large: 1, unreadable: 0 }
        )),
        "{:?}",
        outcome.response.omitted
    );
    assert_eq!(unread(None, 1), Some(Skip::Unreadable));
    assert_eq!(unread(Some(Opened { is_file: false, bytes: 0 }), 1), Some(Skip::Binary));
}

fn listed(names: usize) -> Vec<Listed> {
    (0..names).map(|n| Listed { name: format!("f{n}.txt"), is_dir: false }).collect()
}

/// The traversal of a root that holds one directory of so many files.
fn traversal_of(files: usize) -> Traversal {
    let mut probe = Probe::new();
    let src = vec![Listed { name: "src".to_owned(), is_dir: true }];
    for listing in [src, listed(files)] {
        if let Some(traversal) = probe.list() {
            return traversal;
        }
        if let Err(traversal) = probe_listing(&mut probe, &listing) {
            return traversal;
        }
    }
    Traversal::Sequential
}

#[test]
fn a_directory_tree_over_the_entry_budget_takes_the_parallel_walk() {
    assert_eq!(
        traversal_of(SEQUENTIAL_WALK_MAX_ENTRIES),
        Traversal::Parallel { threads: 0 }
    );
}

#[test]
fn a_directory_tree_at_the_entry_budget_is_walked_on_one_thread() {
    assert_eq!(traversal_of(SEQUENTIAL_WALK_MAX_ENTRIES - 1), Traversal::Sequential);
}

#[test]
fn matchers_are_made_afresh_before_they_hold_too_many_directories() {
    let mut parents = Parents { count: 0, parent: String::new() };
    let fresh: Vec<usize> = (1..=200).filter(|n| parents.note(&format!("d{n}"))).collect();
    assert_eq!(MATCHER_PARENTS_MAX, 64);
    assert_eq!(fresh, [65, 130, 195]);
    assert!(!parents.note("d200"), "the same parent again is no further directory");
}

#[test]
fn a_rejected_directory_is_named_and_a_root_is_never_filtered() {
    let entry = |path: &str, depth, matched| Entry {
        path: path.to_owned(),
        depth,
        is_dir: true,
        is_file: false,
        dotted: path.contains("/."),
        matched,
    };
    assert!(matches!(
        judge(&entry("./target", 1, Matched::Ignore), true),
        Some(Rejection::GitignoredDir(dir)) if dir == "target"
    ));
    assert!(matches!(
        judge(&entry("./.cache", 1, Matched::Nothing), true),
        Some(Rejection::HiddenDir(dir)) if dir == ".cache"
    ));
    assert!(judge(&entry("./.cache", 1, Matched::Nothing), false).is_none());
    assert!(judge(&entry("./.cache", 1, Matched::Whitelist), true).is_none());
    assert!(judge(&entry(".", 0, Matched::Ignore), true).is_none());
}

#[test]
fn a_pruned_directory_whose_name_is_utf8_reaches_json_as_is() {
    let dirs = name_dirs(&vec!["bad\u{e9}dir".to_owned()], &Vec::new());
    assert_eq!(dirs.gitignore.named, ["bad\u{e9}dir"]);
    assert_eq!(dirs.gitignore.more, 0);
    assert!(dirs.hidden.named.is_empty());
}

#[test]
fn few_directories_are_named_the_shallow_ones_first() {
    let ignored: Vec<String> =
        ["z/a/b", "m", "z/c", "a"].iter().map(|dir| (*dir).to_owned()).collect();
    let hidden = vec![".x".to_owned(), "a/.y".to_owned()];
    let dirs = name_dirs(&ignored, &hidden);
    assert_eq!(dirs.gitignore.named.first().map(String::as_str), Some("a"));
    assert!(!dirs.hidden.named.is_empty(), "each source is named at least once");
    assert_eq!(dirs.gitignore.named.len() + dirs.gitignore.more, 4);
    assert_eq!(dirs.hidden.named.len() + dirs.hidden.more, 2);
}

#[test]
fn paths_are_ordered_by_component() {
    assert_eq!(path_order("a/b", "a-b/x"), Order::Less);
    assert_eq!(path_order("a-b/x", "a/b"), Order::Greater);
    assert_eq!(path_order("a", "a"), Order::Equal);
    assert_eq!(path_order("a", "a/b"), Order::Less);
}

#[test]
fn a_root_within_another_is_searched_once() {
    let ranked = |rank, path: &str, typed: &str| Ranked {
        rank,
        path: path.to_owned(),
        typed: typed.to_owned(),
    };
    let roots = search_roots(vec![
        ranked(1, "/t/src/find", "src/find"),
        ranked(0, "/t/src", "src"),
        ranked(2, "/t/docs", "docs"),
    ]);
    assert_eq!(roots.len(), 2);
    assert!(roots.contains(&"src".to_owned()) && roots.contains(&"docs".to_owned()));
    assert_eq!(display_path("./a/b"), "a/b");
    let split = |path: &str| -> Vec<String> { path.split('/').map(str::to_owned).collect() };
    assert_eq!(root_index(&split("docs/a.md"), &vec![split("src"), split("docs")]), 1);
    assert_eq!(typed_roots(&find_args("x", &[])), ["."]);
}

#[test]
fn a_match_is_marked_where_it_stands() {
    let (line, first) = wrap_matches("a needle, needle", &vec![(2, 8), (10, 16)]);
    assert_eq!(line, "a \u{ab}needle\u{bb}, \u{ab}needle\u{bb}");
    assert_eq!(first, Some(2..12));
    assert_eq!(wrap_matches("x", &Vec::new()), ("x".to_owned(), None));
}

#[test]
fn a_word_search_marks_whole_words_only() {
    let mut args = find_args("cap", &[]);
    args.word = true;
    assert!(check_pattern(&args).is_none());
    let outcome = run_find(&tree(&[("a.txt", "recap\na cap\n")]), &args, &global_args());
    let hits: Vec<&str> = blocks(&outcome)[0]
        .lines
        .iter()
        .filter(|line| line.marker == Marker::Hit)
        .map(|line| line.text.as_str())
        .collect();
    assert_eq!(hits, ["a \u{ab}cap\u{bb}"]);
}

#[test]
fn a_fixed_string_is_no_pattern() {
    let mut args = find_args("a.b(", &[]);
    args.fixed_string = true;
    let outcome = run_find(&tree(&[("a.txt", "axb(\na.b(\n")]), &args, &global_args());
    assert!(outcome.error.is_none(), "{:?}", outcome.error);
    let hits: Vec<usize> = blocks(&outcome)[0]
        .lines
        .iter()
        .filter(|line| line.marker == Marker::Hit)
        .map(|line| line.number)
        .collect();
    assert_eq!(hits, [2]);
}

#[test]
fn a_glob_that_does_not_parse_is_refused() {
    let error = build_overrides(&vec!["*.rs".to_owned(), "a{".to_owned()]);
    assert!(
        matches!(&error, Some(Error::InvalidPattern { pattern, .. }) if pattern == "a{"),
        "{error:?}"
    );
    assert!(build_overrides(&vec!["*.rs".to_owned(), "!x".to_owned()]).is_none());
}

#[test]
fn a_pattern_without_hits_is_read_as_grep_reads_it() {
    let tree = tree(&[("a.txt", "one\ntwo\n")]);
    let args = find_args(r"one\|two", &[]);
    let literal = run_find(&tree, &args, &global_args());
    assert!(rereads(&args, Some(0)));
    let again = reread(&args, "one|two");
    let outcome = run_find(&tree, &again, &global_args());
    let second = Reading { read_as: "one|two".to_owned(), outcome, hits: Some(2) };

    let outcome = run(&args, literal, Some(0), Some(second));

    assert!(outcome.error.is_none(), "{:?}", outcome.error);
    assert!(matches!(
        &outcome.response.omitted[0],
        Omission::GrepStyle { pattern, read_as } if pattern == r"one\|two" && read_as == "one|two"
    ));

    let literal = run_find(&tree, &find_args("x", &[]), &global_args());
    let none = run_find(&tree, &find_args("y", &[]), &global_args());
    let second = Reading { read_as: "y".to_owned(), outcome: none, hits: Some(0) };
    let outcome = run(&find_args("x", &[]), literal, Some(0), Some(second));
    assert_eq!(
        outcome.error.expect("neither reading has a hit").text(),
        "no hits for \u{ab}x\u{bb} or, read as grep does, \u{ab}y\u{bb}"
    );
}

#[test]
fn the_smallest_definition_round_a_hit_is_taken() {
    let ancestor = |kind: &str, rows, name: Option<&str>| Ancestor {
        kind: kind.to_owned(),
        rows,
        name: name.map(str::to_owned),
    };
    let defined = |name: &str, line, end_line, end| Defined {
        name: name.to_owned(),
        line,
        end_line,
        end,
    };
    let ancestors = vec![
        ancestor("source_file", 30, None),
        ancestor("impl_item", 20, Some("A")),
        ancestor("function_item", 5, Some("f")),
        ancestor("identifier", 1, None),
    ];
    let all = vec![defined("A", 1, 20, 200), defined("f", 4, 8, 90), defined("f", 12, 16, 150)];
    assert_eq!(definition(&ancestors, &all, 200, 6), Some((4, 8)));
    assert_eq!(definition(&ancestors, &all, 200, 13), Some((12, 16)));
    assert_eq!(definition(&ancestors, &all, 100, 13), None);
    assert!(definition_like("function_definition") && !definition_like("identifier"));
    assert_eq!(smallest(&vec![(1, 9), (2, 4), (3, 5)], 3), Some((2, 4)));
    assert_eq!(smallest(&vec![(1, 2)], 3), None);
}

#[test]
fn a_hit_stands_where_its_first_match_covers_anything() {
    assert_eq!(hit_place("  abc", &vec![(0, 0), (3, 5)]), (3, 5));
    assert_eq!(hit_place("  abc", &vec![(0, 0)]), (2, 5));
    assert_eq!(hit_place("   ", &Vec::new()), (3, 3));
    assert_eq!(place_of("  let cap = 1", &find_args("cap", &[])), Some((6, 9)));
    assert_eq!(place_of("  let cap = 1", &find_args("z*", &[])), Some((2, 13)));
    assert_eq!(place_of("x", &find_args("(", &[])), None);
    assert!(is_near(10, 20, 30, 20) && !is_near(10, 20, 30, 21) && !is_near(31, 40, 30, 20));
}

#[test]
fn a_hit_in_a_markdown_file_takes_the_section_above_it() {
    let lines: Vec<String> =
        ["# One", "text", "## Two", "needle", "# Three"].iter().map(|l| (*l).to_owned()).collect();
    let sections = vec![
        Section { name: "One".to_owned(), first: 1, last: 4 },
        Section { name: "Two".to_owned(), first: 3, last: 4 },
        Section { name: "Three".to_owned(), first: 5, last: 5 },
    ];
    assert_eq!(section(&lines, &sections, 4), Some((3, 4)));
    assert_eq!(section(&lines, &sections, 2), Some((1, 4)));
}

fn node(kind: &str, text: &str) -> Node {
    Node {
        kind: kind.to_owned(),
        text: Some(text.to_owned()),
        name: None,
        key: None,
        declarator: None,
        keyed: None,
    }
}

#[test]
fn a_node_is_named_by_its_name_its_key_or_its_innermost_declarator() {
    let mut named = node("function_item", "fn f() {}");
    named.name = Some(Box::new(node("identifier", "f")));
    assert_eq!(declared_name(&named).as_deref(), Some("f"));

    let mut pair = node("pair", "\"a\": 1");
    pair.key = Some(Box::new(node("string", "\"a\"")));
    assert_eq!(declared_name(&pair).as_deref(), Some("a"));

    let mut inner = node("pointer_declarator", "*g()");
    inner.declarator = Some(Box::new(node("identifier", "g")));
    let mut outer = node("function_definition", "int *g() {}");
    outer.declarator = Some(Box::new(inner));
    assert_eq!(declared_name(&outer).as_deref(), Some("g"));

    let mut table = node("pair", "a = 1");
    table.keyed = Some(Box::new(node("bare_key", "a")));
    assert_eq!(declared_name(&table).as_deref(), Some("a"));
    assert_eq!(declared_name(&node("identifier", "x")), None);
}

const FEE_TS: &str = "import { rates } from './rates'\n\
                      \n\
                      export function computeFee(amount: number): number {\n\
                      \x20 const rate = rates.base\n\
                      \x20 return amount * rate\n\
                      }\n\
                      \n\
                      export class Cart {\n\
                      \x20 total(items: number[]): number {\n\
                      \x20   let sum = 0\n\
                      \x20   for (const item of items) {\n\
                      \x20     sum += computeFee(item)\n\
                      \x20   }\n\
                      \x20   return sum\n\
                      \x20 }\n\
                      }\n\
                      \n\
                      export function other() {\n\
                      \x20 return 1\n\
                      }\n";

fn fee() -> Tree {
    let symbols = [("src/fee.ts", 3, 6), ("src/fee.ts", 8, 16), ("src/fee.ts", 9, 15)];
    with_symbols(tree(&[("src/fee.ts", FEE_TS)]), &symbols)
}

fn only_block(outcome: &Outcome) -> &TargetBlock {
    let [block] = blocks(outcome) else {
        panic!("expected one block, got {:?}", blocks(outcome));
    };
    block
}

fn hit_numbers(block: &TargetBlock) -> Vec<usize> {
    block
        .lines
        .iter()
        .filter(|line| line.marker == Marker::Hit)
        .map(|line| line.number)
        .collect()
}

/// The one note of an answer: how its hits were given context.
fn expanded(outcome: &Outcome) -> ExpandedHits {
    let [Omission::Expanded(hits)] = outcome.response.omitted.as_slice() else {
        panic!("expected one note, got {:?}", outcome.response.omitted);
    };
    *hits
}

/// To symbols, to windows, and not at all: for the lines they would add, or for the bytes.
fn counts(outcome: &Outcome) -> (usize, usize, usize, usize) {
    let hits = expanded(outcome);
    (hits.symbols, hits.windows, hits.unexpanded, hits.over_limit)
}

#[test]
fn two_hits_in_a_typescript_file_print_each_enclosing_function_and_name_the_expansion() {
    let outcome = run_find(&fee(), &find_args("computeFee", &["src"]), &global_args());

    assert!(outcome.error.is_none(), "{:?}", outcome.error);
    let block = only_block(&outcome);
    assert_eq!(line_numbers(block), [3, 4, 5, 6, 9, 10, 11, 12, 13, 14, 15]);
    assert_eq!(hit_numbers(block), [3, 12]);
    assert_eq!(block.lines[1].text, "  const rate = rates.base");
    assert_eq!(block.lines[1].marker, Marker::Context);
    assert_eq!(counts(&outcome), (2, 0, 0, 0));
    assert_eq!(
        outcome.response.summary,
        "2 hits in 1 file \u{b7} searched 1 file"
    );
}

#[test]
fn no_expand_prints_the_same_two_hits_bare() {
    let args = FindArgs { no_expand: true, ..find_args("computeFee", &["src"]) };

    let outcome = run_find(&fee(), &args, &global_args());

    assert_eq!(line_numbers(only_block(&outcome)), [3, 12]);
    assert!(outcome.response.omitted.is_empty());
}

#[test]
fn a_context_flag_keeps_its_own_window_and_nothing_is_expanded() {
    let mut args = find_args("computeFee", &["src"]);
    args.context = Some(2);

    let outcome = run_find(&fee(), &args, &global_args());

    assert_eq!(line_numbers(only_block(&outcome)), [1, 2, 3, 4, 5, 10, 11, 12, 13, 14]);
    assert!(outcome.response.omitted.is_empty());
}

#[test]
fn json_output_carries_the_hits_alone() {
    let mut global = global_args();
    global.json = true;

    let outcome = run_find(&fee(), &find_args("computeFee", &["src"]), &global);

    assert_eq!(line_numbers(only_block(&outcome)), [3, 12]);
    assert!(outcome.response.omitted.is_empty());
}

#[test]
fn eleven_hits_print_hit_lines_only_and_ten_are_expanded() {
    let spaced = |hits: usize| -> String {
        (1..=hits).map(|n| format!("needle {n}\nfiller\nfiller\nfiller\n")).collect()
    };

    let eleven =
        run_find(&tree(&[("a.txt", &spaced(11))]), &find_args("needle", &[]), &global_args());

    let block = only_block(&eleven);
    assert_eq!(line_numbers(block), hit_numbers(block));
    assert_eq!(block.lines.len(), 11);
    assert!(eleven.response.omitted.is_empty());

    let ten =
        run_find(&tree(&[("a.txt", &spaced(10))]), &find_args("needle", &[]), &global_args());

    assert_eq!(hit_numbers(only_block(&ten)).len(), 10);
    assert!(only_block(&ten).lines.len() > 10);
    assert_eq!(counts(&ten).1, 10);
}

#[test]
fn a_hit_in_a_fourth_file_leaves_every_file_bare_and_three_files_expand() {
    let text = "above\nneedle\nbelow\n";
    let mut tree = tree(&[("a.txt", text), ("b.txt", text), ("c.txt", text)]);

    let three = run_find(&tree, &find_args("needle", &[]), &global_args());
    assert_eq!(counts(&three), (0, 3, 0, 0));

    tree.files.push(("d.txt".to_owned(), text.as_bytes().to_vec(), Matched::Nothing));
    let four = run_find(&tree, &find_args("needle", &[]), &global_args());

    assert_eq!(blocks(&four).len(), 4);
    for block in blocks(&four) {
        assert_eq!(line_numbers(block), [2], "{}", block.target);
    }
    assert!(four.response.omitted.is_empty());
}

/// A function of `lines` lines, `needle` on its middle line.
fn one_function(lines: usize) -> String {
    let mut text = "export function big(x: number): number {\n".to_owned();
    for n in 2..lines {
        let word = if n == lines / 2 { "needle" } else { "filler" };
        text.push_str(&format!("  const {word}{n} = x + {n}\n"));
    }
    text.push_str("}\n");
    text
}

#[test]
fn a_symbol_of_forty_one_lines_falls_back_to_five_lines_either_side() {
    let tree = with_symbols(tree(&[("big.ts", &one_function(41))]), &[("big.ts", 1, 41)]);

    let outcome = run_find(&tree, &find_args("needle", &[]), &global_args());

    assert_eq!(
        line_numbers(only_block(&outcome)),
        (15..=25).collect::<Vec<_>>()
    );
    assert_eq!(counts(&outcome), (0, 1, 0, 0));
}

#[test]
fn a_symbol_of_forty_lines_prints_whole() {
    let tree = with_symbols(tree(&[("big.ts", &one_function(40))]), &[("big.ts", 1, 40)]);

    let outcome = run_find(&tree, &find_args("needle", &[]), &global_args());

    assert_eq!(
        line_numbers(only_block(&outcome)),
        (1..=40).collect::<Vec<_>>()
    );
    assert_eq!(counts(&outcome), (1, 0, 0, 0));
}

#[test]
fn a_file_with_no_grammar_gets_five_lines_either_side_clamped_to_the_file() {
    let text: String = (1..=20)
        .map(|n| format!("{} {n}\n", if n == 2 { "needle" } else { "line" }))
        .collect();

    let outcome =
        run_find(&tree(&[("notes.txt", &text)]), &find_args("needle", &[]), &global_args());

    assert_eq!(line_numbers(only_block(&outcome)), [1, 2, 3, 4, 5, 6, 7]);
    assert_eq!(hit_numbers(only_block(&outcome)), [2]);
}

/// Twelve-line functions, `needle` on the second line of each.
fn functions(path: &'static str, count: usize) -> Tree {
    let mut text = String::new();
    let mut symbols = Vec::new();
    for f in 0..count {
        symbols.push((path, 13 * f + 1, 13 * f + 12));
        text.push_str(&format!("export function f{f}(x: number): number {{\n"));
        text.push_str(&format!("  const needle = x + {f}\n"));
        for n in 0..9 {
            text.push_str(&format!("  x = x + {n}\n"));
        }
        text.push_str("}\n\n");
    }
    with_symbols(tree(&[(path, &text)]), &symbols)
}

#[test]
fn ten_hits_in_ten_symbols_expand_to_at_most_eighty_lines_and_name_the_rest() {
    let outcome =
        run_find(&functions("ten.ts", 10), &find_args("needle", &[]), &global_args());

    // Six whole functions are 72 lines. The seventh (79-90) would make 84, but its hit's
    // window, 75-85, adds only 78-85 past the sixth: the eight lines left. The last three
    // hits then fit nothing.
    let block = only_block(&outcome);
    assert_eq!(hit_numbers(block), [2, 15, 28, 41, 54, 67, 80, 93, 106, 119]);
    let shown: Vec<usize> = (1..=77)
        .filter(|line| line % 13 != 0)
        .chain(78..=85)
        .chain([93, 106, 119])
        .collect();
    assert_eq!(line_numbers(block), shown);
    assert_eq!(counts(&outcome), (6, 1, 3, 0));
    assert_eq!(expanded(&outcome).line_cap, 80);
}

#[test]
fn with_room_for_every_symbol_no_hit_falls_back_or_stays_bare() {
    let outcome = run_find(&functions("six.ts", 6), &find_args("needle", &[]), &global_args());

    assert_eq!(only_block(&outcome).lines.len(), 6 * 12);
    assert_eq!(counts(&outcome), (6, 0, 0, 0));
}

#[test]
fn a_non_utf8_line_the_expansion_adds_is_named_as_shown_lossily() {
    let mut tree = tree(&[]);
    tree.files.push((
        "l.txt".to_owned(),
        b"caf\xe9\nneedle\nplain\n".to_vec(),
        Matched::Nothing,
    ));

    let outcome = run_find(&tree, &find_args("needle", &[]), &global_args());

    let block = only_block(&outcome);
    assert_eq!(line_numbers(block), [1, 2, 3]);
    assert_eq!(block.lines[0].text, "caf\u{fffd}");
    assert!(matches!(outcome.response.omitted.as_slice(), [
        Omission::Expanded(_),
        Omission::LossyLines { lines: 1 },
    ]));
}

#[test]
fn over_the_cap_with_context_the_preview_holds_hit_lines_only() {
    let mut args = find_args("needle", &[]);
    args.context = Some(1);

    let outcome = run_find(&tree(&[("many.txt", &many_hits(55))]), &args, &global_args());

    assert!(matches!(outcome.error, Some(Error::OverCap { hits: 55, .. })));
    let block = only_block(&outcome);
    assert_eq!(line_numbers(block), (1..=10).collect::<Vec<_>>());
    assert_eq!(hit_numbers(block), line_numbers(block));
}

#[test]
fn a_file_one_byte_over_the_parse_ceiling_gets_five_lines_and_the_footer_says_why() {
    let mut tree = tree(&[("big.ts", &one_function(40))]);
    tree.unparsed.push("big.ts");
    assert_eq!(EXPAND_PARSE_MAX_BYTES, 128 * 1024);

    let outcome = run_find(&tree, &find_args("needle", &["big.ts"]), &global_args());

    assert_eq!(
        line_numbers(only_block(&outcome)),
        (15..=25).collect::<Vec<_>>()
    );
    let hits = expanded(&outcome);
    assert_eq!((hits.windows, hits.unparsed, hits.parse_max_kib), (1, 1, 128));
}

/// Two 31-line functions, a hit on the second line of each: lines 2 and 34.
fn two_functions() -> Tree {
    let mut text = String::new();
    for f in 0..2 {
        text.push_str(&format!("fn f{f}() {{\n"));
        text.push_str(&format!(
            "    let needle_{f} = \"padding padding padding padding padding\";\n"
        ));
        for n in 0..28 {
            text.push_str(&format!(
                "    let v{n} = \"{n} padding padding padding padding padding padding\";\n"
            ));
        }
        text.push_str("}\n\n");
    }
    with_symbols(tree(&[("two.rs", &text)]), &[("two.rs", 1, 31), ("two.rs", 33, 63)])
}

#[test]
fn a_budget_with_room_for_the_hits_alone_keeps_every_hit_and_names_both_unexpanded() {
    let outcome = run_find(&two_functions(), &find_args("needle_", &[]), &with_budget(60));

    // 240 bytes: the two hit lines take 132, and each hit's window adds about 340 more, so
    // nothing but the hits fits and nothing is trimmed.
    let block = only_block(&outcome);
    assert_eq!(line_numbers(block), [2, 34]);
    assert_eq!(hit_numbers(block), [2, 34]);
    assert_eq!(counts(&outcome), (0, 0, 0, 2));
    assert_eq!(expanded(&outcome).limit, ByteLimit::Budget(60));
}

#[test]
fn a_budget_with_room_for_one_function_expands_the_first_and_gives_the_second_its_window() {
    let outcome = run_find(&two_functions(), &find_args("needle_", &[]), &with_budget(700));

    // 2,800 bytes: the hits (132) and the first function (1,896) fit, the second function
    // does not, and its window, 29-39, adds 32-39 past the first: 341 bytes.
    let block = only_block(&outcome);
    assert_eq!(hit_numbers(block), [2, 34]);
    assert_eq!(line_numbers(block), (1..=39).collect::<Vec<_>>());
    assert!(window::content_bytes(&block.lines) <= 700 * window::BYTES_PER_TOKEN);
    assert_eq!(counts(&outcome), (1, 1, 0, 0));
}

#[test]
fn a_budget_with_room_for_both_functions_expands_both_and_trims_nothing() {
    let outcome = run_find(&two_functions(), &find_args("needle_", &[]), &with_budget(2000));

    assert_eq!(
        line_numbers(only_block(&outcome)),
        (1..=31).chain(33..=63).collect::<Vec<_>>()
    );
    assert_eq!(counts(&outcome), (2, 0, 0, 0));
}

#[test]
fn max_bytes_with_room_for_the_hits_alone_names_them_unexpanded() {
    let global = Global { max_bytes: 300, ..global_args() };

    let outcome = run_find(&two_functions(), &find_args("needle_", &[]), &global);

    assert!(outcome.error.is_none(), "{:?}", outcome.error);
    assert_eq!(line_numbers(only_block(&outcome)), [2, 34]);
    assert_eq!(counts(&outcome), (0, 0, 0, 2));
    assert_eq!(expanded(&outcome).limit, ByteLimit::MaxBytes(300));
}

#[test]
fn the_default_max_bytes_leaves_room_to_expand_both_functions() {
    let outcome = run_find(&two_functions(), &find_args("needle_", &[]), &global_args());

    assert_eq!(only_block(&outcome).lines.len(), 62);
    assert_eq!(counts(&outcome), (2, 0, 0, 0));
}

#[test]
fn a_hit_in_a_one_line_function_gets_five_lines_either_side() {
    let text = "use a;\nuse b;\n\nfn one() -> u32 { NEEDLE }\n\nfn two() {\n    3\n}\n";
    let tree = with_symbols(tree(&[("one.rs", text)]), &[("one.rs", 4, 4), ("one.rs", 6, 8)]);

    let outcome = run_find(&tree, &find_args("NEEDLE", &["one.rs"]), &global_args());

    assert_eq!(
        line_numbers(only_block(&outcome)),
        (1..=8).collect::<Vec<_>>()
    );
    assert_eq!(counts(&outcome), (0, 1, 0, 0));
}

#[test]
fn a_three_line_function_prints_whole_and_a_two_line_one_gets_its_window() {
    let pad = "0;\n1;\n2;\n3;\n4;\n5;\n";
    let three = format!("{pad}function f() {{\n  needle()\n}}\n{pad}");
    let two = format!("{pad}function g() {{ needle()\n}}\n{pad}");
    let tree = with_symbols(
        tree(&[("three.ts", &three), ("two.ts", &two)]),
        &[("three.ts", 7, 9), ("two.ts", 7, 8)],
    );

    let outcome = run_find(&tree, &find_args("needle", &[]), &global_args());

    let blocks = blocks(&outcome);
    assert_eq!(line_numbers(&blocks[0]), [7, 8, 9], "{}", blocks[0].target);
    assert_eq!(
        line_numbers(&blocks[1]),
        (2..=12).collect::<Vec<_>>(),
        "{}",
        blocks[1].target
    );
    assert_eq!(counts(&outcome), (1, 1, 0, 0));
}

fn lines_with_needles(total: usize, needles: &[usize]) -> String {
    (1..=total)
        .map(|n| format!("{} {n}\n", if needles.contains(&n) { "needle" } else { "line" }))
        .collect()
}

#[test]
fn context_windows_that_overlap_render_one_run_with_no_repeated_line() {
    let mut args = find_args("needle", &[]);
    args.context = Some(2);

    let outcome =
        run_find(&tree(&[("a.txt", &lines_with_needles(10, &[3, 6]))]), &args, &global_args());

    assert_eq!(line_numbers(only_block(&outcome)), vec![1, 2, 3, 4, 5, 6, 7, 8]);
    assert_eq!(hit_numbers(only_block(&outcome)), vec![3, 6]);
    assert_eq!(
        outcome.response.summary,
        "2 hits in 1 file \u{b7} searched 1 file"
    );
}

#[test]
fn hits_exactly_at_the_cap_print_their_content_and_one_more_does_not() {
    let mut args = find_args("needle", &[]);
    args.cap = 50;

    let at_cap = run_find(&tree(&[("many.txt", &many_hits(50))]), &args, &global_args());

    assert!(
        at_cap.error.is_none(),
        "the cap is inclusive: {:?}",
        at_cap.error
    );
    assert_eq!(only_block(&at_cap).lines.len(), 50);
    assert!(
        at_cap.response.omitted.is_empty(),
        "{:?}",
        at_cap.response.omitted
    );

    let over_cap = run_find(&tree(&[("many.txt", &many_hits(51))]), &args, &global_args());

    assert!(over_cap.error.is_some(), "one hit past the cap is terminal");
    assert_eq!(
        only_block(&over_cap).lines.len(),
        10,
        "past the cap, only the busiest file's first hits print"
    );
    assert!(
        over_cap
            .response
            .omitted
            .iter()
            .any(|o| matches!(o, Omission::HitCap { hits: 51, cap: 50 })),
        "{:?}",
        over_cap.response.omitted
    );
}

#[test]
fn hits_past_max_bytes_with_no_budget_are_refused_whole() {
    let mut global = global_args();
    global.max_bytes = 100;

    let outcome =
        run_find(&tree(&[("a.txt", &many_hits(20))]), &find_args("needle", &[]), &global);

    assert!(
        !outcome.response.has_output(),
        "an over-budget answer lands nowhere"
    );
    let Some(Error::OverBudget { limit, .. }) = &outcome.error else {
        panic!("expected Error::OverBudget, got {:?}", outcome.error);
    };
    assert_eq!(*limit, 100);
}

#[test]
fn the_same_hits_under_a_budget_are_trimmed_and_the_budget_is_named() {
    let mut global = global_args();
    global.max_bytes = 100;
    global.budget = Some(20);

    let outcome =
        run_find(&tree(&[("a.txt", &many_hits(20))]), &find_args("needle", &[]), &global);

    assert!(outcome.error.is_none(), "{:?}", outcome.error);
    let block = only_block(&outcome);
    let kept = block.lines.len();
    assert!((1..20).contains(&kept), "trimmed to {kept} of 20 lines");
    assert!(
        matches!(
            outcome.response.omitted.as_slice(),
            [Omission::Budget { budget: 20, trimmed_target, not_shown: None }]
                if trimmed_target == "a.txt"
        ),
        "{:?}",
        outcome.response.omitted
    );
    assert!(
        block.not_shown.is_none() && block.span.is_none(),
        "a hit block names no range, so it has no `not shown` tail either"
    );
}

#[test]
fn a_file_with_an_invalid_utf8_byte_is_searched_lossily_and_its_shown_lines_are_named() {
    let mut tree = tree(&[]);
    tree.files.push((
        "m.rs".to_owned(),
        b"fn good() {}\nlet s = \"\xff\xfe\";\nfn target_fn() { 1 }\n".to_vec(),
        Matched::Nothing,
    ));
    let args = FindArgs { no_expand: true, ..find_args("target_fn|let s", &[]) };

    let outcome = run_find(&tree, &args, &global_args());

    assert!(outcome.error.is_none(), "{:?}", outcome.error);
    let texts: Vec<(usize, &str)> = only_block(&outcome)
        .lines
        .iter()
        .map(|line| (line.number, line.text.as_str()))
        .collect();
    assert_eq!(texts, [
        (2, "\u{ab}let s\u{bb} = \"\u{fffd}\u{fffd}\";"),
        (3, "fn \u{ab}target_fn\u{bb}() { 1 }"),
    ]);
    assert!(matches!(
        outcome.response.omitted.as_slice(),
        [Omission::LossyLines { lines: 1 }]
    ));
    assert_eq!(
        outcome.response.summary,
        "2 hits in 1 file \u{b7} searched 1 file"
    );
}

#[test]
fn paths_are_listed_by_their_components() {
    let order = |a, b| compare_paths(a, b);
    assert_eq!(order("../l", "(a)/b"), Order::Less, "a parent comes before every name");
    assert_eq!(order("./a", "../a"), Order::Less, "the current directory comes before a parent");
    assert_eq!(order("/z", "./a"), Order::Less, "the root comes before all");
    assert_eq!(order("./d09", "a"), Order::Less);
    assert_eq!(order("a/b", "a-b/x"), Order::Less);
    assert_eq!(order("a//b/./c/", "a/b/c"), Order::Equal, "empty and inner `.` do not count");
    assert_eq!(order("a", "./a"), Order::Greater);
    assert_eq!(order("", "a"), Order::Less);
    assert!(is_same_path("a//b", "a/b/."));
    assert!(!is_same_path("./a", "a"));
}

#[test]
fn comparing_bytes_is_comparing_components_below_one_directory() {
    let names = ["a", "a/b", "a-b", "a-b/x", "a.b/c", "z/y", "B", "\u{e9}/a", "a b/c"];
    for root in ["", "./", "../x/", "/w/", "a//./"] {
        for a in names {
            for b in names {
                let (a, b) = (format!("{root}{a}"), format!("{root}{b}"));
                assert_eq!(path_order(&a, &b), compare_paths(&a, &b), "{a} {b}");
            }
        }
    }
}

#[test]
fn tied_paths_keep_the_order_they_were_given_in() {
    let root = |typed: &str| Ranked { rank: 0, path: "/w/a".to_owned(), typed: typed.to_owned() };
    assert_eq!(search_roots(vec![root("a//"), root("a")]), ["a//"]);
    assert_eq!(search_roots(vec![root("a"), root("a//")]), ["a"]);
}

#[test]
fn a_leading_current_directory_is_not_shown() {
    for (path, shown) in [
        ("./a/b", "a/b"),
        ("././a", "a"),
        (".//a", "a"),
        ("./a/./b/", "a/./b"),
        ("./a/.", "a"),
        (".", ""),
        ("./", ""),
        ("./../a", "../a"),
        ("../a", "../a"),
        (".a/b", ".a/b"),
        ("/a/", "/a/"),
        ("a/./", "a/./"),
        ("", ""),
    ] {
        assert_eq!(display_path(path), shown, "{path}");
    }
}

#[test]
fn equally_deep_directories_are_named_a_parent_first() {
    let named = name_dirs(&dirs(&["(a)/b", "../l"]), &Vec::new());
    assert_eq!(named.gitignore.named, ["../l", "(a)/b"]);
}

#[test]
fn a_root_below_another_is_not_searched_twice_however_it_is_spelled() {
    let root = |path: &str| Ranked { rank: 0, path: path.to_owned(), typed: path.to_owned() };
    assert_eq!(search_roots(vec![root("/a/b"), root("/a-b"), root("/a")]), ["/a", "/a-b"]);
    assert_eq!(search_roots(vec![root("/a/b"), root("/")]), ["/"]);
}

#[test]
fn equally_busy_files_are_listed_a_parent_first() {
    let row = |path: &str| CountRow { count: 2, path: path.to_owned() };
    let rows = busiest_first(vec![row("(a)/b"), row("../l")]);
    let listed: Vec<&str> = rows.iter().map(|row| row.path.as_str()).collect();
    assert_eq!(listed, ["../l", "(a)/b"]);
}

#[test]
fn lines_that_did_not_decode_replace_those_noted_of_the_file_before() {
    let args = find_args("needle", &[]);
    let mut walk = Walk::new();
    let mut found = Found::new();
    for lines in [vec![1], vec![2, 3]] {
        let outcome = FileOutcome::Searched {
            lossy_lines: lines,
            hits: 1,
            lines: Vec::new(),
            first_match: Vec::new(),
        };
        walk.record(&mut found, &args, "./a", outcome);
    }
    assert_eq!(walk.lossy, [("a".to_owned(), vec![2, 3])]);
    assert_eq!(found.total_hits, 2);
}

fn dirs(names: &[&str]) -> Vec<String> {
    names.iter().map(|name| (*name).to_owned()).collect()
}

#[test]
fn only_the_first_five_ignored_directories_are_named_in_path_order_within_a_depth() {
    let named = name_dirs(&dirs(&["g", "b", "f", "a", "e", "c", "d"]), &Vec::new());
    assert_eq!(named.gitignore.named, ["a", "b", "c", "d", "e"]);
    assert_eq!(named.gitignore.more, 2, "f/ and g/");
    assert!(named.hidden.named.is_empty() && named.hidden.more == 0);
}

#[test]
fn a_top_level_ignored_directory_is_named_before_a_nested_one_it_sorts_after() {
    let named = name_dirs(&dirs(&["a/deep", "z"]), &Vec::new());
    assert_eq!(named.gitignore.named, ["z", "a/deep"]);
}

#[test]
fn each_source_that_pruned_a_directory_keeps_a_name_when_the_other_fills_the_five() {
    let named = name_dirs(&dirs(&["a", "b", "c", "d", "e", "f"]), &dirs(&["x/.h"]));
    assert_eq!(named.gitignore.named, ["a", "b", "c", "d"]);
    assert_eq!(named.gitignore.more, 2);
    assert_eq!(named.hidden.named, ["x/.h"]);
    assert_eq!(named.hidden.more, 0);
}

#[test]
fn with_hidden_the_gitignored_directories_alone_take_all_five_names() {
    let named = name_dirs(&dirs(&["a", "b", "c", "d", "e", "f"]), &Vec::new());
    assert_eq!(named.gitignore.named, ["a", "b", "c", "d", "e"]);
    assert_eq!(named.gitignore.more, 1);
    assert!(named.hidden.named.is_empty() && named.hidden.more == 0);
}

#[test]
fn an_unparsable_glob_is_an_invalid_pattern_before_any_walk() {
    let mut args = find_args("needle", &[]);
    args.globs = vec!["*.[ts".to_owned()];

    let outcome = run_find(&tree(&[("a.ts", "needle\n")]), &args, &global_args());

    assert!(!outcome.response.has_output());
    let Some(Error::InvalidPattern { pattern, .. }) = &outcome.error else {
        panic!("expected Error::InvalidPattern, got {:?}", outcome.error);
    };
    assert_eq!(pattern, "*.[ts");
}

#[test]
fn a_hit_on_a_line_over_the_display_cap_is_cut_around_the_match_and_named() {
    // Over the default 65,536 `--max-bytes`, so an uncut line would refuse the whole search.
    let line = format!("{}needle{}\n", "x".repeat(40_000), "y".repeat(30_000));

    let outcome =
        run_find(&tree(&[("min.js", &line)]), &find_args("needle", &[]), &global_args());

    assert!(outcome.error.is_none(), "{:?}", outcome.error);
    let expected = format!(
        "\u{2026}{}\u{ab}needle\u{bb}{}\u{2026}",
        "x".repeat(200),
        "y".repeat(200)
    );
    assert_eq!(only_block(&outcome).lines[0].text, expected);
    assert!(matches!(
        outcome.response.omitted.as_slice(),
        [Omission::LongLinesCut { lines: 1 }]
    ));
}

#[test]
fn a_hit_on_a_line_within_the_display_cap_is_shown_whole() {
    let text = format!("{}needle{}", "x".repeat(450), "y".repeat(444));

    let outcome = run_find(
        &tree(&[("a.js", &format!("{text}\n"))]),
        &find_args("needle", &[]),
        &global_args(),
    );

    assert_eq!(
        only_block(&outcome).lines[0].text,
        format!("{}\u{ab}needle\u{bb}{}", "x".repeat(450), "y".repeat(444))
    );
    assert!(
        outcome.response.omitted.is_empty(),
        "{:?}",
        outcome.response.omitted
    );
}

/// The traversal of a root that holds so many empty directories.
fn traversal_of_dirs(count: usize) -> Traversal {
    let mut probe = Probe::new();
    let root = (0..count).map(|n| Listed { name: format!("d{n}"), is_dir: true }).collect();
    let mut listings = vec![root];
    listings.extend((0..count).map(|_| Vec::new()));
    for listing in &listings {
        if let Some(traversal) = probe.list() {
            return traversal;
        }
        if let Err(traversal) = probe_listing(&mut probe, listing) {
            return traversal;
        }
    }
    Traversal::Sequential
}

#[test]
fn a_tree_of_more_directories_than_the_probe_lists_takes_the_parallel_walk() {
    assert_eq!(
        traversal_of_dirs(SEQUENTIAL_WALK_MAX_DIRS),
        Traversal::Parallel { threads: 0 },
        "the root and its {SEQUENTIAL_WALK_MAX_DIRS} subdirectories are one listing too many"
    );
}

#[test]
fn a_tree_of_as_many_directories_as_the_probe_lists_is_walked_on_one_thread() {
    assert_eq!(
        traversal_of_dirs(SEQUENTIAL_WALK_MAX_DIRS - 1),
        Traversal::Sequential
    );
}

#[test]
fn a_git_directory_counts_nothing_toward_the_entry_budget() {
    let mut probe = Probe::new();
    let mut entries = listed(SEQUENTIAL_WALK_MAX_ENTRIES);
    entries.push(Listed { name: ".git".to_owned(), is_dir: true });

    assert!(probe.list().is_none());
    assert_eq!(probe_listing(&mut probe, &entries), Ok(0), "and is not listed itself");
}

#[test]
fn a_parallel_walk_prints_the_sequential_walks_bytes_on_every_run_and_thread_count() {
    let tree = tree(&[
        ("a/three.txt", "x\nneedle\n"),
        ("a-b/one.txt", "needle\n"),
        ("b/two.txt", "needle\nneedle\n"),
        ("c.dat", "needle\0"),
    ]);
    let in_order = run_find(&tree, &find_args("needle", &[]), &global_args());
    let orders: [[usize; 4]; 3] = [[3, 2, 1, 0], [1, 3, 0, 2], [2, 0, 3, 1]];
    for order in orders {
        let shuffled = Tree {
            files: order.iter().map(|at| tree.files[*at].clone()).collect(),
            missing: Vec::new(),
            symbols: Vec::new(),
            unparsed: Vec::new(),
        };
        let parallel = find_in(&shuffled, &find_args("needle", &[]), &global_args(), false);
        assert_eq!(format!("{:?}", parallel.response), format!("{:?}", in_order.response));
    }
}
