use lets::edit::apply::{Checked, Group, Layer1, Plan};
use lets::edit::args::{dash_conflict, EditArgs, Stdin};
use lets::edit::bytes::Span;
use lets::edit::check::CommandVerdict;
use lets::edit::drive;
use lets::edit::fence::parse_batch;
use lets::edit::insert::insert_after_line;
use lets::edit::replace::{Fold, Found, Located};
use lets::edit::report::{merge_omissions, Reverted};
use lets::edit::run;
use lets::edit::spec::{EditOp, EditSpec, Kind, Lookup};
use lets::edit::splice::splice_all;
use lets::edit::trial::Trial;
use lets::error::{Candidate, Error};
use lets::output::{AnchorSide, Body, EditKind, EditResult, Omission, Outcome, Sha12};

#[test]
fn splice_all_replaces_every_span_and_keeps_every_other_byte() {
    let span = |start, end| Span { start, end };
    assert_eq!(
        splice_all(b"aXbXXc", &[span(1, 2), span(3, 5)], b"--"),
        b"a--b--c"
    );
    assert_eq!(
        splice_all(b"abcdef", &[span(0, 1), span(5, 6)], b""),
        b"bcde"
    );
    assert_eq!(
        splice_all(b"\r\nkeep\r\n", &[span(2, 6)], b"k"),
        b"\r\nk\r\n"
    );
    assert_eq!(splice_all(b"same", &[], b"unused"), b"same");
}

fn edit_args(target: &str) -> EditArgs {
    EditArgs {
        target: Some(target.to_owned()),
        more_targets: Vec::new(),
        old: None,
        new: None,
        all: false,
        expect: None,
        expect_all: false,
        insert_after: None,
        insert_before: None,
        from: None,
        if_sha: None,
        normalize: false,
        literal_newlines: false,
        check: None,
        check_timeout: 60,
    }
}

fn nothing() -> Stdin {
    Stdin::Bytes(Vec::new())
}

fn error_of(outcome: Outcome) -> Error {
    outcome.error.expect("a failure")
}

fn said(result: Result<Vec<EditSpec>, Error>) -> Error {
    match result {
        Ok(specs) => panic!("expected a refusal, got {specs:?}"),
        Err(error) => error,
    }
}

#[test]
fn old_dash_and_new_dash_together_conflict() {
    let mut args = edit_args("a.ts");
    args.old = Some("-".to_owned());
    args.new = Some("-".to_owned());

    assert!(dash_conflict(&args).is_some());
}

#[test]
fn new_dash_with_expect_all_conflicts() {
    let mut args = edit_args("a.ts");
    args.new = Some("-".to_owned());
    args.expect_all = true;

    assert!(dash_conflict(&args).is_some());
}

#[test]
fn old_dash_with_expect_all_conflicts() {
    let mut args = edit_args("a.ts");
    args.old = Some("-".to_owned());
    args.expect_all = true;

    assert!(dash_conflict(&args).is_some());
}

#[test]
fn a_lone_dash_flag_has_no_conflict() {
    let mut old_only = edit_args("a.ts");
    old_only.old = Some("-".to_owned());
    assert!(dash_conflict(&old_only).is_none());

    let mut new_only = edit_args("a.ts");
    new_only.new = Some("-".to_owned());
    assert!(dash_conflict(&new_only).is_none());

    assert!(dash_conflict(&edit_args("a.ts")).is_none());
}

#[test]
fn a_from_dash_with_a_positional_target_is_refused() {
    let mut args = edit_args("a.ts");
    args.from = Some("-".to_owned());

    let error = error_of(run(&args, &Vec::new(), &nothing()).unwrap_err());

    assert_eq!(error.slug(), "usage");
}

#[test]
fn an_unterminated_fence_block_is_refused() {
    let error = said(parse_batch("@@ a.ts\n<<<<<<< old\nconst cap = 10\n"));

    assert_eq!(error.slug(), "usage");
    assert!(error.text().contains("unterminated `@@` block"), "{error:?}");
}

#[test]
fn one_header_covers_three_blocks_under_it() {
    let specs = parse_batch(
        "@@ a.ts\n\
         <<<<<<< old\n\
         one\n\
         ======= new\n\
         1\n\
         >>>>>>>\n\
         <<<<<<< old\n\
         two\n\
         ======= new\n\
         2\n\
         >>>>>>>\n\
         <<<<<<< old\n\
         three\n\
         ======= new\n\
         3\n\
         >>>>>>>\n",
    )
    .expect("three blocks under one header parse");

    assert_eq!(specs.len(), 3);
    assert!(specs.iter().all(|spec| spec.raw == "a.ts"));
}

#[test]
fn blank_lines_between_a_header_and_its_first_block_are_ignored() {
    let specs = parse_batch(
        "@@ a.ts\n\
         \n\
         \n\
         <<<<<<< old\n\
         cap = 10\n\
         ======= new\n\
         cap = 20\n\
         >>>>>>>\n",
    )
    .expect("blank lines before the first block parse");

    assert_eq!(specs.len(), 1);
}

#[test]
fn a_second_block_under_one_insert_header_is_refused_as_ambiguous() {
    let error = said(parse_batch(
        "@@ c.ts insert-after @'^import'\n\
         ======= new\n\
         import a\n\
         >>>>>>>\n\
         ======= new\n\
         import b\n\
         >>>>>>>\n",
    ));

    assert_eq!(error.slug(), "usage");
    assert!(error.text().contains("ambiguous"), "{error:?}");
}

#[test]
fn the_jsonl_form_maps_if_normalize_and_insert_before_onto_the_spec() {
    let specs = parse_batch(
        "{\"file\":\"a.md\",\"old\":\"a\",\"new\":\"b\",\"normalize\":true,\"if\":\"sha:0123456789ab\"}\n\
         {\"file\":\"b.ts\",\"insert_before\":\"#usage\",\"new\":\"// doc\"}\n",
    )
    .expect("the JSONL form parses");

    assert!(specs[0].normalize);
    assert_eq!(
        specs[0].if_sha.as_ref().map(|sha| sha.hex.as_str()),
        Some("0123456789ab")
    );
    assert!(
        matches!(&specs[1].op, EditOp::Insert { side: AnchorSide::Before, anchor, .. }
            if anchor == "#usage"),
        "{:?}",
        specs[1].op
    );
}

#[test]
fn a_jsonl_object_that_names_none_of_them_takes_the_defaults() {
    let specs = parse_batch("{\"file\":\"a.ts\",\"old\":\"a\",\"new\":\"b\"}\n")
        .expect("the JSONL form parses");

    assert!(!specs[0].normalize);
    assert!(specs[0].if_sha.is_none());
    assert!(
        matches!(specs[0].op, EditOp::Replace { all: false, .. }),
        "{:?}",
        specs[0].op
    );
}

#[test]
fn a_jsonl_line_with_an_unknown_key_is_refused_and_writes_nothing() {
    let error = said(parse_batch(
        "{\"file\":\"a.ts\",\"old\":\"const cap = 10\",\"neww\":\"const cap = 20\"}\n",
    ));

    assert_eq!(error.slug(), "usage");
    assert!(error.text().contains("line 1"), "{error:?}");
}

#[test]
fn a_jsonl_line_missing_new_is_refused_and_writes_nothing() {
    let error = said(parse_batch("{\"file\":\"a.ts\",\"old\":\"const cap = 10\"}\n"));

    assert_eq!(error.slug(), "usage");
    assert!(error.text().contains("line 1"), "{error:?}");
}

#[test]
fn a_jsonl_line_with_a_non_string_new_is_refused() {
    let error = said(parse_batch("{\"file\":\"a.ts\",\"old\":\"const cap = 10\",\"new\":2}\n"));

    assert_eq!(error.slug(), "usage");
    assert!(error.text().contains("line 1"), "{error:?}");
}

#[test]
fn a_jsonl_line_with_both_old_and_insert_after_is_refused() {
    let error = said(parse_batch(
        "{\"file\":\"a.ts\",\"old\":\"x\",\"insert_after\":\"@'^x'\",\"new\":\"y\"}\n",
    ));

    assert_eq!(error.slug(), "usage");
    assert!(error.text().contains("line 1"), "{error:?}");
}

#[test]
fn two_malformed_jsonl_lines_both_name_their_line() {
    let error = said(parse_batch(
        "{\"file\":\"a.ts\",\"old\":\"x\",\"neww\":\"y\"}\n\
         {\"file\":\"b.ts\",\"new\":2}\n",
    ));

    assert_eq!(error.slug(), "usage");
    let text = error.text();
    assert!(text.contains("line 1"), "{text}");
    assert!(text.contains("line 2"), "{text}");
}

#[test]
fn a_jsonl_if_shorter_than_12_hex_is_refused_as_usage() {
    let error = said(parse_batch(
        "{\"file\":\"a.ts\",\"old\":\"x\",\"new\":\"y\",\"if\":\"sha:abc\"}\n",
    ));

    assert_eq!(error.slug(), "usage");
    assert!(error.text().contains("line 1"), "{error:?}");
}

#[test]
fn a_fenced_block_missing_new_is_refused_and_names_the_header_line() {
    let error = said(parse_batch("@@ a.ts\n<<<<<<< old\nconst cap = 10\n>>>>>>>\n"));

    assert_eq!(error.slug(), "usage");
    assert!(error.text().contains("line 1"), "{error:?}");
}

#[test]
fn a_fenced_insert_block_with_an_old_section_is_refused() {
    let error = said(parse_batch(
        "@@ a.ts insert-after @'^x'\n\
         <<<<<<< old\n\
         x\n\
         ======= new\n\
         y\n\
         >>>>>>>\n",
    ));

    assert_eq!(error.slug(), "usage");
    assert!(error.text().contains("line 2"), "{error:?}");
}

#[test]
fn a_fenced_replace_block_with_no_old_section_is_refused() {
    let error = said(parse_batch("@@ a.ts\n======= new\nconst cap = 20\n>>>>>>>\n"));

    assert_eq!(error.slug(), "usage");
    assert!(error.text().contains("line 1"), "{error:?}");
}

#[test]
fn text_outside_a_fenced_block_is_refused_and_names_its_own_line() {
    let error =
        said(parse_batch("@@ a.ts\n<<<<<<< old\nx\n======= new\ny\n>>>>>>>\nstray\n"));

    assert_eq!(error.slug(), "usage");
    assert!(error.text().contains("line 7"), "{error:?}");
}

#[test]
fn a_from_input_that_is_neither_json_nor_a_fence_block_is_refused() {
    let error = said(parse_batch("\n  a.ts --old x --new y\n"));

    assert_eq!(error.slug(), "usage");
    assert!(
        error
            .text()
            .contains("expected a JSON object (`{`) or a `@@ <path>` block"),
        "{error:?}"
    );
}

#[test]
fn the_guessed_span_command_escapes_anchors_counts_and_quotes() {
    let content = "a {\n}\nb\n}\n";

    let command = insert_after_line("f.txt", content, 4, b"x'y");

    assert_eq!(
        command,
        r"lets edit f.txt --insert-after '@'\''^\}$'\''+2' --new 'x'\''y'"
    );
}

#[test]
fn a_unique_last_line_gets_no_occurrence_suffix() {
    let command = insert_after_line("src/g.kt", "val limit = 20\n", 1, b"x");

    assert_eq!(
        command,
        r"lets edit src/g.kt --insert-after '@'\''^val limit = 20$'\''' --new x"
    );
}

/// Files held in memory, in place of a directory.
struct Tree {
    files: Vec<(String, String)>,
}

fn tree(files: &[(&str, &str)]) -> Tree {
    Tree {
        files: files
            .iter()
            .map(|(path, content)| ((*path).to_owned(), (*content).to_owned()))
            .collect(),
    }
}

fn key(path: &str) -> String {
    path.trim_start_matches("./").to_owned()
}

impl Tree {
    fn read(&self, path: &str) -> &str {
        let at = key(path);
        &self.files.iter().find(|(name, _)| *name == at).expect("the file is there").1
    }

    fn write(&mut self, path: &str, content: Vec<u8>) {
        let at = key(path);
        let file = self.files.iter_mut().find(|(name, _)| *name == at).expect("the file is there");
        file.1 = String::from_utf8(content).expect("the fixtures are UTF-8");
    }
}

fn places(hay: &[u8], needle: &[u8]) -> Vec<usize> {
    let mut out = Vec::new();
    let mut at = 0;
    while at + needle.len() <= hay.len() {
        if !needle.is_empty() && hay[at..].starts_with(needle) {
            out.push(at);
            at += needle.len();
        } else {
            at += 1;
        }
    }
    out
}

fn search(path: &str, hay: &[u8], needle: &[u8], all: bool) -> Found {
    let located = |at: usize| Located {
        span: Span { start: at, end: at + needle.len() },
        normalized: false,
    };
    let found = places(hay, needle);
    match found.len() {
        0 => Found::NotFound { nearest: None, normalized_hint: None },
        1 => Found::Unique(located(found[0])),
        _ if all => Found::All(found.into_iter().map(located).collect()),
        _ => Found::Ambiguous(
            found
                .into_iter()
                .map(|at| Candidate {
                    path: path.to_owned(),
                    line: 1 + hay[..at].iter().filter(|byte| **byte == b'\n').count(),
                    text: String::from_utf8_lossy(needle).into_owned(),
                })
                .collect(),
        ),
    }
}

/// What an anchor such as `@'^import'` names, and the line it finds.
fn anchored(op: &EditOp, content: &[u8]) -> (Kind, Lookup) {
    let EditOp::Insert { anchor, .. } = op else {
        return (Kind::Whole, Lookup::Unasked);
    };
    let pattern = anchor.trim_start_matches('@').trim_matches('\'').to_owned();
    let regex = regex::Regex::new(&pattern).expect("the anchors compile");
    let text = String::from_utf8_lossy(content).into_owned();
    let line = text.lines().position(|line| regex.is_match(line));
    (
        Kind::Regex { pattern, occurrence: 1 },
        line.map_or(Lookup::NoLine, |at| Lookup::Line(at + 1)),
    )
}

fn sha() -> Sha12 {
    Sha12 { hex: "0123456789ab".to_owned() }
}

fn parsed() -> Checked {
    Checked::Parsed(Layer1 {
        label: "structure".to_owned(),
        ok: true,
        status: "ok".to_owned(),
        errors_before: 0,
        errors_after: 0,
    })
}

/// One file's edits, each on what the one before it left.
fn validate(
    tree: &Tree,
    specs: &[EditSpec],
    group: &Group,
    omitted: &mut Vec<Omission>,
    stash: &mut Option<EditResult>,
) -> Result<Plan, Error> {
    let path = group.file.as_str();
    let fold = Fold { pairs: Vec::new() };
    let mut trial = Trial::new(path.to_owned());
    while let Some(member) = trial.next(group) {
        let spec = &specs[member];
        trial.start(spec, Some(Ok((tree.read(path).as_bytes().to_vec(), sha()))), None)?;
        let (kind, lookup) = anchored(&spec.op, &trial.before);
        if let Some((scope, needle)) = trial.prepare(spec, path, &kind, &lookup)? {
            let all = matches!(spec.op, EditOp::Replace { all: true, .. });
            let found = search(path, &trial.before[scope.start..scope.end], &needle, all);
            trial.conclude(spec, found, &fold)?;
        }
        trial = trial.tried(&parsed(), sha(), omitted, stash)?;
    }
    trial.planned()
}

/// The whole batch. `verdict` is what the checker says after the writing, where one is asked for.
fn apply_checked(tree: &mut Tree, specs: &[EditSpec], verdict: Option<CommandVerdict>) -> Outcome {
    let files: Vec<String> = specs.iter().map(|spec| spec.raw.clone()).collect();
    let mut batch = drive::Batch {
        total: specs.len(),
        check: verdict.as_ref().map(|_| "true".to_owned()),
        max_bytes: 65_536,
        omitted: Vec::new(),
        plans: Vec::new(),
        checkers: Vec::new(),
        landed: Vec::new(),
        failure: None,
    };
    let mut verdict = verdict;
    let mut event = drive::Event::Started;
    loop {
        event = match drive::apply(&mut batch, &files, event) {
            drive::Action::Guard => {
                drive::Event::Guarded(Ok(files.iter().map(|file| key(file)).collect()))
            },
            drive::Action::Validate(groups) => {
                let several = groups.len() > 1;
                let mut plans = Vec::new();
                let mut errors = Vec::new();
                let mut failures = Vec::new();
                let mut stash = None;
                for group in &groups {
                    let mut own = Vec::new();
                    match validate(tree, specs, group, &mut own, &mut stash) {
                        Ok(plan) => plans.push(plan),
                        Err(error) => {
                            errors.push(error);
                            failures.push(group.file.clone());
                        },
                    }
                    merge_omissions(&mut batch.omitted, own, &group.file, several);
                }
                drive::Event::Validated(if errors.is_empty() {
                    Ok(plans)
                } else {
                    Err(drive::Refusal { errors, failures, stash, header: 0 })
                })
            },
            drive::Action::Resolve(value) => {
                drive::Event::Resolved(Ok(lets::edit::check::literal_checker(&value)))
            },
            drive::Action::Baseline => drive::Event::Baselined,
            drive::Action::Write => {
                for plan in &batch.plans {
                    tree.write(&plan.path, plan.after.clone());
                }
                let landed = batch.plans.iter().map(|plan| plan.path.clone()).collect();
                drive::Event::Written(Ok(landed))
            },
            drive::Action::Settle => {
                let results: usize = batch.plans.iter().map(|plan| plan.detail.len()).sum();
                drive::Event::Settled {
                    verdicts: verdict.take().into_iter().collect(),
                    headers: vec![0; results],
                }
            },
            drive::Action::Restore => {
                let mut restored = Vec::new();
                for plan in &batch.plans {
                    tree.write(&plan.path, plan.before.clone());
                    restored.push(plan.path.clone());
                }
                drive::Event::Restored(Reverted { restored, not_restored: Vec::new() })
            },
            drive::Action::Answer(outcome) => return outcome,
        };
    }
}

fn apply(tree: &mut Tree, specs: &[EditSpec]) -> Outcome {
    apply_checked(tree, specs, None)
}

#[test]
fn an_insert_whose_new_ends_in_a_newline_adds_that_one_line_only() {
    let mut tree = tree(&[("m.py", "import os\nx = 1\n")]);
    let specs = parse_batch(
        "{\"file\":\"m.py\",\"insert_after\":\"@'^import'\",\"new\":\"import sys\\n\"}\n",
    )
    .expect("the JSONL form parses");

    let outcome = apply(&mut tree, &specs);

    assert!(outcome.error.is_none(), "{:?}", outcome.error);
    assert_eq!(tree.read("m.py"), "import os\nimport sys\nx = 1\n");
    let Body::Edit(results) = &outcome.response.body else {
        panic!("expected Body::Edit");
    };
    let EditKind::Inserted { lines, anchor } = &results[0].kind else {
        panic!("expected an insert, got {:?}", results[0].kind);
    };
    assert_eq!((*lines, anchor.side, anchor.at.as_str()), (1, AnchorSide::After, "line 1"));
}

#[test]
fn a_jsonl_batch_applies_every_edit() {
    let mut tree = tree(&[("a.ts", "const cap = 10\n"), ("c.ts", "import x from 'y'\n")]);
    let specs = parse_batch(
        "{\"file\":\"a.ts\",\"old\":\"const cap = 10\",\"new\":\"const cap = 20\"}\n\
         {\"file\":\"c.ts\",\"insert_after\":\"@'^import'\",\"new\":\"import { limit } from \
         './a'\"}\n",
    )
    .expect("the JSONL form parses");

    let outcome = apply(&mut tree, &specs);

    assert!(outcome.error.is_none(), "{:?}", outcome.error);
    assert_eq!(tree.read("a.ts"), "const cap = 20\n");
    assert_eq!(tree.read("c.ts"), "import x from 'y'\nimport { limit } from './a'\n");
}

#[test]
fn a_fenced_batch_applies_every_edit_and_counts_them() {
    let mut tree = tree(&[
        ("a.ts", "const cap = 10\n"),
        ("b.ts", "import { cap } from './a'\n"),
        ("c.ts", "import x from 'y'\n"),
    ]);
    let specs = parse_batch(
        "@@ a.ts\n\
         <<<<<<< old\n\
         const cap = 10\n\
         ======= new\n\
         const cap = 20\n\
         >>>>>>>\n\
         @@ b.ts\n\
         <<<<<<< old\n\
         import { cap }\n\
         ======= new\n\
         import { cap, limit }\n\
         >>>>>>>\n\
         @@ c.ts insert-after @'^import'\n\
         ======= new\n\
         import { limit } from './a'\n\
         >>>>>>>\n",
    )
    .expect("the fence form parses");

    let outcome = apply(&mut tree, &specs);

    assert!(outcome.error.is_none(), "{:?}", outcome.error);
    assert_eq!(tree.read("a.ts"), "const cap = 20\n");
    assert_eq!(tree.read("b.ts"), "import { cap, limit } from './a'\n");
    assert_eq!(tree.read("c.ts"), "import x from 'y'\nimport { limit } from './a'\n");
    let text = &outcome.response.summary;
    assert!(
        text.contains(
            "3 files \u{b7} 3 edits \u{b7} all applied \u{b7} checks: structure ok \u{d7}3"
        ),
        "{text}"
    );
}

#[test]
fn one_ambiguous_edit_in_a_batch_writes_none_of_it() {
    let b_before = "import { cap } from './a'\nimport { cap } from './legacy'\n";
    let mut tree = tree(&[
        ("a.ts", "const cap = 10\n"),
        ("b.ts", b_before),
        ("c.ts", "import x from 'y'\n"),
    ]);
    let specs = parse_batch(
        "{\"file\":\"a.ts\",\"old\":\"const cap = 10\",\"new\":\"const cap = 20\"}\n\
         {\"file\":\"b.ts\",\"old\":\"import { cap }\",\"new\":\"import { cap, limit }\"}\n\
         {\"file\":\"c.ts\",\"old\":\"import x\",\"new\":\"import y\"}\n",
    )
    .expect("the JSONL form parses");

    let outcome = apply(&mut tree, &specs);

    assert_eq!(tree.read("a.ts"), "const cap = 10\n");
    assert_eq!(tree.read("b.ts"), b_before);
    assert_eq!(tree.read("c.ts"), "import x from 'y'\n");
    let text = outcome.response.summary.clone();
    assert!(
        text.contains("0 of 3 applied \u{b7} nothing written \u{b7} fix b.ts and re-run"),
        "{text}"
    );
    assert_eq!(error_of(outcome).slug(), "ambiguous");
}

#[test]
fn a_batch_with_two_failing_edits_names_both_files_and_both_failures() {
    let mut tree = tree(&[
        ("a.ts", "const cap = 10\n"),
        ("b.ts", "const floor = 1\n"),
        ("c.ts", "const top = 9\n"),
    ]);
    let specs = parse_batch(
        "{\"file\":\"a.ts\",\"old\":\"const cap = 10\",\"new\":\"const cap = 20\"}\n\
         {\"file\":\"b.ts\",\"old\":\"zzz\",\"new\":\"y\"}\n\
         {\"file\":\"c.ts\",\"old\":\"qqq\",\"new\":\"y\"}\n",
    )
    .expect("the JSONL form parses");

    let outcome = apply(&mut tree, &specs);

    assert_eq!(tree.read("a.ts"), "const cap = 10\n");
    assert_eq!(tree.read("b.ts"), "const floor = 1\n");
    assert_eq!(tree.read("c.ts"), "const top = 9\n");
    let text = outcome.response.summary.clone();
    assert!(
        text.contains("0 of 3 applied \u{b7} nothing written \u{b7} fix b.ts, c.ts and re-run"),
        "{text}"
    );
    let error = error_of(outcome);
    assert_eq!(error.slug(), "not_found");
    let stderr = error.text();
    assert!(stderr.contains("in b.ts") && stderr.contains("in c.ts"), "{stderr}");
}

#[test]
fn a_jsonl_batch_entry_with_a_whitespace_only_miss_gets_the_indent_hint() {
    let mut tree = tree(&[("a.ts", "function f() {\n        return 1\n}\n")]);
    let specs = parse_batch(
        "{\"file\":\"a.ts\",\"old\":\"          return 1\",\"new\":\"          return 2\"}\n",
    )
    .expect("the JSONL form parses");

    let error = error_of(apply(&mut tree, &specs));

    assert!(
        error.text().contains(
            "matches line 2 except leading whitespace: the file indents it 8 \
             spaces, --old has 10"
        ),
        "{error:?}"
    );
}

#[test]
fn a_fenced_batch_entry_with_a_whitespace_only_miss_gets_the_indent_hint() {
    let mut tree = tree(&[("a.ts", "function f() {\n        return 1\n}\n")]);
    let ten = " ".repeat(10);
    let text =
        format!("@@ a.ts\n<<<<<<< old\n{ten}return 1\n======= new\n{ten}return 2\n>>>>>>>\n");
    let specs = parse_batch(&text).expect("the fence form parses");

    let error = error_of(apply(&mut tree, &specs));

    assert!(
        error.text().contains(
            "matches line 2 except leading whitespace: the file indents it 8 \
             spaces, --old has 10"
        ),
        "{error:?}"
    );
}

#[test]
fn two_edits_on_one_file_both_land_however_the_path_is_spelled() {
    let mut tree = tree(&[("a.ts", "const cap = 10\nconst floor = 1\n")]);
    let specs = parse_batch(
        "{\"file\":\"a.ts\",\"old\":\"const cap = 10\",\"new\":\"const cap = 20\"}\n\
         {\"file\":\"./a.ts\",\"old\":\"const floor = 1\",\"new\":\"const floor = 2\"}\n",
    )
    .expect("the JSONL form parses");

    let outcome = apply(&mut tree, &specs);

    assert!(outcome.error.is_none(), "{:?}", outcome.error);
    assert_eq!(tree.read("a.ts"), "const cap = 20\nconst floor = 2\n");
    let text = &outcome.response.summary;
    assert!(text.contains("1 file \u{b7} 2 edits \u{b7} all applied"), "{text}");
}

#[test]
fn the_second_edit_on_a_file_matches_what_the_first_one_made_of_it() {
    let mut tree = tree(&[("a.ts", "const cap = 10\n")]);
    let specs = parse_batch(
        "{\"file\":\"a.ts\",\"old\":\"const cap = 10\",\"new\":\"const cap = 20\"}\n\
         {\"file\":\"a.ts\",\"old\":\"const cap = 20\",\"new\":\"const cap = 30\"}\n",
    )
    .expect("the JSONL form parses");

    let outcome = apply(&mut tree, &specs);

    assert!(outcome.error.is_none(), "{:?}", outcome.error);
    assert_eq!(tree.read("a.ts"), "const cap = 30\n");
}

#[test]
fn an_ambiguous_second_edit_on_one_file_writes_none_of_the_batch() {
    let before = "const cap = 10\nconst floor = 1\nconst floor = 1\n";
    let mut tree = tree(&[("a.ts", before)]);
    let specs = parse_batch(
        "{\"file\":\"a.ts\",\"old\":\"const cap = 10\",\"new\":\"const cap = 20\"}\n\
         {\"file\":\"a.ts\",\"old\":\"const floor = 1\",\"new\":\"const floor = 2\"}\n",
    )
    .expect("the JSONL form parses");

    let outcome = apply(&mut tree, &specs);

    assert_eq!(tree.read("a.ts"), before, "validation-atomic: nothing is written");
    let text = outcome.response.summary.clone();
    assert!(
        text.contains("0 of 2 applied \u{b7} nothing written \u{b7} fix a.ts and re-run"),
        "{text}"
    );
    assert_eq!(error_of(outcome).slug(), "ambiguous");
}

#[test]
fn a_jsonl_new_of_empty_string_deletes_the_match() {
    let mut tree = tree(&[("a.ts", "const cap = 10\n")]);
    let specs = parse_batch("{\"file\":\"a.ts\",\"old\":\"const cap = 10\\n\",\"new\":\"\"}\n")
        .expect("an empty \"new\" is a legal deletion");

    let outcome = apply(&mut tree, &specs);

    assert!(outcome.error.is_none(), "{:?}", outcome.error);
    assert_eq!(tree.read("a.ts"), "");
}

#[test]
fn a_checker_that_fails_after_the_batch_puts_every_file_back() {
    let mut tree = tree(&[("a.ts", "const cap = 10\n"), ("b.ts", "const floor = 1\n")]);
    let specs = parse_batch(
        "{\"file\":\"a.ts\",\"old\":\"10\",\"new\":\"20\"}\n\
         {\"file\":\"b.ts\",\"old\":\"1\",\"new\":\"2\"}\n",
    )
    .expect("the JSONL form parses");

    let verdict = CommandVerdict::Failed("boom".to_owned());
    let outcome = apply_checked(&mut tree, &specs, Some(verdict));

    assert_eq!(tree.read("a.ts"), "const cap = 10\n");
    assert_eq!(tree.read("b.ts"), "const floor = 1\n");
    assert_eq!(error_of(outcome).slug(), "check_failed");
}

#[test]
fn a_checker_that_passes_is_named_in_the_answer() {
    let mut tree = tree(&[("a.ts", "const cap = 10\n")]);
    let specs = parse_batch("{\"file\":\"a.ts\",\"old\":\"10\",\"new\":\"20\"}\n")
        .expect("the JSONL form parses");

    let outcome = apply_checked(&mut tree, &specs, Some(CommandVerdict::Passed));

    assert!(outcome.error.is_none(), "{:?}", outcome.error);
    assert_eq!(tree.read("a.ts"), "const cap = 20\n");
    let Body::Edit(results) = &outcome.response.body else {
        panic!("expected Body::Edit");
    };
    let check = results[0].check.as_ref().expect("the checker's word");
    assert_eq!((check.layer.as_str(), check.status.as_str()), ("true", "ok"));
}
