use lets::edit::args::Stdin;
use lets::edit::check::CommandVerdict;
use lets::edit::drive::WriteFailure;
use lets::edit::report::Reverted;
use lets::error::{CheckLayer, Error};
use lets::output::{
    Body, Marker, Omission, Outcome, Sha12, ShaPair, TransformFormat, TransformOp, TransformResult,
};
use lets::transform::carry::{check_hashes, text_left, validate, Step};
use lets::transform::drive;
use lets::transform::hunk::{Hunk, Row};
use lets::transform::region::region;
use lets::transform::report::{checker_name, group};
use lets::transform::run;
use lets::transform::spec::{
    named_keys, parse_batch, targets, Flag, Op, OpKind, Operand, Target, TransformArgs,
};

fn args(file: &str) -> TransformArgs {
    TransformArgs {
        file: Some(file.to_owned()),
        set: Vec::new(),
        delete: Vec::new(),
        append: Vec::new(),
        order: Vec::new(),
        if_sha: None,
        from: None,
        check: None,
        check_timeout: 60,
    }
}

fn flag(raw: &str) -> Flag {
    Flag {
        raw: raw.to_owned(),
        split: raw.split_once('=').map(|(key, value)| (key.to_owned(), value.to_owned())),
    }
}

fn typed(file: &str, ops: &[(OpKind, &str)]) -> TransformArgs {
    let mut args = args(file);
    for (kind, raw) in ops {
        args.order.push(*kind);
        match kind {
            OpKind::Assign => args.set.push(flag(raw)),
            OpKind::Delete => args.delete.push((*raw).to_owned()),
            OpKind::Append => args.append.push(flag(raw)),
        }
    }
    args
}

fn nothing() -> Stdin {
    Stdin::Bytes(Vec::new())
}

fn asked(args: &TransformArgs) -> Vec<Target> {
    run(args, &nothing(), &mut Vec::new()).expect("the call is well formed")
}

fn refused(args: &TransformArgs) -> Error {
    run(args, &nothing(), &mut Vec::new()).unwrap_err().error.expect("a failure")
}

fn batch_of(text: &str) -> Result<Vec<Target>, Error> {
    parse_batch(text, &mut Vec::new())
}

fn said(result: Result<Vec<Target>, Error>) -> Error {
    match result {
        Ok(targets) => panic!("expected a refusal, got {targets:?}"),
        Err(error) => error,
    }
}

fn sha() -> Sha12 {
    Sha12 { hex: "0123456789ab".to_owned() }
}

fn pair() -> ShaPair {
    ShaPair { before: sha(), after: sha() }
}

fn step(entry: TransformOp, line: usize, text: &str) -> Step {
    Step {
        raw_key: entry.key().to_owned(),
        selects: false,
        text: text.to_owned(),
        entry,
        line,
    }
}

fn set(key: &str, line: usize, text: &str) -> Step {
    step(TransformOp::Assigned { key: key.to_owned() }, line, text)
}

fn delete(key: &str, line: usize, text: &str) -> Step {
    step(TransformOp::Deleted { key: key.to_owned() }, line, text)
}

fn append(key: &str, line: usize, text: &str) -> Step {
    step(TransformOp::Appended { key: key.to_owned() }, line, text)
}

fn mark(marker: Marker) -> char {
    match marker {
        Marker::Replaced => '~',
        Marker::Added => '+',
        Marker::Deleted => '-',
        _ => ' ',
    }
}

/// The shown lines, as a terminal shows them.
fn shown(result: &TransformResult) -> String {
    let region = result.region.as_ref().expect("a region");
    region
        .lines
        .iter()
        .map(|line| format!("{}{}\t{}\n", line.number, mark(line.marker), line.text))
        .collect()
}

fn changed(path: &str, format: TransformFormat, before: &str, steps: Vec<Step>) -> TransformResult {
    let mut omitted = Vec::new();
    let result = validate(path, format, before, steps, pair(), false, &mut omitted);
    assert!(omitted.is_empty(), "{omitted:?}");
    result
}

const ABC_JSON: &str = "{\n  \"a\": 1,\n  \"b\": 2,\n  \"c\": 3\n}\n";
const SETTINGS: &str =
    "# who may run what\nallow:\n  - git\n  - rg\nlegacy:\n  token: abc # rotate me\n  keep: 1\n";

#[test]
fn a_set_followed_by_a_delete_above_it_marks_the_line_where_it_ends_up_json() {
    let result = changed("o.json", TransformFormat::Json, ABC_JSON, vec![
        set("c", 4, "{\n  \"a\": 1,\n  \"b\": 2,\n  \"c\": 9\n}\n"),
        delete("a", 2, "{\n  \"b\": 2,\n  \"c\": 9\n}\n"),
    ]);
    assert_eq!(result.lines, [2, 3]);
    assert_eq!(
        shown(&result),
        "1 \t{\n\
         2-\t  \"a\": 1,          (deleted)\n\
         2 \t  \"b\": 2,\n\
         3~\t  \"c\": 9\n\
         4 \t}\n"
    );
}

#[test]
fn a_delete_followed_by_a_set_below_it_marks_the_same_line_json() {
    let result = changed("o.json", TransformFormat::Json, ABC_JSON, vec![
        delete("a", 2, "{\n  \"b\": 2,\n  \"c\": 3\n}\n"),
        set("c", 3, "{\n  \"b\": 2,\n  \"c\": 9\n}\n"),
    ]);
    assert_eq!(result.lines, [2, 3]);
    assert_eq!(
        shown(&result),
        "1 \t{\n\
         2-\t  \"a\": 1,          (deleted)\n\
         2 \t  \"b\": 2,\n\
         3~\t  \"c\": 9\n\
         4 \t}\n"
    );
}

#[test]
fn a_set_followed_by_a_delete_above_it_marks_the_line_where_it_ends_up_yaml() {
    let result = changed("o.yaml", TransformFormat::Yaml, "a: 1\nb: 2\nc: 3\n", vec![
        set("c", 3, "a: 1\nb: 2\nc: 9\n"),
        delete("a", 1, "b: 2\nc: 9\n"),
    ]);
    assert_eq!(result.lines, [1, 2]);
    assert_eq!(
        shown(&result),
        "1-\ta: 1          (deleted)\n\
         1 \tb: 2\n\
         2~\tc: 9\n"
    );
}

#[test]
fn a_set_followed_by_a_delete_above_it_marks_the_line_where_it_ends_up_toml() {
    let result = changed("o.toml", TransformFormat::Toml, "a = 1\nb = 2\nc = 3\n", vec![
        set("c", 3, "a = 1\nb = 2\nc = 9\n"),
        delete("a", 1, "b = 2\nc = 9\n"),
    ]);
    assert_eq!(result.lines, [1, 2]);
    assert_eq!(
        shown(&result),
        "1-\ta = 1          (deleted)\n\
         1 \tb = 2\n\
         2~\tc = 9\n"
    );
}

#[test]
fn three_ops_each_land_on_the_written_files_line_json() {
    let result = changed("o.json", TransformFormat::Json, ABC_JSON, vec![
        set("c", 4, "{\n  \"a\": 1,\n  \"b\": 2,\n  \"c\": 9\n}\n"),
        delete("a", 2, "{\n  \"b\": 2,\n  \"c\": 9\n}\n"),
        delete("b", 2, "{\n  \"c\": 9\n}\n"),
    ]);
    assert_eq!(result.lines, [2]);
    assert_eq!(
        shown(&result),
        "1 \t{\n\
         2-\t  \"a\": 1,          (deleted)\n\
         2-\t  \"b\": 2,          (deleted)\n\
         2~\t  \"c\": 9\n\
         3 \t}\n"
    );
}

#[test]
fn three_ops_each_land_on_the_written_files_line_yaml() {
    let result = changed("o.yaml", TransformFormat::Yaml, "a: 1\nb: 2\nc: 3\n", vec![
        set("c", 3, "a: 1\nb: 2\nc: 9\n"),
        delete("a", 1, "b: 2\nc: 9\n"),
        delete("b", 1, "c: 9\n"),
    ]);
    assert_eq!(result.lines, [1]);
    assert_eq!(
        shown(&result),
        "1-\ta: 1          (deleted)\n\
         1-\tb: 2          (deleted)\n\
         1~\tc: 9\n"
    );
}

#[test]
fn three_ops_each_land_on_the_written_files_line_toml() {
    let result = changed("o.toml", TransformFormat::Toml, "a = 1\nb = 2\nc = 3\n", vec![
        set("c", 3, "a = 1\nb = 2\nc = 9\n"),
        delete("a", 1, "b = 2\nc = 9\n"),
        delete("b", 1, "c = 9\n"),
    ]);
    assert_eq!(result.lines, [1]);
    assert_eq!(
        shown(&result),
        "1-\ta = 1          (deleted)\n\
         1-\tb = 2          (deleted)\n\
         1~\tc = 9\n"
    );
}

#[test]
fn a_key_set_then_deleted_shows_only_its_original_line_deleted() {
    let result = changed("o.yaml", TransformFormat::Yaml, "a: 1\nb: 2\n", vec![
        set("a", 1, "a: 3\nb: 2\n"),
        delete("a", 1, "b: 2\n"),
    ]);
    assert_eq!(result.lines, [1]);
    assert_eq!(
        shown(&result),
        "1-\ta: 1          (deleted)\n\
         1 \tb: 2\n"
    );
}

#[test]
fn deleting_a_yaml_keys_only_child_marks_the_parent_rewritten() {
    let before = "allow:\n  - ls\nlegacy:\n  token: abc123 # remove me\n";
    let result = changed("settings.yaml", TransformFormat::Yaml, before, vec![delete(
        "legacy.token",
        4,
        "allow:\n  - ls\nlegacy: {}\n",
    )]);
    assert_eq!(result.lines, [4]);
    assert_eq!(
        shown(&result),
        "1 \tallow:\n\
         2 \t  - ls\n\
         3~\tlegacy: {}\n\
         4-\t  token: abc123 # remove me          (deleted)\n"
    );
}

#[test]
fn deleting_a_json_keys_only_child_marks_the_collapsed_parent() {
    let before = "{\n  \"legacy\": {\n    \"token\": \"x\"\n  },\n  \"b\": 1\n}\n";
    let result = changed("o.json", TransformFormat::Json, before, vec![delete(
        "legacy.token",
        3,
        "{\n  \"legacy\": {},\n  \"b\": 1\n}\n",
    )]);
    assert_eq!(result.lines, [3]);
    assert_eq!(
        shown(&result),
        "1 \t{\n\
         2~\t  \"legacy\": {},\n\
         3-\t    \"token\": \"x\"          (deleted)\n\
         3-\t  },          (deleted)\n\
         3 \t  \"b\": 1\n\
         4 \t}\n"
    );
}

#[test]
fn a_block_deleted_at_the_end_names_every_removed_line_and_no_gap() {
    let before = "allow:\n  - ls\nlegacy:\n  token: x\n  keep: 1\n";
    let result = changed("s.yaml", TransformFormat::Yaml, before, vec![delete(
        "legacy",
        3,
        "allow:\n  - ls\n",
    )]);
    assert_eq!(result.lines, [3]);
    assert_eq!(
        shown(&result),
        "1 \tallow:\n\
         2 \t  - ls\n\
         3-\tlegacy:          (deleted)\n\
         3-\t  token: x          (deleted)\n\
         3-\t  keep: 1          (deleted)\n"
    );
    let check = result.check.as_ref().expect("a check");
    assert_eq!((check.layer.as_str(), check.status.as_str()), ("yaml", "ok"));
}

#[test]
fn a_set_renders_the_new_line_with_no_deleted_annotation() {
    let after = SETTINGS.replace("keep: 1", "keep: 2");
    let result = changed("settings.yaml", TransformFormat::Yaml, SETTINGS, vec![set(
        "legacy.keep",
        7,
        &after,
    )]);
    let text = shown(&result);
    assert!(text.contains("7~\t  keep: 2\n"), "{text}");
    assert!(!text.contains("(deleted)"), "{text}");
}

#[test]
fn a_delete_renders_the_original_line_marked_deleted() {
    let appended = SETTINGS.replace("  - rg\n", "  - rg\n  - gh\n");
    let after = appended.replace("  token: abc # rotate me\n", "");
    let result = changed("settings.yaml", TransformFormat::Yaml, SETTINGS, vec![
        append("allow", 5, &appended),
        delete("legacy.token", 7, &after),
    ]);
    let text = shown(&result);
    assert!(
        text.contains("-\t  token: abc # rotate me          (deleted)\n"),
        "{text}"
    );
    assert!(text.contains("+\t  - gh\n"), "{text}");
}

#[test]
fn two_changes_further_apart_than_their_context_name_the_gap() {
    let written: Vec<String> = (1..=12).map(|n| format!("k{n}: {n}")).collect();
    let mut rows: Vec<Row> = written.iter().map(|line| Row::Kept(line.clone())).collect();
    rows[0] = Row::Written(Some("k1: 0".to_owned()));
    rows[11] = Row::Written(Some("k12: 0".to_owned()));
    let mut omitted = Vec::new();

    region(&written, &rows, &vec![1, 12], &mut omitted).expect("a region");

    assert!(
        matches!(omitted.as_slice(), [Omission::RegionGap { not_shown, .. }] if not_shown == &[(4, 9)]),
        "{omitted:?}"
    );
}

#[test]
fn an_if_that_is_not_12_hex_is_refused_before_anything_is_read() {
    let mut args = typed("app.json", &[(OpKind::Assign, "name=x")]);
    args.if_sha = Some("sha:abc".to_owned());

    let error = refused(&args);

    assert_eq!(error.slug(), "not_found");
    let message = error.text();
    assert!(message.contains("--if sha (must be 12+ hex)"), "{message}");
}

#[test]
fn no_operation_at_all_is_refused() {
    assert_eq!(refused(&args("app.json")).slug(), "not_found");
}

#[test]
fn a_batch_line_with_an_unknown_key_is_refused() {
    let error = said(batch_of("{\"file\":\"a.json\",\"sett\":{\"a\":1}}\n"));
    assert!(error.text().contains("unknown key \"sett\""), "{error:?}");
}

#[test]
fn from_stdin_beside_a_file_is_refused() {
    let mut args = args("a.json");
    args.from = Some("-".to_owned());
    let error = said(targets(&args, &nothing(), &mut Vec::new()));
    assert_eq!(error.slug(), "not_found");
}

#[test]
fn operations_run_in_the_order_they_were_typed() {
    let keys = |args: &TransformArgs| -> Vec<String> {
        asked(args)[0]
            .ops
            .iter()
            .map(|op| match op {
                Op::Assign { key, .. } => format!("set {key}"),
                Op::Delete { key } => format!("delete {key}"),
                Op::Append { key, .. } => format!("append {key}"),
            })
            .collect()
    };
    let append_first = typed("settings.yaml", &[
        (OpKind::Append, "allow[]=gh"),
        (OpKind::Delete, "legacy.token"),
    ]);
    assert_eq!(keys(&append_first), ["append allow", "delete legacy.token"]);

    let delete_first = typed("settings.yaml", &[
        (OpKind::Delete, "legacy.token"),
        (OpKind::Append, "allow[]=gh"),
    ]);
    assert_eq!(keys(&delete_first), ["delete legacy.token", "append allow"]);
}

#[test]
fn the_documented_append_form_and_the_bracket_form_ask_for_the_same() {
    for raw in ["allow=gh", "allow[]=gh"] {
        let targets = asked(&typed("settings.yaml", &[(OpKind::Append, raw)]));
        let [Op::Append { key, value: Operand::Typed(value) }] = targets[0].ops.as_slice() else {
            panic!("expected one append, got {:?}", targets[0].ops);
        };
        assert_eq!((key.as_str(), value.as_str()), ("allow", "gh"));
    }
}

#[test]
fn malformed_from_stdin_input_is_a_usage_error_naming_the_line() {
    for (input, line) in [
        (
            "{\"file\":\"a.json\",\"set\":{\"v\":2}}\nnot json\n",
            "line 2: ",
        ),
        ("[1]\n", "line 1: not a JSON object"),
        ("{\"set\":{\"v\":2}}\n", "line 1: no \"file\""),
        (
            "{\"file\":\"a.json\",\"sett\":{\"v\":2}}\n",
            "line 1: unknown key \"sett\"",
        ),
        (
            "{\"file\":\"a.json\",\"set\":[1]}\n",
            "line 1: \"set\" is not an object",
        ),
        (
            "{\"file\":\"a.json\"}\n",
            "line 1: no \"set\", \"delete\" or \"append\"",
        ),
        ("\n\n", "no targets"),
    ] {
        let error = said(batch_of(input));
        assert_eq!(error.slug(), "usage", "{input:?}");
        assert!(error.text().contains(line), "{input:?}: {error:?}");
    }
}

#[test]
fn well_formed_from_stdin_input_still_parses() {
    let targets = batch_of("{\"file\":\"a.json\",\"set\":{\"v\":2},\"delete\":[\"w\"]}\n")
        .expect("a well-formed batch parses");
    assert_eq!(targets.len(), 1);
    assert_eq!(targets[0].file, "a.json");
    assert_eq!(targets[0].ops.len(), 2);
}

/// A file in memory, with what its editor makes of each operation asked of it.
struct File {
    path: &'static str,
    content: String,
    steps: Option<Result<Vec<Step>, Error>>,
}

fn file(path: &'static str, content: &str, steps: Result<Vec<Step>, Error>) -> File {
    File { path, content: content.to_owned(), steps: Some(steps) }
}

fn absent(path: &str) -> Error {
    Error::NotFound { target: path.to_owned(), what: "absent".to_owned(), nearest: None }
}

/// The whole call; `verdict` is what the checker says after the writing, where one is asked for,
/// and `fails` the file whose writing fails.
fn apply(
    files: &mut Vec<File>,
    targets: &[Target],
    verdict: Option<CommandVerdict>,
    fails: Option<&str>,
) -> Outcome {
    let names: Vec<String> = targets.iter().map(|target| target.file.clone()).collect();
    let mut batch = drive::Batch {
        check: verdict.as_ref().map(|_| "grep -q x".to_owned()),
        no_check: false,
        omitted: Vec::new(),
        files: 0,
        results: Vec::new(),
        landed: Vec::new(),
        failure: None,
    };
    let mut verdict = verdict;
    let mut plans: Vec<(String, String, String)> = Vec::new();
    let mut event = drive::Event::Started;
    loop {
        event = match drive::apply(&mut batch, &names, event) {
            drive::Action::Guard => drive::Event::Guarded(Ok(names.clone())),
            drive::Action::Validate(groups) => {
                let (mut results, mut errors, mut failures) = (Vec::new(), Vec::new(), Vec::new());
                for group in &groups {
                    let file = files.iter_mut().find(|file| file.path == group.file).unwrap();
                    let own: Vec<Target> = group
                        .members
                        .iter()
                        .map(|at| Target {
                            file: targets[*at].file.clone(),
                            ops: Vec::new(),
                            if_sha: targets[*at]
                                .if_sha
                                .as_ref()
                                .map(|sha| Sha12 { hex: sha.hex.clone() }),
                        })
                        .collect();
                    let steps = match check_hashes(&own, &group.file, &sha()) {
                        Some(error) => Err(error),
                        None => file.steps.take().expect("each file is tried once"),
                    };
                    match steps {
                        Ok(steps) => {
                            let after = steps.last().map_or(file.content.clone(), |step| step.text.clone());
                            plans.push((file.path.to_owned(), file.content.clone(), after));
                            results.push(validate(
                                file.path,
                                TransformFormat::Json,
                                &file.content,
                                steps,
                                pair(),
                                false,
                                &mut batch.omitted,
                            ));
                        },
                        Err(error) => {
                            errors.push(error);
                            failures.push(group.file.clone());
                        },
                    }
                }
                drive::Event::Validated(if errors.is_empty() {
                    Ok(results)
                } else {
                    Err(drive::Refusal { errors, failures })
                })
            },
            drive::Action::Baseline => drive::Event::Baselined,
            drive::Action::Write => {
                let mut landed = Vec::new();
                let mut stopped = None;
                for (path, _, after) in &plans {
                    if fails == Some(path.as_str()) {
                        stopped = Some(path.clone());
                        break;
                    }
                    files.iter_mut().find(|file| file.path == path).unwrap().content = after.clone();
                    landed.push(path.clone());
                }
                drive::Event::Written(match stopped {
                    Some(failed) => Err(WriteFailure::Partial {
                        written: landed,
                        failed,
                        detail: "denied".to_owned(),
                    }),
                    None => Ok(landed),
                })
            },
            drive::Action::Settle => drive::Event::Settled(verdict.take().expect("a verdict")),
            drive::Action::Restore => {
                let mut restored = Vec::new();
                for (path, before, _) in &plans {
                    files.iter_mut().find(|file| file.path == path).unwrap().content = before.clone();
                    restored.push(path.clone());
                }
                drive::Event::Restored(Reverted { restored, not_restored: Vec::new() })
            },
            drive::Action::Answer(outcome) => return outcome,
        };
    }
}

fn slug(outcome: &Outcome) -> &str {
    outcome.error.as_ref().map_or("ok", Error::slug)
}

const VERSION: &str = "{\n  \"version\": \"1.0.0\"\n}\n";

#[test]
fn one_invalid_file_in_a_batch_writes_none_of_them() {
    let after = VERSION.replace("1.0.0", "2.0.0");
    let mut files = vec![
        file("a.json", VERSION, Ok(vec![set("version", 2, &after)])),
        file("b.json", VERSION, Err(absent("b.json"))),
    ];
    let targets = batch_of(
        "{\"file\":\"a.json\",\"set\":{\"version\":\"2.0.0\"}}\n\
         {\"file\":\"b.json\",\"delete\":[\"absent\"]}\n",
    )
    .expect("the batch parses");

    let outcome = apply(&mut files, &targets, None, None);

    assert_eq!(slug(&outcome), "not_found");
    assert_eq!(files[0].content, VERSION);
    assert_eq!(files[1].content, VERSION);
    assert!(
        outcome
            .response
            .summary
            .contains("0 of 2 applied \u{b7} nothing written \u{b7} fix b.json and re-run"),
        "{}",
        outcome.response.summary
    );
}

#[test]
fn a_valid_batch_writes_every_file_and_sums_the_checks() {
    let nested = "{\n  \"metadata\": {\n    \"version\": \"1\"\n  }\n}\n";
    let mut files = vec![
        file("a.json", VERSION, Ok(vec![set("version", 2, &VERSION.replace("1.0.0", "1.9.0"))])),
        file(
            "b.json",
            nested,
            Ok(vec![set("metadata.version", 3, &nested.replace("\"1\"", "\"1.48.180\""))]),
        ),
    ];
    let targets = batch_of(
        "{\"file\":\"a.json\",\"set\":{\"version\":\"1.9.0\"}}\n\
         {\"file\":\"b.json\",\"set\":{\"metadata.version\":\"1.48.180\"}}\n",
    )
    .expect("the batch parses");

    let outcome = apply(&mut files, &targets, None, None);

    assert_eq!(slug(&outcome), "ok");
    assert_eq!(files[0].content, "{\n  \"version\": \"1.9.0\"\n}\n");
    assert_eq!(
        files[1].content,
        "{\n  \"metadata\": {\n    \"version\": \"1.48.180\"\n  }\n}\n"
    );
    let Body::Transform(results) = &outcome.response.body else {
        panic!("expected Body::Transform");
    };
    assert_eq!(results[0].lines, [2]);
    assert_eq!(results[1].lines, [3]);
    let text = &outcome.response.summary;
    assert!(
        text.contains("2 files \u{b7} 2 changes \u{b7} all applied \u{b7} checks: json ok \u{d7}2"),
        "{text}"
    );
}

#[test]
fn a_rejected_batch_names_every_failing_file() {
    let json = "{\n  \"v\": 1\n}\n";
    let after = "{\n  \"v\": 2\n}\n";
    let mut files = vec![
        file("a.json", json, Err(absent("a.json"))),
        file("b.json", json, Ok(vec![set("v", 2, after)])),
        file("c.json", json, Ok(vec![set("v", 2, after)])),
    ];
    let targets = batch_of(
        "{\"file\":\"a.json\",\"delete\":[\"absent\"]}\n\
         {\"file\":\"b.json\",\"set\":{\"v\":2}}\n\
         {\"file\":\"c.json\",\"set\":{\"v\":2},\"if\":\"sha:000000000000\"}\n",
    )
    .expect("the batch parses");

    let outcome = apply(&mut files, &targets, None, None);

    assert_eq!(slug(&outcome), "not_found");
    let text = &outcome.response.summary;
    assert!(
        text.contains("0 of 3 applied \u{b7} nothing written \u{b7} fix a.json, c.json and re-run"),
        "{text}"
    );
    for file in &files {
        assert_eq!(file.content, json);
    }
}

#[test]
fn a_later_file_that_does_not_parse_writes_none_of_the_batch() {
    let json = "{\n  \"v\": 1\n}\n";
    let broken = Error::CheckFailed {
        path: "b.json".to_owned(),
        layer: CheckLayer::Structured,
        detail: "json invalid".to_owned(),
    };
    let mut files = vec![
        file("a.json", json, Ok(vec![set("v", 2, "{\n  \"v\": 2\n}\n")])),
        file("b.json", "{\n  \"v\": \n", Err(broken)),
    ];
    let targets = batch_of(
        "{\"file\":\"a.json\",\"set\":{\"v\":2}}\n\
         {\"file\":\"b.json\",\"set\":{\"v\":2}}\n",
    )
    .expect("the batch parses");

    let outcome = apply(&mut files, &targets, None, None);

    assert_eq!(slug(&outcome), "check_failed");
    assert_eq!(files[0].content, json);
    assert!(
        outcome
            .response
            .summary
            .contains("0 of 2 applied \u{b7} nothing written \u{b7} fix b.json and re-run"),
        "{}",
        outcome.response.summary
    );
}

fn one_file() -> (Vec<File>, Vec<Target>) {
    let files = vec![file(
        "a.json",
        VERSION,
        Ok(vec![set("version", 2, &VERSION.replace("1.0.0", "2.0.0"))]),
    )];
    let targets = batch_of("{\"file\":\"a.json\",\"set\":{\"version\":\"2.0.0\"}}\n")
        .expect("the batch parses");
    (files, targets)
}

#[test]
fn a_checker_that_passes_before_and_fails_after_reverts_and_exits_check_failed() {
    let (mut files, targets) = one_file();
    let verdict = CommandVerdict::Failed("gone".to_owned());

    let outcome = apply(&mut files, &targets, Some(verdict), None);

    assert_eq!(slug(&outcome), "check_failed");
    assert_eq!(files[0].content, VERSION);
    let message = outcome.error.expect("a failure").text();
    assert!(message.contains("1 file reverted"), "{message}");
}

#[test]
fn a_checker_that_fails_before_and_after_keeps_the_write_and_says_inconclusive() {
    let (mut files, targets) = one_file();
    let verdict = CommandVerdict::Inconclusive("failed before and after".to_owned());

    let outcome = apply(&mut files, &targets, Some(verdict), None);

    assert_eq!(slug(&outcome), "ok");
    assert!(files[0].content.contains("2.0.0"));
    let [Omission::CheckInconclusive { layer, reason }] = outcome.response.omitted.as_slice() else {
        panic!("expected one note, got {:?}", outcome.response.omitted);
    };
    assert_eq!((layer.as_str(), reason.as_str()), ("grep", "failed before and after"));
}

#[test]
fn a_checker_that_passes_both_times_is_the_reported_check() {
    let (mut files, targets) = one_file();

    let outcome = apply(&mut files, &targets, Some(CommandVerdict::Passed), None);

    assert_eq!(slug(&outcome), "ok");
    let Body::Transform(results) = &outcome.response.body else {
        panic!("expected Body::Transform");
    };
    let check = results[0].check.as_ref().expect("a check");
    assert_eq!((check.layer.as_str(), check.status.as_str()), ("grep", "ok"));
    assert_eq!(checker_name("true --ignored-arg"), "true");
}

#[test]
fn a_write_that_stops_names_what_landed_and_what_failed() {
    let json = "{\n  \"version\": \"1\"\n}\n";
    let after = "{\n  \"version\": \"2\"\n}\n";
    let mut files = vec![
        file("d1/a.json", json, Ok(vec![set("version", 2, after)])),
        file("d2/b.json", json, Ok(vec![set("version", 2, after)])),
    ];
    let targets = batch_of(
        "{\"file\":\"d1/a.json\",\"set\":{\"version\":\"2\"}}\n\
         {\"file\":\"d2/b.json\",\"set\":{\"version\":\"2\"}}\n",
    )
    .expect("the batch parses");

    let outcome = apply(&mut files, &targets, None, Some("d2/b.json"));

    assert_eq!(slug(&outcome), "partial_batch");
    assert_eq!(files[0].content, after);
    assert_eq!(files[1].content, json);
    assert!(
        outcome.response.summary.contains("1 of 2 files written \u{b7} d2/b.json failed"),
        "{}",
        outcome.response.summary
    );
    let Body::Transform(results) = &outcome.response.body else {
        panic!("expected Body::Transform");
    };
    assert_eq!(results.len(), 1);
    assert_eq!(results[0].path, "d1/a.json");
}

#[test]
fn a_followed_line_keeps_its_text() {
    let before = "a\nb\nc\nd\n";
    let after = "a\nx\ny\nd\n";
    let hunk = Hunk::between(before, after);
    assert_eq!((hunk.start, hunk.removed, hunk.added), (1, 2, 2));
    assert_eq!(hunk.follow(1), 1);
    assert_eq!(hunk.follow(4), 4);
    let shorter = Hunk::between(before, "a\nd\n");
    assert_eq!(shorter.follow(4), 2);
}

#[test]
fn a_selector_is_told_as_the_key_it_came_to() {
    let mut omitted = Vec::new();
    let mut picked = set("items.1.v", 2, "- v: 2\n");
    picked.raw_key = "items[name=b].v".to_owned();
    picked.selects = true;
    validate("s.yaml", TransformFormat::Yaml, "- v: 1\n", vec![picked], pair(), true, &mut omitted);
    let [Omission::SelectorResolved { selector, resolved }] = omitted.as_slice() else {
        panic!("expected one note, got {omitted:?}");
    };
    assert_eq!((selector.as_str(), resolved.as_str()), ("items[name=b].v", "items.1.v"));
}

#[test]
fn files_are_written_by_path_however_they_are_listed() {
    let list = |names: &[&str]| -> Vec<String> { names.iter().map(|n| n.to_string()).collect() };
    let order = |names: &[&str]| -> Vec<(String, Vec<usize>)> {
        let files = list(names);
        group(&files, &files).into_iter().map(|g| (g.file, g.members)).collect()
    };
    assert_eq!(
        order(&["b.json", "a/z.json", "a.json"]),
        [
            ("a/z.json".to_owned(), vec![1]),
            ("a.json".to_owned(), vec![2]),
            ("b.json".to_owned(), vec![0]),
        ],
    );
    assert_eq!(
        order(&["a.json", "b.json", "a.json", "a/z.json"]),
        [
            ("a/z.json".to_owned(), vec![3]),
            ("a.json".to_owned(), vec![0, 2]),
            ("b.json".to_owned(), vec![1]),
        ],
    );
}

fn no_path(key: &str) -> (String, Error) {
    (key.to_owned(), Error::Usage { message: format!("{key} is no path") })
}

fn message(error: Error) -> String {
    match error {
        Error::Usage { message } => message,
        other => panic!("expected a usage error, got {other:?}"),
    }
}

#[test]
fn a_key_that_is_no_path_is_refused_before_what_is_typed_after_it() {
    for kind in [OpKind::Assign, OpKind::Delete, OpKind::Append] {
        let raw = if kind == OpKind::Delete { "a[" } else { "a[=1" };
        let args = typed("o.json", &[(kind, raw), (OpKind::Assign, "no value")]);
        let error = run(&args, &nothing(), &mut vec![no_path("a[")]).unwrap_err().error;
        assert_eq!(message(error.expect("a failure")), "a[ is no path");
    }
    let args = typed("o.json", &[(OpKind::Assign, "no value"), (OpKind::Delete, "a[")]);
    let error = run(&args, &nothing(), &mut vec![no_path("a[")]).unwrap_err().error;
    assert_eq!(error.expect("a failure").slug(), "not_found");
}

#[test]
fn a_batch_is_refused_for_the_first_of_its_keys_that_is_no_path() {
    let batch = "{\"file\":\"a.json\",\"set\":{\"ok\":1,\"x[\":2},\"delete\":3}\n\
                 {\"file\":\"b.json\",\"append\":{\"y[[]\":1}}\n";
    let mut bad = vec![no_path("y["), no_path("x[")];
    assert_eq!(message(said(parse_batch(batch, &mut bad))), "x[ is no path");
    let mut bad = vec![no_path("y[")];
    assert!(message(said(parse_batch(batch, &mut bad))).contains("\"delete\" is not an array"));
    let second = batch.lines().last().expect("two lines");
    let mut bad = vec![no_path("y[")];
    assert_eq!(message(said(parse_batch(second, &mut bad))), "y[ is no path");
}

#[test]
fn every_key_that_a_call_names_is_listed() {
    let args = typed("o.json", &[
        (OpKind::Append, "list[]=1"),
        (OpKind::Delete, "gone"),
        (OpKind::Assign, "a.b=2"),
        (OpKind::Assign, "no value"),
    ]);
    assert_eq!(named_keys(&args, &nothing()), ["a.b", "gone", "list"]);

    let mut from = typed("o.json", &[]);
    from.file = None;
    from.from = Some("-".to_owned());
    let input = Stdin::Bytes(
        b"not json\n{\"set\":{\"s\":1},\"delete\":[\"d\",2],\"append\":{\"p[]\":1}}\n".to_vec(),
    );
    assert_eq!(named_keys(&from, &input), ["s", "d", "p"]);
}

#[test]
fn a_delete_is_shown_where_its_lines_were_whatever_line_it_reports() {
    let result = changed("o.yaml", TransformFormat::Yaml, "a: 1\nb: 2\n", vec![
        delete("a", 0, "b: 2\n"),
    ]);
    assert_eq!(result.lines, [1]);
}

#[test]
fn each_operation_starts_from_what_the_one_before_left() {
    let mut steps = Vec::new();
    assert_eq!(text_left("a: 1\n", &steps), "a: 1\n");
    steps.push(set("a", 1, "a: 2\n"));
    assert_eq!(text_left("a: 1\n", &steps), "a: 2\n");
    steps.push(set("b", 2, "a: 2\nb: 3\n"));
    assert_eq!(text_left("a: 1\n", &steps), "a: 2\nb: 3\n");
}
