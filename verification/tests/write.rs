use lets::error::{Error, UnsupportedReason};
use lets::find::args::Global;
use lets::output::{Body, Omission, Outcome, WriteOutcome, WriteResult};
use lets::shell::extension;
use lets::write::{
    count_lines, decide, too_large, Action, Checked, Content, Event, WriteArgs, Written,
};

fn global(max_file_bytes: u64) -> Global {
    Global {
        json: false,
        jsonl: false,
        budget: None,
        max_bytes: 65536,
        max_file_bytes,
        no_ignore: false,
        allow_outside: false,
        no_check: false,
        quiet: false,
    }
}

fn args(path: &str, force: bool, empty: bool) -> WriteArgs {
    WriteArgs { path: path.to_owned(), force, empty }
}

/// Stands for a hash: any text that tells contents apart.
fn sha(bytes: &[u8]) -> String {
    format!("{:012x}", bytes.iter().fold(7u64, |sum, byte| sum * 31 % 99_991 + u64::from(*byte)))
}

/// A file in memory, and what a checker would say of it.
struct Disk {
    file: Option<Vec<u8>>,
    outside: bool,
    checker: Option<Checked>,
}

fn disk(file: Option<&[u8]>) -> Disk {
    Disk { file: file.map(<[u8]>::to_vec), outside: false, checker: Some(says("structure", true, "ok")) }
}

fn says(label: &str, ok: bool, status: &str) -> Checked {
    Checked {
        label: label.to_owned(),
        ok,
        status: status.to_owned(),
        errors_before: 0,
        errors_after: usize::from(!ok),
    }
}

fn write(disk: &mut Disk, args: &WriteArgs, global: &Global, content: &[u8]) -> Outcome {
    let content = content.to_vec();
    let mut event = Event::Started;
    loop {
        event = match decide(args, global, &content, event) {
            Action::Guard => Event::Guarded(if disk.outside && !global.allow_outside {
                Err(Error::OutsideTree { path: args.path.clone() })
            } else {
                Ok(())
            }),
            Action::Look => Event::Looked(Ok(disk.file.is_some())),
            Action::ReadExisting => {
                let bytes = disk.file.clone().expect("it is there");
                Event::Existing(Ok(Content { sha: sha(&bytes), bytes }))
            },
            Action::Write { overwriting } => {
                let prior = if overwriting {
                    disk.file.take().map(|bytes| Content { sha: sha(&bytes), bytes })
                } else {
                    None
                };
                disk.file = Some(content.clone());
                let checked = if global.no_check { None } else { Some(disk.checker.take()) };
                Event::Written(Ok(Written { sha: sha(&content), prior, checked }))
            },
            Action::Answer(outcome) => return outcome,
        };
    }
}

fn result(outcome: &Outcome) -> &WriteResult {
    match &outcome.response.body {
        Body::Write(result) => result,
        other => panic!("expected Body::Write, got {other:?}"),
    }
}

#[test]
fn a_missing_path_is_created_with_stdins_exact_bytes_and_exits_0() {
    let mut disk = disk(None);

    let outcome = write(
        &mut disk,
        &args("scripts/new-lint.sh", false, false),
        &global(8_388_608),
        b"#!/usr/bin/env bash\nset -euo pipefail\n",
    );

    assert!(outcome.error.is_none());
    assert_eq!(
        disk.file.as_deref(),
        Some(&b"#!/usr/bin/env bash\nset -euo pipefail\n"[..])
    );
}

#[test]
fn a_created_files_response_names_lines_bytes_and_sha() {
    let content = b"#!/usr/bin/env bash\nset -euo pipefail\n";

    let outcome =
        write(&mut disk(None), &args("new-lint.sh", false, false), &global(8_388_608), content);

    let result = result(&outcome);
    assert!(matches!(result.outcome, WriteOutcome::Created));
    assert_eq!(result.lines, 2);
    assert_eq!(result.bytes, 38);
    assert_eq!(result.sha, sha(content));
    assert_eq!((outcome.response.stats.lines, outcome.response.stats.bytes), (2, 38));
}

#[test]
fn an_existing_path_without_force_is_not_modified_reports_exists_and_exits_1() {
    let mut disk = disk(Some(b"old\n"));

    let outcome = write(&mut disk, &args("new-lint.sh", false, false), &global(8_388_608), b"new\n");

    assert_eq!(disk.file.as_deref(), Some(&b"old\n"[..]), "the file must be untouched");
    let error = outcome.error.as_ref().expect("exists is a refusal");
    assert_eq!(error.slug(), "exists");
    let result = result(&outcome);
    assert!(matches!(result.outcome, WriteOutcome::Exists));
    assert_eq!(result.lines, 1);
    assert_eq!(
        error.text(),
        format!(
            "new-lint.sh exists (1 line, sha:{}) \u{b7} pass --force to overwrite",
            sha(b"old\n")
        )
    );
}

#[test]
fn an_existing_path_with_force_is_overwritten_and_exits_0() {
    let mut disk = disk(Some(b"old\n"));

    let outcome = write(&mut disk, &args("f.sh", true, false), &global(8_388_608), b"new\n");

    assert!(outcome.error.is_none());
    assert_eq!(disk.file.as_deref(), Some(&b"new\n"[..]));
}

#[test]
fn an_overwritten_file_reports_the_prior_line_count_and_hash_it_replaced() {
    let mut disk = disk(Some(b"old\nolder\n"));

    let outcome = write(&mut disk, &args("f.sh", true, false), &global(8_388_608), b"new\n");

    let result = result(&outcome);
    let WriteOutcome::Overwritten { prior_lines, prior_sha } = &result.outcome else {
        panic!("expected an overwrite, got {:?}", result.outcome);
    };
    assert_eq!((*prior_lines, prior_sha), (2, &sha(b"old\nolder\n")));
    assert_eq!((result.lines, result.bytes, &result.sha), (1, 4, &sha(b"new\n")));
    let check = result.check.as_ref().expect("a .sh file has a grammar");
    assert_eq!((check.layer.as_str(), check.status.as_str()), ("structure", "ok"));
}

#[test]
fn a_path_that_did_not_exist_reports_created_with_a_single_hash() {
    let outcome = write(&mut disk(None), &args("fresh.sh", true, false), &global(8_388_608), b"new\n");

    let result = result(&outcome);
    assert!(matches!(result.outcome, WriteOutcome::Created));
    assert_eq!((result.lines, result.bytes, &result.sha), (1, 4, &sha(b"new\n")));
}

#[test]
fn empty_stdin_without_empty_flag_refuses_and_creates_nothing() {
    let mut disk = disk(None);

    let outcome = write(&mut disk, &args("f.txt", false, false), &global(8_388_608), &[]);

    let error = outcome.error.as_ref().expect("empty stdin is refused");
    assert_eq!(error.slug(), "empty_input");
    assert!(
        !outcome.response.has_output(),
        "the refusal owes nothing on stdout"
    );
    assert!(disk.file.is_none());
}

#[test]
fn empty_stdin_with_empty_flag_creates_a_zero_byte_file_and_exits_0() {
    let mut disk = disk(None);

    let outcome = write(&mut disk, &args("f.txt", false, true), &global(8_388_608), &[]);

    assert!(outcome.error.is_none());
    assert_eq!(disk.file.as_deref(), Some(&b""[..]));
    assert_eq!(result(&outcome).lines, 0);
    assert_eq!(result(&outcome).bytes, 0);
}

#[test]
fn content_over_max_file_bytes_exits_7_and_creates_nothing() {
    let mut disk = disk(None);

    let outcome = write(&mut disk, &args("f.txt", false, false), &global(4), b"12345");

    let error = outcome.error.as_ref().expect("over the limit is refused");
    assert!(matches!(
        error,
        Error::Unsupported { reason: UnsupportedReason::TooLarge { bytes: 5, limit: 4 }, .. }
    ));
    assert!(disk.file.is_none());
}

#[test]
fn a_written_sh_file_with_valid_bash_reports_structure_ok() {
    let outcome = write(
        &mut disk(None),
        &args("new-lint.sh", false, false),
        &global(8_388_608),
        b"#!/usr/bin/env bash\nset -euo pipefail\n",
    );

    let check = result(&outcome).check.as_ref().expect("a .sh file has a grammar");
    assert_eq!((check.layer.as_str(), check.status.as_str()), ("structure", "ok"));
}

#[test]
fn a_written_sh_file_with_a_syntax_error_still_creates_the_file_and_reports_non_ok() {
    let mut disk = disk(None);
    disk.checker = Some(says("structure", false, "failed"));

    let outcome = write(
        &mut disk,
        &args("broken.sh", false, false),
        &global(8_388_608),
        b"if [ -z \"$x\" ]; then\n",
    );

    assert!(
        outcome.error.is_none(),
        "write never refuses on a check failure"
    );
    assert_eq!(disk.file.as_deref(), Some(&b"if [ -z \"$x\" ]; then\n"[..]));
    let check = result(&outcome).check.as_ref().expect("a .sh file has a grammar");
    assert_eq!(check.layer, "structure");
    assert_eq!(check.status, "failed \u{b7} file kept");
}

#[test]
fn a_written_json_file_that_is_not_json_names_the_validator_and_says_the_file_was_kept() {
    let mut disk = disk(None);
    disk.checker = Some(says("json", false, "invalid"));

    let outcome = write(
        &mut disk,
        &args("broken.json", false, false),
        &global(8_388_608),
        b"{\n  \"window\": 200\n",
    );

    assert!(outcome.error.is_none(), "write never refuses on a check");
    let check = result(&outcome).check.as_ref().expect("a check");
    assert_eq!((check.layer.as_str(), check.status.as_str()), ("json", "invalid \u{b7} file kept"));
}

#[test]
fn a_written_json_file_that_is_json_reports_json_ok_with_no_outcome_clause() {
    let mut disk = disk(None);
    disk.checker = Some(says("json", true, "ok"));

    let outcome = write(
        &mut disk,
        &args("ok.json", false, false),
        &global(8_388_608),
        b"{\n  \"window\": 200\n}\n",
    );

    let check = result(&outcome).check.as_ref().expect("a check");
    assert_eq!((check.layer.as_str(), check.status.as_str()), ("json", "ok"));
}

#[test]
fn a_file_with_no_grammar_is_created_and_names_the_skipped_check_in_the_footer() {
    let mut disk = disk(None);
    disk.checker = None;

    let outcome = write(
        &mut disk,
        &args("app.vue", false, false),
        &global(8_388_608),
        b"<template/>\n",
    );

    assert!(outcome.error.is_none());
    assert!(result(&outcome).check.is_none());
    let [Omission::CheckSkipped { reason }] = outcome.response.omitted.as_slice() else {
        panic!("expected one skipped check, got {:?}", outcome.response.omitted);
    };
    assert_eq!(reason, "no grammar for .vue");
}

#[test]
fn no_check_skips_the_structural_check_entirely_with_no_skipped_omission_either() {
    let mut opts = global(8_388_608);
    opts.no_check = true;

    let outcome = write(
        &mut disk(None),
        &args("broken.sh", false, false),
        &opts,
        b"if [ -z \"$x\" ]; then\n",
    );

    assert!(outcome.error.is_none());
    assert!(result(&outcome).check.is_none());
    assert!(outcome.response.omitted.is_empty());
}

#[test]
fn a_write_outside_the_working_tree_is_refused_and_creates_nothing() {
    let mut disk = disk(None);
    disk.outside = true;

    let outcome =
        write(&mut disk, &args("/elsewhere/outside.txt", false, false), &global(8_388_608), b"new\n");

    assert_eq!(
        outcome.error.as_ref().expect("the refusal").slug(),
        "outside_tree"
    );
    assert!(disk.file.is_none(), "nothing is created outside the tree");
}

#[test]
fn a_write_outside_the_working_tree_lands_with_allow_outside() {
    let mut disk = disk(None);
    disk.outside = true;
    let mut opts = global(8_388_608);
    opts.allow_outside = true;

    let outcome = write(&mut disk, &args("/elsewhere/outside.txt", false, false), &opts, b"new\n");

    assert!(outcome.error.is_none(), "{:?}", outcome.error);
    assert_eq!(disk.file.as_deref(), Some(&b"new\n"[..]));
}

#[test]
fn a_step_that_fails_is_the_answer() {
    let (args, global, content) = (args("f", false, false), global(9), b"x".to_vec());
    let failed = |event| match decide(&args, &global, &content, event) {
        Action::Answer(outcome) => outcome.error.expect("a failure"),
        other => panic!("expected an answer, got {other:?}"),
    };
    let locked = || Error::Locked { path: "f".to_owned() };

    let looked = |missing| failed(Event::Looked(Err(("denied".to_owned(), missing))));
    assert_eq!(looked(false).text(), "f: denied");
    assert_eq!(looked(false).slug(), "io_error");
    assert_eq!(looked(true).slug(), "not_found");
    assert_eq!(failed(Event::Existing(Err(locked()))).slug(), "locked");
    assert_eq!(failed(Event::Written(Err(locked()))).slug(), "locked");
    assert_eq!(
        failed(Event::Guarded(Err(Error::OutsideTree { path: "f".to_owned() }))).slug(),
        "outside_tree"
    );
}

#[test]
fn count_lines_matches_str_lines_convention() {
    assert_eq!(count_lines(b""), 0);
    assert_eq!(count_lines(b"a"), 1);
    assert_eq!(count_lines(b"a\n"), 1);
    assert_eq!(count_lines(b"a\nb"), 2);
    assert_eq!(count_lines(b"a\nb\n"), 2);
}

#[test]
fn bytes_count_as_their_text_does() {
    for text in ["", "\n", "a\r\nb", "\u{e9}\n\u{65e5}", "\n\n", "x\ny\n\nz"] {
        assert_eq!(count_lines(text.as_bytes()), text.lines().count(), "{text:?}");
    }
}

#[test]
fn too_large_is_none_exactly_at_the_limit() {
    assert!(too_large("f", 10, 10).is_none());
    assert!(too_large("f", 11, 10).is_some());
}

#[test]
fn an_extension_follows_a_name() {
    assert_eq!(extension("a/b.tar.gz"), Some("gz"));
    assert_eq!(extension("a/.env"), None);
    assert_eq!(extension("a.d/b"), None);
    assert_eq!(extension("a."), Some(""));
}
