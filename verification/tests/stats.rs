use lets::output::{Body, StatsReport};
use lets::shell::{lets_call, strip_leading_cd};
use lets::stats::scan::{choose_files, has_transcript_name, scan_dir, Chosen, Met, Recent, Transcript};
use lets::stats::{bare_target_count, default_dir, run};

fn transcript(lines: &[&str]) -> Transcript {
    Transcript {
        lines: lines.iter().map(|line| format!("{line}\n").into_bytes()).collect(),
        broken: false,
    }
}

fn seen(path: &str, recent: Recent) -> Met {
    Met::Seen { path: path.to_owned(), is_file: true, recent }
}

fn walk_of(met: Vec<Met>) -> Chosen {
    choose_files(met)
}

/// The report on one session.
fn scan(file: Transcript) -> StatsReport {
    let walk = walk_of(vec![seen("p/s.jsonl", Recent::Any)]);
    scan_dir(&walk, &vec![Some(file)]).expect("the counts fit")
}

fn session(lines: &[&str]) -> StatsReport {
    scan(transcript(lines))
}

fn calls(report: &StatsReport, verb: &str) -> Option<usize> {
    report.lets_calls.iter().find(|(name, _)| name == verb).map(|(_, count)| *count)
}

fn tool_use(id: &str, name: &str, command: Option<&str>) -> String {
    let input = command.map_or_else(String::new, |command| {
        format!(r#","input":{{"command":{command:?}}}"#)
    });
    format!(
        r#"{{"type":"assistant","message":{{"role":"assistant","content":[{{"type":"tool_use","id":"{id}","name":"{name}"{input}}}]}}}}"#
    )
}

fn tool_result(id: &str, content: &str, is_error: bool) -> String {
    format!(
        r#"{{"type":"user","message":{{"role":"user","content":[{{"type":"tool_result","tool_use_id":"{id}","content":{content:?},"is_error":{is_error}}}]}}}}"#
    )
}

#[test]
fn a_dir_that_does_not_exist_is_an_all_zero_report_not_a_failure() {
    let report = scan_dir(&walk_of(Vec::new()), &Vec::new()).expect("the counts fit");
    assert_eq!(report.sessions, 0);
    assert_eq!(report.bash_calls, 0);
}

#[test]
fn bash_calls_and_lets_calls_by_verb_are_counted_from_tool_use_lines() {
    let report = session(&[
        &tool_use("t1", "Bash", Some("cat a.ts")),
        &tool_use("t2", "Bash", Some("lets show a.ts")),
        &tool_use("t3", "Bash", Some("lets find x .")),
        &tool_use("t4", "Read", None),
    ]);

    assert_eq!(report.sessions, 1);
    assert_eq!(report.bash_calls, 3);
    assert_eq!(calls(&report, "show"), Some(1));
    assert_eq!(calls(&report, "find"), Some(1));
}

#[test]
fn a_non_lets_bash_call_is_not_counted_as_any_verb() {
    let report = session(&[&tool_use("t1", "Bash", Some("grep -rn TODO ."))]);

    assert_eq!(report.bash_calls, 1);
    assert!(report.lets_calls.is_empty());
}

#[test]
fn a_leading_cd_is_stripped_before_the_verb_is_read() {
    let report = session(&[&tool_use("t1", "Bash", Some("cd src && lets show a.ts"))]);

    assert_eq!(calls(&report, "show"), Some(1));
}

#[test]
fn a_multi_target_lets_call_saves_targets_minus_one() {
    let report = session(&[&tool_use("t1", "Bash", Some("lets show a.ts b.ts c.ts"))]);

    assert_eq!(report.calls_saved, 2);
}

#[test]
fn a_single_target_lets_call_saves_nothing() {
    let report = session(&[&tool_use("t1", "Bash", Some("lets show a.ts"))]);

    assert_eq!(report.calls_saved, 0);
}

#[test]
fn a_find_with_one_path_after_its_pattern_saves_nothing() {
    let report = session(&[&tool_use("t1", "Bash", Some("lets find cap src"))]);

    assert_eq!(report.calls_saved, 0);
}

#[test]
fn a_find_with_two_paths_after_its_pattern_saves_one() {
    let report = session(&[&tool_use("t1", "Bash", Some("lets find cap src lib"))]);

    assert_eq!(report.calls_saved, 1);
}

#[test]
fn a_flag_before_any_target_saves_nothing() {
    let report = session(&[&tool_use("t1", "Bash", Some("lets find --count x ."))]);

    assert_eq!(report.calls_saved, 0);
}

/// Shape copied from a real blocked call: string content, with `run: ` not on the first line.
#[test]
fn a_hook_block_is_counted_from_the_real_string_content_shape() {
    let report = session(&[
        &tool_use(
            "t1",
            "Bash",
            Some("sed -i 's/const cap = 27/const cap = 40/' src/usage.ts"),
        ),
        &tool_result(
            "t1",
            "PreToolUse:Bash hook error: lets replaces this command in one call.\nrun: lets edit src/usage.ts --old 'const cap = 27' --new 'const cap = 40'",
            true,
        ),
    ]);

    assert_eq!(report.hook_blocks, 1);
}

#[test]
fn a_run_line_with_is_error_false_is_not_a_block() {
    let report = session(&[
        &tool_use("t1", "Bash", Some("echo hi")),
        &tool_result("t1", "run: lets show a.ts", false),
    ]);

    assert_eq!(report.hook_blocks, 0);
}

#[test]
fn a_block_followed_by_the_named_verb_is_counted_as_followed() {
    let report = session(&[
        &tool_use("t1", "Bash", Some("cat a.ts b.ts")),
        &tool_result(
            "t1",
            "PreToolUse:Bash hook error: lets replaces this command in one call.\nrun: cd src && lets show a.ts b.ts",
            true,
        ),
        &tool_use("t2", "Bash", Some("cd src && lets show a.ts b.ts")),
    ]);

    assert_eq!(report.hook_blocks, 1);
    assert_eq!(report.blocks_followed, 1);
}

#[test]
fn a_block_followed_by_a_different_verb_is_not_counted_as_followed() {
    let report = session(&[
        &tool_use("t1", "Bash", Some("cat a.ts")),
        &tool_result(
            "t1",
            "PreToolUse:Bash hook error: use lets.\nrun: lets show a.ts",
            true,
        ),
        &tool_use("t2", "Bash", Some("lets find x .")),
    ]);

    assert_eq!(report.hook_blocks, 1);
    assert_eq!(report.blocks_followed, 0);
}

#[test]
fn only_the_first_call_after_a_block_can_follow_it() {
    let report = session(&[
        &tool_use("t1", "Bash", Some("cat a.ts")),
        &tool_result("t1", "no\nrun: lets show a.ts", true),
        &tool_use("t2", "Read", None),
        &tool_use("t3", "Bash", Some("lets show a.ts")),
    ]);

    assert_eq!(report.hook_blocks, 1);
    assert_eq!(report.blocks_followed, 0);
}

#[test]
fn read_calls_and_bytes_are_counted_from_paired_tool_results() {
    let report = session(&[
        &tool_use("t1", "Read", None),
        &tool_result("t1", "twelve bytes!", false),
    ]);

    assert_eq!(report.read_calls, 1);
    assert_eq!(report.read_bytes, "twelve bytes!".len() as u64);
}

#[test]
fn a_read_result_as_a_list_of_text_blocks_is_measured_too() {
    let report = session(&[
        &tool_use("t1", "Read", None),
        r#"{"type":"user","message":{"role":"user","content":[{"type":"tool_result","tool_use_id":"t1","content":[{"type":"text","text":"abcde"}],"is_error":false}]}}"#,
    ]);

    assert_eq!(report.read_calls, 1);
    assert_eq!(report.read_bytes, 5);
}

#[test]
fn a_result_is_paired_with_its_call_once() {
    let report = session(&[
        &tool_use("t1", "Read", None),
        &tool_result("t1", "abc", false),
        &tool_result("t1", "abc", false),
        &tool_result("t9", "abc", false),
    ]);

    assert_eq!((report.read_calls, report.read_bytes), (1, 3));
}

#[test]
fn a_malformed_json_line_is_skipped_and_the_rest_of_the_file_still_counts() {
    let report = session(&[
        "not json at all {{{",
        &tool_use("t1", "Bash", Some("lets show a.ts")),
    ]);

    assert_eq!(report.sessions, 1);
    assert_eq!(calls(&report, "show"), Some(1));
    assert_eq!(report.skipped.malformed_lines, 1);
}

#[test]
fn a_non_utf8_line_is_counted_as_skipped_and_its_call_is_not_counted() {
    let mut bytes = tool_use("t1", "Bash", Some("cat caf@.ts")).into_bytes();
    let at = bytes
        .iter()
        .position(|b| *b == b'@')
        .expect("the placeholder byte");
    bytes[at] = 0xe9;
    bytes.push(b'\n');
    let mut file = transcript(&[&tool_use("t2", "Bash", Some("lets show a.ts"))]);
    file.lines.insert(0, bytes);

    let report = scan(file);

    assert_eq!(report.skipped.non_utf8_lines, 1);
    assert_eq!(report.skipped.malformed_lines, 0);
    assert_eq!(report.bash_calls, 1);
    assert_eq!(calls(&report, "show"), Some(1));
}

#[test]
fn a_clean_transcript_skips_nothing() {
    let report = session(&[
        &tool_use("t1", "Bash", Some("lets show a.ts")),
        "",
        &tool_use("t2", "Read", None),
        &tool_result("t2", "abc", false),
    ]);

    assert_eq!(report.skipped.walk_errors, 0);
    assert_eq!(report.skipped.unreadable_files, 0);
    assert_eq!(report.skipped.non_utf8_lines, 0);
    assert_eq!(report.skipped.malformed_lines, 0);
}

#[test]
fn an_empty_file_is_one_session_with_no_calls() {
    let report = session(&[]);

    assert_eq!(report.sessions, 1);
    assert_eq!(report.bash_calls, 0);
}

#[test]
fn a_non_jsonl_file_in_the_dir_is_not_scanned_as_a_session() {
    let walk = walk_of(vec![seen("p/notes.md", Recent::Any)]);
    assert!(walk.files.is_empty());

    let report = scan_dir(&walk, &Vec::new()).expect("the counts fit");

    assert_eq!(report.sessions, 0);
}

#[test]
fn since_excludes_a_file_older_than_the_window() {
    let walk = walk_of(vec![seen("p/old.jsonl", Recent::No), seen("p/new.jsonl", Recent::Yes)]);
    assert_eq!(walk.files, ["p/new.jsonl"]);

    let file = transcript(&[&tool_use("t2", "Bash", Some("lets find x ."))]);
    let report = scan_dir(&walk, &vec![Some(file)]).expect("the counts fit");

    assert_eq!(report.sessions, 1);
    assert!(calls(&report, "find").is_some());
    assert!(calls(&report, "show").is_none());
}

#[test]
fn no_since_counts_a_file_of_any_age() {
    let walk = walk_of(vec![seen("p/old.jsonl", Recent::Any)]);
    assert_eq!(walk.files, ["p/old.jsonl"]);

    let file = transcript(&[&tool_use("t1", "Bash", Some("lets show a.ts"))]);
    let report = scan_dir(&walk, &vec![Some(file)]).expect("the counts fit");

    assert_eq!(report.sessions, 1);
    assert!(calls(&report, "show").is_some());
}

#[test]
fn the_serialized_report_never_contains_a_transcript_marker() {
    let report = session(&[
        &tool_use(
            "t1",
            "Bash",
            Some("cat /home/definitely-a-secret-marker/file.ts"),
        ),
        &tool_use("t2", "Read", None),
        &tool_result("t2", "MARKER-CONTENT-BYTES", false),
    ]);
    let shown = format!("{report:?}");

    assert!(!shown.contains("secret-marker"));
    assert!(!shown.contains("MARKER-CONTENT-BYTES"));
}

#[test]
fn what_a_walk_could_not_tell_is_counted_and_its_files_are_in_order() {
    let walk = walk_of(vec![
        seen("p/b.jsonl", Recent::Any),
        Met::Failed,
        seen("p/a-b/x.jsonl", Recent::Any),
        seen("p/a/x.jsonl", Recent::Any),
        seen("p/c.jsonl", Recent::Unknown),
        Met::Seen { path: "p/dir.jsonl".to_owned(), is_file: false, recent: Recent::Any },
        seen("p/.jsonl", Recent::Any),
    ]);
    assert_eq!(walk.files, ["p/a/x.jsonl", "p/a-b/x.jsonl", "p/b.jsonl"]);
    assert_eq!((walk.walk_errors, walk.unreadable_files), (1, 1));

    let broken = Transcript { lines: Vec::new(), broken: true };
    let files = vec![None, Some(broken), Some(transcript(&[]))];
    let report = scan_dir(&walk, &files).expect("the counts fit");
    assert_eq!(report.sessions, 2);
    assert_eq!(report.skipped.walk_errors, 1);
    assert_eq!(report.skipped.unreadable_files, 3);
}

#[test]
fn verbs_are_listed_in_order_and_counted_over_all_sessions() {
    let one = transcript(&[
        &tool_use("t1", "Bash", Some("lets show a")),
        &tool_use("t2", "Bash", Some("/usr/bin/lets edit a --old x")),
    ]);
    let two = transcript(&[&tool_use("t1", "Bash", Some("lets show b"))]);
    let walk = walk_of(vec![seen("a.jsonl", Recent::Any), seen("b.jsonl", Recent::Any)]);

    let outcome = run(&walk, &vec![Some(one), Some(two)]).expect("the counts fit");

    assert!(outcome.error.is_none());
    assert_eq!(outcome.response.verb, "stats");
    let Body::Stats(report) = outcome.response.body else {
        panic!("expected Body::Stats");
    };
    assert_eq!(report.lets_calls, [("edit".to_owned(), 1), ("show".to_owned(), 2)]);
    assert!(report.blocks_followed <= report.hook_blocks);
}

#[test]
fn a_command_is_read_past_the_first_separator_after_cd() {
    assert_eq!(strip_leading_cd("  cd a; lets show x && y"), "lets show x && y");
    assert_eq!(strip_leading_cd("cd a\nlets show"), "lets show");
    assert_eq!(strip_leading_cd("cd a"), "cd a");
    assert_eq!(lets_call("lets --version"), None);
    assert_eq!(lets_call("lets"), None);
    assert_eq!(
        lets_call("./bin/lets show a -n"),
        Some(("show".to_owned(), vec!["a".to_owned(), "-n".to_owned()]))
    );
    assert_eq!(bare_target_count("show", &vec!["a".to_owned(), "-n".to_owned(), "b".to_owned()]), 1);
    assert_eq!(bare_target_count("find", &Vec::new()), 0);
    assert!(has_transcript_name("a.jsonl"));
    assert!(!has_transcript_name(".jsonl"));
    assert!(!has_transcript_name("a.jsonl/.."));
    assert_eq!(default_dir("/home/me", "s"), "/home/me/s/projects");
}
