use lets::error::Error;
use lets::hooks::classify::{
    absolute_program, classify_guarded_at, classify_program, is_classify, keep_absolute_path,
    quote_path,
};
use lets::hooks::texts::{
    legacy_env_guarded_guide_command, legacy_unconditional_guide_command, session_start_command,
    subagent_start_command, CLAUDE_CODE_PARAGRAPH, CLASSIFY_COMMAND, GUIDE_ONLY_COMMAND,
    LEGACY_PARAGRAPH, SESSION_START_MATCHER, SUBAGENT_START_PREFIX,
};
use lets::hooks::{
    claude_code_entries, claude_dir, codex_dir, install, is_guide, is_subagent_start, path_under,
    run, uninstall, HookTarget, HooksCmd, Task,
    HookEntry, InstallStatus, Installing,
};
use lets::output::{Body, Format, Outcome};
use lets::shell::path_name;

const GUARDED: &str = "if command -v lets >/dev/null 2>&1; then lets hook classify; fi";
const GUARDED_AT_PATH: &str =
    "if [ -x /usr/local/bin/lets ]; then /usr/local/bin/lets hook classify; fi";

fn body_text(outcome: &Outcome) -> &str {
    match &outcome.response.body {
        Body::Raw { text, .. } => text,
        other => panic!("expected a raw body, got {other:?}"),
    }
}

/// Settings held in memory: for each event, the commands that stand there.
struct Settings {
    commands: Vec<(String, String)>,
    executable: bool,
}

impl Settings {
    fn new() -> Settings {
        Settings { commands: Vec::new(), executable: false }
    }

    fn with(event: &str, command: &str) -> Settings {
        let mut settings = Settings::new();
        settings.commands.push((event.to_owned(), command.to_owned()));
        settings
    }

    fn of(&self, event: &str) -> Vec<&str> {
        self.commands
            .iter()
            .filter(|(at, _)| at == event)
            .map(|(_, command)| command.as_str())
            .collect()
    }

    fn merge(&mut self, entry: &HookEntry) -> InstallStatus {
        let executable = self.executable;
        for (event, command) in &mut self.commands {
            if event == entry.event && entry.is_ours(command) {
                let wanted = entry
                    .carry_over(command, executable)
                    .unwrap_or_else(|| entry.command.clone());
                if *command == wanted {
                    return InstallStatus::AlreadyInstalled;
                }
                *command = wanted;
                return InstallStatus::Updated;
            }
        }
        self.commands.push((entry.event.to_owned(), entry.command.clone()));
        InstallStatus::Installed
    }

    fn install(&mut self, format: Format) -> Outcome {
        let statuses = claude_code_entries().iter().map(|entry| self.merge(entry)).collect();
        let done = Installing::Merged { statuses: Ok(statuses), stale: false };
        install(format, "/home/me/settings", "settings", done)
    }

    fn uninstall(&mut self, format: Format) -> Outcome {
        let entries = claude_code_entries();
        let removed = entries
            .iter()
            .map(|entry| {
                let before = self.commands.len();
                self.commands
                    .retain(|(event, command)| event != entry.event || !entry.is_ours(command));
                self.commands.len() < before
            })
            .collect();
        uninstall(format, &entries, Ok(removed))
    }
}

#[test]
fn first_install_wires_all_three_hooks_and_writes_no_append_file() {
    let mut settings = Settings::new();

    let outcome = settings.install(Format::Text);

    assert!(outcome.error.is_none(), "{:?}", outcome.error);
    assert_eq!(settings.of("PreToolUse"), [GUARDED]);
    assert_eq!(settings.of("SubagentStart"), [subagent_start_command()]);
    assert_eq!(settings.of("SessionStart"), [session_start_command()]);
    let matchers: Vec<Option<&str>> =
        claude_code_entries().iter().map(|entry| entry.matcher).collect();
    assert_eq!(matchers, [Some("Bash"), None, Some("startup|resume|clear|compact|fork")]);
    assert_eq!(SESSION_START_MATCHER, "startup|resume|clear|compact|fork");
    assert_eq!(
        body_text(&outcome),
        "added the PreToolUse hook\nadded the SubagentStart hook\nadded the SessionStart \
         hook\n"
    );
}

/// What a shell prints for `printf '%s' '<text>'`, with `'\''` for each quote.
fn printed(command: &str) -> String {
    let quoted = command
        .strip_prefix("printf '%s' '")
        .and_then(|rest| rest.strip_suffix('\''))
        .expect("one quoted word");
    quoted.replace(r"'\''", "'")
}

#[test]
fn the_subagent_start_hook_prints_the_documented_output_shape_with_the_paragraph() {
    let said = printed(&subagent_start_command());

    let printed: serde_json::Value = serde_json::from_str(&said).expect("the hook prints JSON");
    let text = |s: &str| serde_json::Value::String(s.to_owned());
    let mut output = serde_json::Map::new();
    output.insert("hookEventName".to_owned(), text("SubagentStart"));
    output.insert("additionalContext".to_owned(), text(CLAUDE_CODE_PARAGRAPH));
    let mut whole = serde_json::Map::new();
    whole.insert("hookSpecificOutput".to_owned(), serde_json::Value::Object(output));
    assert_eq!(printed, serde_json::Value::Object(whole));
}

#[test]
fn a_second_install_reports_every_hook_already_installed_with_identical_bytes() {
    let mut settings = Settings::new();
    settings.install(Format::Text);
    let before = settings.commands.clone();

    let outcome = settings.install(Format::Text);

    assert!(outcome.error.is_none(), "{:?}", outcome.error);
    assert_eq!(settings.commands, before);
    assert_eq!(
        body_text(&outcome),
        "the PreToolUse hook was already installed\nthe SubagentStart hook was already \
         installed\nthe SessionStart hook was already installed\n"
    );
}

#[test]
fn a_stale_system_append_md_is_kept_and_named_as_unused() {
    let stale = |format| {
        let done = Installing::Merged {
            statuses: Ok(vec![InstallStatus::Installed; 3]),
            stale: true,
        };
        install(format, "/home/me/settings", "settings", done)
    };

    assert!(body_text(&stale(Format::Text)).ends_with(
        "~/settings/system-append.md is no longer used \u{b7} remove any \
         --append-system-prompt-file alias for it\n"
    ));
    assert!(body_text(&stale(Format::Json)).ends_with("system_append=unused\n"));
}

#[test]
fn no_system_append_md_means_no_stale_note() {
    let outcome = Settings::new().install(Format::Text);

    assert!(body_text(&outcome).ends_with("added the SessionStart hook\n"));
}

#[test]
fn an_install_that_cannot_be_made_is_answered_by_why() {
    let refused = Error::InstallRefused { detail: "another lets is first on PATH".to_owned() };
    let outcome = install(Format::Text, "/s", "s", Installing::Refused(refused));
    assert_eq!(outcome.error.expect("a failure").slug(), "install_refused");
    assert_eq!(outcome.response.verb, "hooks install");

    let not_made = |missing| {
        let done = Installing::NotMade { detail: "denied".to_owned(), missing };
        install(Format::Text, "/s", "s", done).error.expect("a failure")
    };
    assert_eq!(not_made(false).text(), "/s: denied");
    assert_eq!(not_made(false).slug(), "io_error");
    assert_eq!(not_made(true).slug(), "not_found");

    let failed = Error::Io { path: "s".to_owned(), detail: "bad".to_owned(), missing: false };
    let done = Installing::Merged { statuses: Err(failed), stale: false };
    let outcome = install(Format::Text, "/s", "s", done);
    assert_eq!(outcome.error.expect("a failure").slug(), "io_error");

    let failed = Error::Locked { path: "s".to_owned() };
    let outcome = uninstall(Format::Text, &claude_code_entries(), Err(failed));
    assert_eq!(outcome.response.verb, "hooks uninstall");
    assert_eq!(outcome.error.expect("a failure").slug(), "locked");
}

#[test]
fn json_format_reports_installed_then_already_installed_as_stable_tokens() {
    let mut settings = Settings::new();
    let first = settings.install(Format::Json);
    assert_eq!(
        body_text(&first),
        "PreToolUse=installed\nSubagentStart=installed\nSessionStart=installed\n"
    );

    let outcome = settings.install(Format::Json);

    assert_eq!(
        body_text(&outcome),
        "PreToolUse=already_installed\nSubagentStart=already_installed\nSessionStart=\
         already_installed\n"
    );
}

#[test]
fn only_a_lets_hook_classify_command_is_recognised_as_ours() {
    assert!(is_classify("lets hook classify"));
    assert!(is_classify("/usr/local/bin/lets hook classify"));
    assert!(!is_classify("echo lets hook classify disabled"));
    assert!(!is_classify("lets hook classify --verbose"));
    assert!(!is_classify("notlets hook classify"));
}

#[test]
fn both_guarded_classify_forms_are_recognised_as_ours_and_near_misses_are_not() {
    assert!(is_classify(GUARDED));
    assert!(is_classify(GUARDED_AT_PATH));
    assert!(is_classify(
        "if [ -x '/opt/my $dir/lets' ]; then '/opt/my $dir/lets' hook classify; fi"
    ));
    assert!(!is_classify(
        "if [ -x /usr/local/bin/lets ]; then /opt/bin/lets hook classify; fi"
    ));
    assert!(!is_classify(
        "if [ -x /usr/bin/notlets ]; then /usr/bin/notlets hook classify; fi"
    ));
    assert!(!is_classify(
        "if [ -x bin/lets ]; then bin/lets hook classify; fi"
    ));
    assert!(!is_classify(
        "if command -v lets >/dev/null 2>&1; then lets hook classify --verbose; fi"
    ));
    assert!(!is_guide(GUARDED));
}

#[test]
fn installing_twice_over_the_unguarded_entry_leaves_one_guarded_entry() {
    let mut settings = Settings::with("PreToolUse", "lets hook classify");

    let first = settings.install(Format::Text);
    let second = settings.install(Format::Text);

    assert!(body_text(&first).starts_with("updated the PreToolUse hook\n"));
    assert!(body_text(&second).starts_with("the PreToolUse hook was already installed\n"));
    assert_eq!(settings.of("PreToolUse"), [GUARDED]);
}

#[test]
fn an_install_that_named_an_executable_absolute_path_keeps_it_inside_the_guard() {
    let program = "/srv/tools/lets";
    let guarded_at = format!("if [ -x {program} ]; then {program} hook classify; fi");
    for existing in [format!("{program} hook classify"), guarded_at.clone()] {
        let mut settings = Settings::with("PreToolUse", &existing);
        settings.executable = true;

        settings.install(Format::Text);
        let again = settings.install(Format::Text);

        assert_eq!(settings.of("PreToolUse"), [guarded_at.as_str()]);
        assert!(
            body_text(&again).starts_with("the PreToolUse hook was already installed\n"),
            "{existing}"
        );
    }
}

#[test]
fn an_absolute_path_that_no_longer_runs_lets_is_replaced_by_the_path_lookup() {
    let program = "/srv/gone/lets";
    let unguarded = format!("{program} hook classify");
    let guarded_at = format!("if [ -x {program} ]; then {program} hook classify; fi");
    for existing in [unguarded, guarded_at] {
        let mut settings = Settings::with("PreToolUse", &existing);

        let first = settings.install(Format::Text);

        assert_eq!(settings.of("PreToolUse"), [GUARDED], "{existing}");
        assert!(
            body_text(&first).starts_with("updated the PreToolUse hook\n"),
            "{existing}"
        );
    }
}

#[test]
fn an_install_that_named_lets_by_a_relative_path_gets_the_path_lookup_guard() {
    let mut settings = Settings::with("PreToolUse", "bin/lets hook classify");
    settings.executable = true;

    settings.install(Format::Text);

    assert_eq!(settings.of("PreToolUse"), [GUARDED]);
}

#[test]
fn uninstall_removes_the_unguarded_and_both_guarded_forms() {
    for existing in [
        "lets hook classify",
        "/usr/local/bin/lets hook classify",
        GUARDED,
        GUARDED_AT_PATH,
    ] {
        let mut settings = Settings::with("PreToolUse", existing);

        let outcome = settings.uninstall(Format::Text);

        assert_eq!(
            body_text(&outcome),
            "removed the PreToolUse hook\n",
            "{existing}"
        );
        assert!(settings.commands.is_empty(), "{existing}");
    }
}

#[test]
fn every_earlier_installed_form_and_the_current_one_are_recognised_as_the_session_start_hook() {
    assert!(is_guide(&session_start_command()));
    assert!(is_guide(&legacy_env_guarded_guide_command()));
    assert!(is_guide(&legacy_unconditional_guide_command()));
    assert!(is_guide(GUIDE_ONLY_COMMAND));
    assert!(is_guide("lets guide"));
    assert!(is_guide("/usr/local/bin/lets guide"));
    assert!(!is_guide("lets guide --json"));
    assert!(!is_guide("echo lets guide"));
    assert!(!is_guide("lets hook classify"));
}

#[test]
fn an_existing_session_start_hook_of_another_tool_is_kept_beside_ours() {
    let mut settings = Settings::with("SessionStart", "echo hello");

    let outcome = settings.install(Format::Text);

    assert!(outcome.error.is_none(), "{:?}", outcome.error);
    assert_eq!(
        settings.of("SessionStart"),
        ["echo hello", session_start_command().as_str()]
    );
}

fn assert_session_start_upgrades_to_the_current_command(old_command: &str) {
    let mut settings = Settings::with("SessionStart", old_command);

    let outcome = settings.install(Format::Text);

    assert!(body_text(&outcome).contains("updated the SessionStart hook"));
    assert_eq!(settings.of("SessionStart"), [session_start_command()]);
}

#[test]
fn a_bare_lets_guide_hook_is_updated_to_the_paragraph_only_command_not_duplicated() {
    assert_session_start_upgrades_to_the_current_command("lets guide");
}

#[test]
fn a_guide_only_guarded_hook_is_updated_to_the_paragraph_only_command_not_duplicated() {
    assert_session_start_upgrades_to_the_current_command(GUIDE_ONLY_COMMAND);
}

#[test]
fn a_legacy_env_guarded_guide_hook_is_updated_to_the_paragraph_only_command_not_duplicated() {
    assert_session_start_upgrades_to_the_current_command(&legacy_env_guarded_guide_command());
}

#[test]
fn a_legacy_unconditional_guide_hook_is_updated_to_the_paragraph_only_command_not_duplicated() {
    assert_session_start_upgrades_to_the_current_command(&legacy_unconditional_guide_command());
}

#[test]
fn uninstall_names_each_removed_hook_then_finds_nothing_the_second_time() {
    let mut settings = Settings::new();
    settings.install(Format::Text);

    let first = settings.uninstall(Format::Text);
    let second = settings.uninstall(Format::Text);

    assert!(first.error.is_none(), "{:?}", first.error);
    assert_eq!(
        body_text(&first),
        "removed the PreToolUse hook\nremoved the SubagentStart hook\nremoved the SessionStart \
         hook\n"
    );
    assert_eq!(body_text(&second), "nothing to remove\n");
    assert!(settings.commands.is_empty());
}

#[test]
fn uninstall_reports_stable_tokens_in_json() {
    let mut settings = Settings::new();
    settings.install(Format::Text);

    let first = settings.uninstall(Format::Json);
    let second = settings.uninstall(Format::Json);

    assert_eq!(
        body_text(&first),
        "PreToolUse=removed\nSubagentStart=removed\nSessionStart=removed\n"
    );
    assert_eq!(body_text(&second), "nothing_to_remove\n");
}

#[test]
fn uninstall_removes_every_earlier_session_start_form() {
    for old_command in [
        "lets guide".to_owned(),
        GUIDE_ONLY_COMMAND.to_owned(),
        legacy_env_guarded_guide_command(),
        legacy_unconditional_guide_command(),
    ] {
        let mut settings = Settings::with("SessionStart", &old_command);

        let outcome = settings.uninstall(Format::Text);

        assert_eq!(
            body_text(&outcome),
            "removed the SessionStart hook\n",
            "{old_command}"
        );
        assert!(settings.commands.is_empty());
    }
}

#[test]
fn a_quoted_path_is_read_back_as_it_was() {
    for program in ["/usr/bin/lets", "/it's/lets", "/a b/$c/'''/lets", "/\u{e9}/lets/", "/x/lets/."] {
        let command = classify_guarded_at(program);
        assert_eq!(absolute_program(&command).as_deref(), Some(program), "{command}");
        assert_eq!(keep_absolute_path(&command, true), Some(command.clone()));
        assert_eq!(keep_absolute_path(&command, false), None);
    }
    assert_eq!(quote_path("/usr/bin/lets"), "/usr/bin/lets");
    assert_eq!(quote_path("/it's/lets"), r"'/it'\''s/lets'");
    assert!(!is_classify(&classify_guarded_at("/a ]; then b/lets")));
    assert_eq!(absolute_program(CLASSIFY_COMMAND), None);
}

#[test]
fn the_session_command_holds_the_paragraph_within_one_quoted_word() {
    let command = session_start_command();
    let quoted = command
        .strip_prefix("if command -v lets >/dev/null 2>&1; then printf '%s\\n' '")
        .and_then(|rest| rest.strip_suffix("'; fi"))
        .expect("the guard round one quoted word");
    assert_eq!(quoted.replace(r"'\''", "'"), CLAUDE_CODE_PARAGRAPH);
    assert!(is_subagent_start(&subagent_start_command()));
    assert!(!is_subagent_start(&command));
    assert!(subagent_start_command().starts_with(SUBAGENT_START_PREFIX));
    let legacy = legacy_unconditional_guide_command();
    assert!(legacy.contains(LEGACY_PARAGRAPH.trim_end()));
    assert!(legacy.ends_with("'; lets guide; fi"));
}

#[test]
fn a_relative_codex_home_is_refused_and_an_empty_one_is_none() {
    assert_eq!(codex_dir(Some("/c"), "/h").expect("an absolute path"), "/c");
    assert_eq!(codex_dir(Some(""), "/h").expect("no value"), "/h/.codex");
    assert_eq!(codex_dir(None, "/h/").expect("no value"), "/h/.codex");
    assert_eq!(path_under("", "x"), "x");
    assert_eq!(path_name("/usr/bin/lets/."), Some("lets"));
    assert_eq!(path_name("/usr/bin/.."), None);
    let error = codex_dir(Some("c"), "/h").unwrap_err();
    assert_eq!(error.slug(), "usage");
    assert_eq!(
        error.text(),
        "CODEX_HOME=c is a relative path \u{b7} set it to an absolute path, or unset it to \
         install under ~/.codex"
    );
}

#[test]
fn this_lets_absent_from_path_refuses_before_writing_anything() {
    let refused = Error::InstallRefused { detail: "lets is not on PATH".to_owned() };

    let outcome = install(Format::Text, "/s", "s", Installing::Refused(refused));

    assert!(matches!(outcome.error, Some(Error::InstallRefused { .. })));
    assert!(!outcome.response.has_output());
}

#[test]
fn uninstall_with_no_settings_file_creates_none() {
    let mut settings = Settings::new();

    let outcome = settings.uninstall(Format::Text);

    assert!(outcome.error.is_none(), "{:?}", outcome.error);
    assert_eq!(body_text(&outcome), "nothing to remove\n");
    assert!(settings.commands.is_empty());
}

#[test]
fn each_command_goes_to_its_own_directory() {
    let install = |target| HooksCmd::Install { target };
    let uninstall = |target| HooksCmd::Uninstall { target };
    let home = "/home/me";

    assert_eq!(claude_dir(home, "set"), "/home/me/set");
    let task = run(install(HookTarget::ClaudeCode), "set", None, home);
    assert!(matches!(task, Task::Install(dir) if dir == "/home/me/set"));
    let task = run(uninstall(HookTarget::ClaudeCode), "set", Some("rel"), home);
    assert!(matches!(task, Task::Uninstall(dir) if dir == "/home/me/set"));
    let task = run(install(HookTarget::Codex), "set", Some("/codex"), home);
    assert!(matches!(task, Task::CodexInstall(dir) if dir == "/codex"));
    let task = run(uninstall(HookTarget::Codex), "set", None, home);
    assert!(matches!(task, Task::CodexUninstall(dir) if dir == "/home/me/.codex"));
    for cmd in [install(HookTarget::Codex), uninstall(HookTarget::Codex)] {
        let Task::Answer(outcome) = run(cmd, "set", Some("rel"), home) else {
            panic!("a relative home is refused");
        };
        assert_eq!(outcome.error.expect("a failure").slug(), "usage");
    }
}

#[test]
fn a_guarded_command_names_the_program_it_was_made_for() {
    for program in ["/usr/bin/lets", "/a b/lets", "/it's/$HOME/lets", "/\"q\"/lets"] {
        let command = classify_guarded_at(program);
        assert_eq!(classify_program(&command).as_deref(), Some(program), "{command}");
    }
    assert_eq!(classify_program("if [ -x /bin/other ]; then /bin/other hook classify; fi"), None);
}
