//! Installing the hooks, and what is said of it.
use vstd::prelude::*;

use crate::error::{is_usage, usage, Error};
use crate::hooks::classify::{absolute, is_absolute, is_classify, keep_absolute_path, program_of};
use crate::hooks::texts::{
    legacy_env_guarded_guide, legacy_env_guarded_guide_command, legacy_unconditional_guide,
    legacy_unconditional_guide_command, session_start, session_start_command, subagent_start,
    subagent_start_command, GUARDED_CLASSIFY_COMMAND, GUIDE_ONLY_COMMAND, SESSION_START_MATCHER,
    SUBAGENT_START_PREFIX,
};
use crate::output::{Format, Outcome, Response};
use crate::shell::{runs_lets_with, runs_with};
use crate::text;
use crate::text::{joined, texts};

pub mod classify;
pub mod texts;

verus! {

/// The command is one that a session was ever told by.
pub open spec fn is_guide_command(command: Seq<char>) -> bool {
    ||| command == session_start()
    ||| command == legacy_env_guarded_guide()
    ||| command == legacy_unconditional_guide()
    ||| command == GUIDE_ONLY_COMMAND@
    ||| runs_with(command, seq!["guide"@])
}

/// Every earlier form counts as ours, so that an upgrade replaces it instead of adding a second
/// hook.
pub fn is_guide(command: &str) -> (r: bool)
    ensures
        r == is_guide_command(command@),
{
    let mut args: Vec<String> = Vec::new();
    args.push("guide".to_owned());
    assert(texts(args@) =~= seq!["guide"@]);
    text::same(command, session_start_command().as_str()) || text::same(
        command,
        legacy_env_guarded_guide_command().as_str(),
    ) || text::same(command, legacy_unconditional_guide_command().as_str()) || text::same(
        command,
        GUIDE_ONLY_COMMAND,
    ) || runs_lets_with(command, &args)
}

pub fn is_subagent_start(command: &str) -> (r: bool)
    ensures
        r == SUBAGENT_START_PREFIX@.is_prefix_of(command@),
{
    text::starts_with(command, SUBAGENT_START_PREFIX)
}

/// Which hook an entry is.
#[derive(Debug, Clone, Copy, PartialEq, Eq, Structural)]
pub enum Hook {
    Classify,
    Subagent,
    Session,
}

/// The command is one that was ever installed as this hook.
pub open spec fn is_ours_of(hook: Hook, command: Seq<char>) -> bool {
    match hook {
        Hook::Classify => program_of(command) is Some,
        Hook::Subagent => SUBAGENT_START_PREFIX@.is_prefix_of(command),
        Hook::Session => is_guide_command(command),
    }
}

/// An entry of the settings.
#[derive(Debug)]
pub struct HookEntry {
    pub hook: Hook,
    pub event: &'static str,
    pub matcher: Option<&'static str>,
    pub command: String,
}

impl HookEntry {
    /// Whether a command that stands in the settings is this hook, in this form or an earlier one.
    pub fn is_ours(&self, command: &str) -> (r: bool)
        ensures
            r == is_ours_of(self.hook, command@),
    {
        match self.hook {
            Hook::Classify => is_classify(command),
            Hook::Subagent => is_subagent_start(command),
            Hook::Session => is_guide(command),
        }
    }

    /// The command that takes the place of one that is ours, where it is not the entry's own;
    /// `executable` says that the program the command names by its path is an executable file.
    pub fn carry_over(&self, existing: &str, executable: bool) -> (r: Option<String>)
        ensures
            match r {
                Some(command) => self.hook == Hook::Classify && executable && (
                classify::kept_path(existing@) matches Some(program) && command@
                    == classify::guarded_at(program)),
                None => self.hook != Hook::Classify || !executable || classify::kept_path(
                    existing@,
                ) is None,
            },
    {
        match self.hook {
            Hook::Classify => keep_absolute_path(existing, executable),
            _ => None,
        }
    }
}

/// The entry says this.
pub open spec fn is_entry(
    entry: HookEntry,
    hook: Hook,
    event: Seq<char>,
    matcher: Option<Seq<char>>,
    command: Seq<char>,
) -> bool {
    &&& entry.hook == hook
    &&& entry.event@ == event
    &&& match (entry.matcher, matcher) {
        (Some(a), Some(b)) => a@ == b,
        (None, None) => true,
        _ => false,
    }
    &&& entry.command@ == command
}

/// The three entries, each of which knows its own command again.
pub open spec fn are_entries(entries: Seq<HookEntry>) -> bool {
    &&& entries.len() == 3
    &&& is_entry(
        entries[0],
        Hook::Classify,
        "PreToolUse"@,
        Some("Bash"@),
        GUARDED_CLASSIFY_COMMAND@,
    )
    &&& is_entry(entries[1], Hook::Subagent, "SubagentStart"@, None, subagent_start())
    &&& is_entry(
        entries[2],
        Hook::Session,
        "SessionStart"@,
        Some(SESSION_START_MATCHER@),
        session_start(),
    )
}

pub fn claude_code_entries() -> (r: Vec<HookEntry>)
    ensures
        are_entries(r@),
{
    let mut entries: Vec<HookEntry> = Vec::new();
    entries.push(
        HookEntry {
            hook: Hook::Classify,
            event: "PreToolUse",
            matcher: Some("Bash"),
            command: GUARDED_CLASSIFY_COMMAND.to_owned(),
        },
    );
    entries.push(
        HookEntry {
            hook: Hook::Subagent,
            event: "SubagentStart",
            matcher: None,
            command: subagent_start_command(),
        },
    );
    entries.push(
        HookEntry {
            hook: Hook::Session,
            event: "SessionStart",
            matcher: Some(SESSION_START_MATCHER),
            command: session_start_command(),
        },
    );
    entries
}

/// Whatever is installed is known again as ours, so that a second install finds it and an uninstall
/// removes it.
pub proof fn law_what_is_installed_is_ours(entries: Seq<HookEntry>, i: int)
    requires
        are_entries(entries),
        0 <= i < entries.len(),
    ensures
        is_ours_of(entries[i].hook, entries[i].command@),
{
    if i == 0 {
        classify::law_installed_commands_are_known();
    } else if i == 1 {
        let command = subagent_start();
        assert(SUBAGENT_START_PREFIX@ =~= command.subrange(
            0,
            SUBAGENT_START_PREFIX@.len() as int,
        ));
    }
}

/// What merging an entry came to.
#[derive(Debug, Clone, Copy, PartialEq, Eq, Structural)]
pub enum InstallStatus {
    Installed,
    Updated,
    AlreadyInstalled,
}

/// What is said of one hook.
pub open spec fn hook_says(format: Format, label: Seq<char>, status: InstallStatus) -> Seq<char> {
    match (format, status) {
        (Format::Text, InstallStatus::Installed) => "added the "@ + label + " hook"@,
        (Format::Text, InstallStatus::Updated) => "updated the "@ + label + " hook"@,
        (Format::Text, InstallStatus::AlreadyInstalled) => "the "@ + label
            + " hook was already installed"@,
        (_, InstallStatus::Installed) => label + "=installed"@,
        (_, InstallStatus::Updated) => label + "=updated"@,
        (_, InstallStatus::AlreadyInstalled) => label + "=already_installed"@,
    }
}

pub fn hook_line(format: Format, label: &str, status: InstallStatus) -> (r: String)
    ensures
        r@ == hook_says(format, label@, status),
{
    match (format, status) {
        (Format::Text, InstallStatus::Installed) => "added the ".to_owned().concat(label).concat(
            " hook",
        ),
        (Format::Text, InstallStatus::Updated) => "updated the ".to_owned().concat(label).concat(
            " hook",
        ),
        (Format::Text, InstallStatus::AlreadyInstalled) => "the ".to_owned().concat(label).concat(
            " hook was already installed",
        ),
        (_, InstallStatus::Installed) => label.to_owned().concat("=installed"),
        (_, InstallStatus::Updated) => label.to_owned().concat("=updated"),
        (_, InstallStatus::AlreadyInstalled) => label.to_owned().concat("=already_installed"),
    }
}

/// What is said of an append file that an earlier install left: the same whatever directory is
/// installed to.
pub open spec fn stale_note(format: Format, name: Seq<char>) -> Seq<char> {
    match format {
        Format::Text => "~/"@ + name
            + "/system-append.md is no longer used \u{b7} remove any --append-system-prompt-file alias for it"@,
        Format::Json | Format::Jsonl => "system_append=unused"@,
    }
}

/// An append file that an earlier install left is named and not deleted: an alias may still point
/// at it. `stale` says that it is there, and `name` is that of the settings' own directory.
pub fn stale_system_append_note(format: Format, stale: bool, name: &str) -> (r: Option<String>)
    ensures
        if stale {
            r matches Some(note) && note@ == stale_note(format, name@)
        } else {
            r is None
        },
{
    if !stale {
        return None;
    }
    Some(
        match format {
            Format::Text => "~/".to_owned().concat(name).concat(
                "/system-append.md is no longer used \u{b7} remove any --append-system-prompt-file alias for it",
            ),
            Format::Json | Format::Jsonl => "system_append=unused".to_owned(),
        },
    )
}

/// What is said of an install.
pub open spec fn install_says(
    format: Format,
    statuses: Seq<InstallStatus>,
    stale: bool,
    name: Seq<char>,
) -> Seq<char> {
    let lines = seq![
        hook_says(format, "PreToolUse"@, statuses[0]),
        hook_says(format, "SubagentStart"@, statuses[1]),
        hook_says(format, "SessionStart"@, statuses[2]),
    ];
    joined(
        if stale {
            lines.push(stale_note(format, name))
        } else {
            lines
        },
        "\n"@,
    ) + "\n"@
}

pub fn report(format: Format, statuses: &Vec<InstallStatus>, stale: bool, name: &str) -> (r: String)
    requires
        statuses@.len() >= 3,
    ensures
        r@ == install_says(format, statuses@, stale, name@),
{
    let mut lines: Vec<String> = Vec::new();
    lines.push(hook_line(format, "PreToolUse", statuses[0]));
    lines.push(hook_line(format, "SubagentStart", statuses[1]));
    lines.push(hook_line(format, "SessionStart", statuses[2]));
    let ghost three = seq![
        hook_says(format, "PreToolUse"@, statuses@[0]),
        hook_says(format, "SubagentStart"@, statuses@[1]),
        hook_says(format, "SessionStart"@, statuses@[2]),
    ];
    assert(texts(lines@) =~= three);
    if let Some(note) = stale_system_append_note(format, stale, name) {
        lines.push(note);
        assert(texts(lines@) =~= three.push(note@));
    }
    text::join(&lines, "\n").concat("\n")
}

/// The first `n` hooks that were removed.
pub open spec fn removed_upto(
    format: Format,
    entries: Seq<HookEntry>,
    removed: Seq<bool>,
    n: int,
) -> Seq<Seq<char>>
    decreases n,
{
    if n <= 0 {
        Seq::empty()
    } else {
        let before = removed_upto(format, entries, removed, n - 1);
        if removed[n - 1] {
            before.push(
                match format {
                    Format::Text => "removed the "@ + entries[n - 1].event@ + " hook"@,
                    Format::Json | Format::Jsonl => entries[n - 1].event@ + "=removed"@,
                },
            )
        } else {
            before
        }
    }
}

pub open spec fn shorter(a: int, b: int) -> int {
    if a < b {
        a
    } else {
        b
    }
}

/// What is said of an uninstall.
pub open spec fn uninstall_says(
    format: Format,
    entries: Seq<HookEntry>,
    removed: Seq<bool>,
) -> Seq<char> {
    let lines = removed_upto(
        format,
        entries,
        removed,
        shorter(entries.len() as int, removed.len() as int),
    );
    if lines.len() == 0 {
        match format {
            Format::Text => "nothing to remove\n"@,
            Format::Json | Format::Jsonl => "nothing_to_remove\n"@,
        }
    } else {
        joined(lines, "\n"@) + "\n"@
    }
}

pub fn uninstall_report(format: Format, entries: &Vec<HookEntry>, removed: &Vec<bool>) -> (r:
    String)
    ensures
        r@ == uninstall_says(format, entries@, removed@),
{
    let count = if entries.len() < removed.len() {
        entries.len()
    } else {
        removed.len()
    };
    let mut lines: Vec<String> = Vec::new();
    let mut i: usize = 0;
    assert(texts(lines@) =~= Seq::empty());
    while i < count
        invariant
            i <= count <= entries@.len(),
            count <= removed@.len(),
            texts(lines@) == removed_upto(format, entries@, removed@, i as int),
        decreases count - i,
    {
        let ghost had = lines@;
        if removed[i] {
            let line = match format {
                Format::Text => "removed the ".to_owned().concat(entries[i].event).concat(" hook"),
                Format::Json | Format::Jsonl => entries[i].event.to_owned().concat("=removed"),
            };
            lines.push(line);
            assert(texts(lines@) =~= texts(had).push(line@));
        }
        i = i + 1;
    }
    assert(texts(lines@).len() == lines@.len());
    if lines.len() == 0 {
        match format {
            Format::Text => "nothing to remove\n".to_owned(),
            Format::Json | Format::Jsonl => "nothing_to_remove\n".to_owned(),
        }
    } else {
        text::join(&lines, "\n").concat("\n")
    }
}

/// The answer that is this text.
pub fn raw(text: String) -> (r: Response)
    ensures
        r.is_raw("hooks"@, "hooks"@, text@),
{
    Response::raw("hooks", "hooks", text)
}

/// How far an install came.
#[derive(Debug)]
pub enum Installing {
    /// The program that runs is not the one that the hooks would run.
    Refused(Error),
    /// The directory could not be made; `missing` where a part of its path is not there.
    NotMade { detail: String, missing: bool },
    /// The entries were merged into the settings; `stale` says that an append file is beside them.
    Merged { statuses: Result<Vec<InstallStatus>, Error>, stale: bool },
}

/// The answer to an install.
pub open spec fn is_installed(
    outcome: Outcome,
    format: Format,
    dir: Seq<char>,
    name: Seq<char>,
    done: Installing,
) -> bool {
    match done {
        Installing::Refused(error) => outcome.is_failed("hooks install"@, error),
        Installing::NotMade { detail, missing } => outcome.response.is_empty_for("hooks install"@)
            && (outcome.error matches Some(Error::Io { path, detail: d, missing: m }) && path@
            == dir && d@ == detail@ && m == missing),
        Installing::Merged { statuses: Err(error), .. } => outcome.is_failed(
            "hooks install"@,
            error,
        ),
        Installing::Merged { statuses: Ok(statuses), stale } => outcome.error is None
            && outcome.response.is_raw(
            "hooks"@,
            "hooks"@,
            install_says(format, statuses@, stale, name),
        ),
    }
}

/// The answer to an install to the directory `dir`; `name` is that of the settings' own directory.
pub fn install(format: Format, dir: &str, name: &str, done: Installing) -> (r: Outcome)
    requires
        done matches Installing::Merged { statuses: Ok(statuses), .. } ==> statuses@.len() >= 3,
    ensures
        is_installed(r, format, dir@, name@, done),
{
    match done {
        Installing::Refused(error) => Outcome::failed("hooks install", error),
        Installing::NotMade { detail, missing } => Outcome::failed(
            "hooks install",
            Error::Io { path: dir.to_owned(), detail, missing },
        ),
        Installing::Merged { statuses: Err(error), .. } => Outcome::failed("hooks install", error),
        Installing::Merged { statuses: Ok(statuses), stale } => Outcome::ok(
            raw(report(format, &statuses, stale, name)),
        ),
    }
}

/// The answer to an uninstall. The program itself is not looked for: removing the entries needs
/// none, and where it is broken is where uninstalling matters most.
pub fn uninstall(
    format: Format,
    entries: &Vec<HookEntry>,
    removed: Result<Vec<bool>, Error>,
) -> (r: Outcome)
    ensures
        match removed {
            Ok(removed) => r.error is None && r.response.is_raw(
                "hooks"@,
                "hooks"@,
                uninstall_says(format, entries@, removed@),
            ),
            Err(error) => r.is_failed("hooks uninstall"@, error),
        },
{
    match removed {
        Ok(removed) => Outcome::ok(raw(uninstall_report(format, entries, &removed))),
        Err(error) => Outcome::failed("hooks uninstall", error),
    }
}

/// A name under a directory.
pub open spec fn under(dir: Seq<char>, name: Seq<char>) -> Seq<char> {
    if dir.len() == 0 || dir.last() == '/' {
        dir + name
    } else {
        dir + "/"@ + name
    }
}

pub fn path_under(dir: &str, name: &str) -> (r: String)
    ensures
        r@ == under(dir@, name@),
{
    let n = dir.unicode_len();
    if n == 0 || dir.get_char(n - 1) == '/' {
        dir.to_owned().concat(name)
    } else {
        dir.to_owned().concat("/").concat(name)
    }
}

/// The directory of the settings that hooks are installed to: the one of that name in the user's.
pub fn claude_dir(home: &str, name: &str) -> (r: String)
    ensures
        r@ == under(home@, name@),
{
    path_under(home, name)
}

/// The directory of Codex's hooks, or why there is none. A value that is empty counts as none, and a
/// relative one is refused: either would stand for the current directory, and put the hooks into
/// that project.
pub open spec fn is_codex_dir(value: Option<&str>, home: Seq<char>, r: Result<String, Error>) -> bool {
    match value {
        Some(value) if value@.len() > 0 => if is_absolute(value@) {
            r matches Ok(dir) && dir@ == value@
        } else {
            r matches Err(error) && is_usage(
                error,
                "CODEX_HOME="@ + value@
                    + " is a relative path \u{b7} set it to an absolute path, or unset it to install under ~/.codex"@,
            )
        },
        _ => r matches Ok(dir) && dir@ == under(home, ".codex"@),
    }
}

pub fn codex_dir(value: Option<&str>, home: &str) -> (r: Result<String, Error>)
    ensures
        is_codex_dir(value, home@, r),
{
    if let Some(value) = value {
        if value.unicode_len() > 0 {
            if absolute(value) {
                return Ok(value.to_owned());
            }
            return Err(
                usage(
                    "CODEX_HOME=".to_owned().concat(value).concat(
                        " is a relative path \u{b7} set it to an absolute path, or unset it to install under ~/.codex",
                    ),
                ),
            );
        }
    }
    Ok(path_under(home, ".codex"))
}

/// Whose hooks a command is about.
#[derive(Debug, Clone, Copy, PartialEq, Eq, Structural)]
pub enum HookTarget {
    ClaudeCode,
    Codex,
}

#[derive(Debug, Clone, Copy, PartialEq, Eq, Structural)]
pub enum HooksCmd {
    Install { target: HookTarget },
    Uninstall { target: HookTarget },
}

/// What a command comes to, in a directory.
#[derive(Debug)]
pub enum Task {
    Install(String),
    Uninstall(String),
    CodexInstall(String),
    CodexUninstall(String),
    Answer(Outcome),
}

/// What a command is to do. `name` is that of the settings' directory, `codex_home` where Codex's
/// home is said to be, and `home` the user's.
pub fn run(cmd: HooksCmd, name: &str, codex_home: Option<&str>, home: &str) -> (r: Task)
    ensures
        match cmd {
            HooksCmd::Install { target: HookTarget::ClaudeCode } => r matches Task::Install(dir)
                && dir@ == under(home@, name@),
            HooksCmd::Uninstall { target: HookTarget::ClaudeCode } => r matches Task::Uninstall(
                dir,
            ) && dir@ == under(home@, name@),
            HooksCmd::Install { target: HookTarget::Codex } => match r {
                Task::CodexInstall(dir) => is_codex_dir(codex_home, home@, Ok(dir)),
                Task::Answer(outcome) => exists|error: Error| #[trigger]
                    is_codex_dir(codex_home, home@, Err(error)) && outcome.is_failed(
                        "hooks install"@,
                        error,
                    ),
                _ => false,
            },
            HooksCmd::Uninstall { target: HookTarget::Codex } => match r {
                Task::CodexUninstall(dir) => is_codex_dir(codex_home, home@, Ok(dir)),
                Task::Answer(outcome) => exists|error: Error| #[trigger]
                    is_codex_dir(codex_home, home@, Err(error)) && outcome.is_failed(
                        "hooks uninstall"@,
                        error,
                    ),
                _ => false,
            },
        },
{
    match cmd {
        HooksCmd::Install { target: HookTarget::ClaudeCode } => Task::Install(
            claude_dir(home, name),
        ),
        HooksCmd::Uninstall { target: HookTarget::ClaudeCode } => Task::Uninstall(
            claude_dir(home, name),
        ),
        HooksCmd::Install { target: HookTarget::Codex } => match codex_dir(codex_home, home) {
            Ok(dir) => Task::CodexInstall(dir),
            Err(error) => Task::Answer(Outcome::failed("hooks install", error)),
        },
        HooksCmd::Uninstall { target: HookTarget::Codex } => match codex_dir(codex_home, home) {
            Ok(dir) => Task::CodexUninstall(dir),
            Err(error) => Task::Answer(Outcome::failed("hooks uninstall", error)),
        },
    }
}

/// Of an uninstall exactly the hooks that were removed are told, each by its event, in their order;
/// one that removed none says so.
pub proof fn law_each_removed_hook_is_told(
    format: Format,
    entries: Seq<HookEntry>,
    removed: Seq<bool>,
    n: int,
)
    requires
        0 <= n <= entries.len(),
        n <= removed.len(),
    ensures
        removed_upto(format, entries, removed, n).len() == removed.take(n).filter(
            |gone: bool| gone,
        ).len(),
        forall|i: int|
            0 <= i < n && #[trigger] removed[i] ==> removed_upto(
                format,
                entries,
                removed,
                n,
            ).contains(
                if format is Text {
                    "removed the "@ + entries[i].event@ + " hook"@
                } else {
                    entries[i].event@ + "=removed"@
                },
            ),
    decreases n,
{
    reveal(Seq::filter);
    if n > 0 {
        law_each_removed_hook_is_told(format, entries, removed, n - 1);
        assert(removed.take(n).drop_last() =~= removed.take(n - 1));
        let (had, all) = (
            removed_upto(format, entries, removed, n - 1),
            removed_upto(format, entries, removed, n),
        );
        assert forall|line: Seq<char>| #[trigger] had.contains(line) implies all.contains(line) by {
            let j = choose|j: int| 0 <= j < had.len() && had[j] == line;
            assert(all[j] == line);
        }
        if removed[n - 1] {
            assert(all.contains(all.last()));
        }
    }
}

/// A name under a directory is the last name of its path, and the directory stands before it.
pub proof fn law_a_name_stands_under_its_directory(dir: Seq<char>, name: Seq<char>)
    requires
        name.len() > 0,
        !name.contains('/'),
        name != seq!['.'],
        name != seq!['.', '.'],
    ensures
        crate::shell::name_of(under(dir, name)) == Some(name),
        dir.is_prefix_of(under(dir, name)),
        under(dir, name).len() <= dir.len() + 1 + name.len(),
{
    reveal_strlit("/");
    if dir.len() == 0 || dir.last() == '/' {
        crate::shell::law_a_path_is_named_by_its_last_name(dir, name);
    } else {
        assert("/"@ =~= seq!['/']);
        assert((dir + "/"@).last() == '/');
        crate::shell::law_a_path_is_named_by_its_last_name(dir + "/"@, name);
    }
    assert(under(dir, name).subrange(0, dir.len() as int) =~= dir);
}

/// The directory that is installed to is never a relative one that was set: one that is set and
/// absolute is taken as it is, an empty one counts as not set, and any other is refused.
pub proof fn law_a_relative_directory_is_refused(
    value: Option<&str>,
    home: Seq<char>,
    r: Result<String, Error>,
)
    requires
        is_codex_dir(value, home, r),
    ensures
        match r {
            Ok(dir) => (value is Some && (value->0)@.len() > 0 && dir@ == (value->0)@ && dir@[0]
                == '/') || ((value is None || (value->0)@.len() == 0) && home.is_prefix_of(dir@)),
            Err(_) => value is Some && (value->0)@.len() > 0 && (value->0)@[0] != '/',
        },
{
    if let Ok(dir) = r {
        if value is None || (value->0)@.len() == 0 {
            assert(under(home, ".codex"@).subrange(0, home.len() as int) =~= home);
        }
    }
}

/// An uninstall that removed nothing says so, and one that removed a hook does not.
pub proof fn law_an_uninstall_says_whether_anything_was_there(
    format: Format,
    entries: Seq<HookEntry>,
    removed: Seq<bool>,
)
    requires
        removed.len() == entries.len(),
    ensures
        (forall|i: int| 0 <= i < removed.len() ==> !#[trigger] removed[i]) ==> uninstall_says(
            format,
            entries,
            removed,
        ) == (if format is Text {
            "nothing to remove\n"@
        } else {
            "nothing_to_remove\n"@
        }),
        removed.len() == 1 && removed[0] ==> uninstall_says(format, entries, removed) == (
        if format is Text {
            "removed the "@ + entries[0].event@ + " hook"@
        } else {
            entries[0].event@ + "=removed"@
        }) + "\n"@,
{
    let n = shorter(entries.len() as int, removed.len() as int);
    if forall|i: int| 0 <= i < removed.len() ==> !#[trigger] removed[i] {
        lemma_none_removed(format, entries, removed, n);
    }
    if removed.len() == 1 && removed[0] {
        reveal_with_fuel(removed_upto, 2);
        let lines = removed_upto(format, entries, removed, 1);
        assert(lines.len() == 1);
        assert(joined(lines, "\n"@) == lines[0]);
    }
}

proof fn lemma_none_removed(format: Format, entries: Seq<HookEntry>, removed: Seq<bool>, n: int)
    requires
        0 <= n <= removed.len(),
        forall|i: int| 0 <= i < removed.len() ==> !#[trigger] removed[i],
    ensures
        removed_upto(format, entries, removed, n).len() == 0,
    decreases n,
{
    if n > 0 {
        lemma_none_removed(format, entries, removed, n - 1);
    }
}

/// Only an install whose hooks were all merged is answered as done; any other is a failure.
pub proof fn law_only_a_merge_is_an_install(
    outcome: Outcome,
    format: Format,
    dir: Seq<char>,
    name: Seq<char>,
    done: Installing,
)
    requires
        is_installed(outcome, format, dir, name, done),
    ensures
        outcome.error is None <==> (done matches Installing::Merged { statuses: Ok(_), .. }),
        done matches Installing::Refused(error) ==> outcome.error == Some(error),
        done matches Installing::NotMade { .. } ==> (outcome.error matches Some(
            Error::Io { path, .. },
        ) && path@ == dir),
{
}

} // verus!
