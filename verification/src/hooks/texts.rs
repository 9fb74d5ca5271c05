//! The texts that the hooks print, and the commands that print them.
use vstd::prelude::*;

use crate::json::{json_text, write_text};
use crate::text;
use crate::text::{replaced, trimmed_end};

verus! {

/// The earlier, shorter paragraph: Codex still gets it, having no Read or Edit tools to name, and
/// commands built from it are known as ours, so that old installs upgrade in place.
pub const LEGACY_PARAGRAPH: &'static str = "For reading, finding and editing files, use `lets` (run `lets guide` once) instead of `cat`,\n`grep` or `sed -n`. It reads several files or ranges in one call, returns bounded numbered\noutput, and its edits return the changed region \u{2014} so do not follow a `lets` call with a `cat` or\n`sed -n` to check the result.\n";

/// What a session is told at its start.
pub const CLAUDE_CODE_PARAGRAPH: &'static str = r#"# File work: use `lets` through Bash

`lets` is installed here. It is the dedicated tool for reading, searching and editing text files, and it runs through Bash, so it fits both "prefer the dedicated tool" and "work through Bash". Use it wherever you would otherwise reach for `cat`, `head`, `tail`, `sed -n`, `grep`, `rg`, `sed -i`, `cat > file`, or the Read tool on a text file.

Why it is worth the switch: one call covers several files or ranges, every line comes back numbered, the output is bounded, and the footer names anything it left out. An edit returns the changed lines with a parse check, and that output is the verification, so no follow-up read is needed.

| Instead of | Run |
|---|---|
| `cat a.ts`, `cat a.ts b.ts`, Read | `lets show a.ts b.ts` |
| `sed -n '40,80p' f.ts`, Read with an offset | `lets show f.ts:40-80` |
| reading a whole file to find one function | `lets show f.ts#computeFee` (a markdown section: `f.md#'Setup'`) |
| `grep -n -A 5 'pattern' f.ts` | `lets show "f.ts@'pattern'" -A 5` |
| `grep -rn 'x' src`, `rg x src` | `lets find 'x' src` (`-i`, `-w`, `-F`, `-C 3`, `--files`, `--count` work) |
| `sed -i 's/a/b/'`, the Edit tool | `lets edit f.ts --old 'a' --new 'b'` (`--old` is any exact substring that occurs once; `--all` for every match) |
| the same replacement in many files, e.g. a rename | `lets edit a.go b.go c.go --old 'oldName' --new 'newName' --all` |
| editing JSON, YAML or TOML | `lets transform package.json --set version=1.4.0 --append plugins=b` |
| `cat > new.ts <<'EOF'` | `lets write new.ts <<'EOF'` |

For a multi-line edit, or edits across several files, send one batch on stdin. Nothing inside it needs escaping, and either every edit lands or none does. Each `old` block is the shortest exact text that occurs once, not necessarily whole lines:

```
lets edit --from - <<'LETS'
@@ a.ts
<<<<<<< old
cap = 10
======= new
cap = 20
>>>>>>>
@@ b.ts insert-after @'^import'
======= new
import x from 'y'
>>>>>>>
LETS
```

`lets show` and `lets find` only read, so they are as safe to run in parallel as Read calls: when you need several reads or searches that do not depend on each other, send them as separate Bash calls in the same response, or name every file in one `lets show`. Each round trip re-reads the whole conversation, so fewer responses is what saves cost.

Each output line is a line number, a tab, then the file's line byte for byte. Run `lets` without `| head`, `| tail` or `2>/dev/null`: the output is already bounded, its last line names what was left out, and a failed call prints its fix on stderr, ending with an `ERROR_CODE=` line. Over 50 hits, `lets find` prints no hit lines but lists the files holding the most hits, so narrow the path to one of them or make the pattern more specific. When another program will parse the result, add `--json`.

Exit codes:
- 1: nothing matched. `edit` shows the nearest match and any indentation difference; `show` still prints the targets it did find.
- 2: `--old` matched more than once, and every candidate is listed as `path:line`. Lengthen `--old` or narrow the target to a line range such as `f.ts:40-40`.
- 3: the edit broke the file's syntax, so it was put back and the file is unchanged.
- 8: a batch partly landed, and the footer names which files changed.

Keep using Read for images and PDFs, and plain Bash for work that is not reading, searching or editing files: git, builds, tests, `ls`."#;

/// Codex's entry stays bare: whether Codex runs a hook command through a shell is not known.
pub const CLASSIFY_COMMAND: &'static str = "lets hook classify";

/// A hook command that cannot run is reported on every call, so this exits 0 and prints nothing
/// while `lets` is missing.
pub const GUARDED_CLASSIFY_COMMAND: &'static str = "if command -v lets >/dev/null 2>&1; then lets hook classify; fi";

/// An earlier install's form, kept so that it can be upgraded.
pub const GUIDE_ONLY_COMMAND: &'static str = "if command -v lets >/dev/null 2>&1; then lets guide; fi";

/// Compaction drops injected context, so the paragraph is printed on every kind of start.
pub const SESSION_START_MATCHER: &'static str = "startup|resume|clear|compact|fork";

/// The beginning of what a starting subagent is told: context is taken only from this object, and
/// the name of the event is its required discriminator.
pub const SUBAGENT_START_PREFIX: &'static str = "printf '%s' '{\"hookSpecificOutput\":{\"hookEventName\":\"SubagentStart\",\"additionalContext\":";

/// A text as it stands within single quotes of a shell.
pub open spec fn in_quotes(s: Seq<char>) -> Seq<char> {
    replaced(s, "'"@, "'\\''"@)
}

pub fn escape_quotes(s: &str) -> (r: String)
    ensures
        r@ == in_quotes(s@),
{
    proof {
        reveal_strlit("'");
    }
    text::replace(s, "'", "'\\''")
}

/// The command that tells a session. Any exit but 0 or 2 is shown as an error, so a missing `lets`
/// exits 0 and prints nothing.
pub open spec fn session_start() -> Seq<char> {
    "if command -v lets >/dev/null 2>&1; then printf '%s\\n' '"@ + in_quotes(
        CLAUDE_CODE_PARAGRAPH@,
    ) + "'; fi"@
}

pub fn session_start_command() -> (r: String)
    ensures
        r@ == session_start(),
{
    "if command -v lets >/dev/null 2>&1; then printf '%s\\n' '".to_owned().concat(
        escape_quotes(CLAUDE_CODE_PARAGRAPH).as_str(),
    ).concat("'; fi")
}

/// Installed while the paragraph could also come as an appended prompt.
pub open spec fn legacy_env_guarded_guide() -> Seq<char> {
    "if command -v lets >/dev/null 2>&1; then [ -n \"${LETS_SYSTEM_APPEND:-}\" ] || printf '%s\\n\\n' '"@
        + in_quotes(trimmed_end(LEGACY_PARAGRAPH@)) + "'; lets guide; fi"@
}

pub fn legacy_env_guarded_guide_command() -> (r: String)
    ensures
        r@ == legacy_env_guarded_guide(),
{
    "if command -v lets >/dev/null 2>&1; then [ -n \"${LETS_SYSTEM_APPEND:-}\" ] || printf '%s\\n\\n' '".to_owned().concat(
        escape_quotes(text::trim_end(LEGACY_PARAGRAPH)).as_str(),
    ).concat("'; lets guide; fi")
}

pub open spec fn legacy_unconditional_guide() -> Seq<char> {
    "if command -v lets >/dev/null 2>&1; then printf '%s\\n\\n' '"@ + in_quotes(
        trimmed_end(LEGACY_PARAGRAPH@),
    ) + "'; lets guide; fi"@
}

pub fn legacy_unconditional_guide_command() -> (r: String)
    ensures
        r@ == legacy_unconditional_guide(),
{
    "if command -v lets >/dev/null 2>&1; then printf '%s\\n\\n' '".to_owned().concat(
        escape_quotes(text::trim_end(LEGACY_PARAGRAPH)).as_str(),
    ).concat("'; lets guide; fi")
}

/// The command that tells a subagent.
pub open spec fn subagent_start() -> Seq<char> {
    SUBAGENT_START_PREFIX@ + in_quotes(json_text(CLAUDE_CODE_PARAGRAPH@) + "}}"@) + "'"@
}

pub fn subagent_start_command() -> (r: String)
    ensures
        r@ == subagent_start(),
{
    let context = write_text(CLAUDE_CODE_PARAGRAPH).concat("}}");
    SUBAGENT_START_PREFIX.to_owned().concat(escape_quotes(context.as_str()).as_str()).concat("'")
}

} // verus!
