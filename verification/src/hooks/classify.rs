//! The command that classifies a call, in each of the forms it was ever installed in.
use vstd::prelude::*;

use crate::hooks::texts::{
    escape_quotes, in_quotes, CLASSIFY_COMMAND, GUARDED_CLASSIFY_COMMAND,
};
use crate::shell::{is_lets, lemma_name_len, names_lets, runs_lets_with, runs_with};
use crate::text;
use crate::text::{
    contains_text, first_place, lemma_first_place, lemma_first_word, lemma_split_of, replaced,
    split_of, stands_at, texts, trimmed_start, words_of,
};

verus! {

/// A character that a shell reads as itself, outside of quotes.
pub open spec fn is_plain(c: char) -> bool {
    ||| 'a' <= c <= 'z'
    ||| 'A' <= c <= 'Z'
    ||| '0' <= c <= '9'
    ||| c == '/'
    ||| c == '.'
    ||| c == '_'
    ||| c == '+'
    ||| c == '-'
}

pub open spec fn all_plain(s: Seq<char>) -> bool {
    forall|i: int| 0 <= i < s.len() ==> is_plain(#[trigger] s[i])
}

/// A path as a shell reads it back: bare where that is safe, else in quotes.
pub open spec fn quoted(path: Seq<char>) -> Seq<char> {
    if all_plain(path) {
        path
    } else {
        "'"@ + in_quotes(path) + "'"@
    }
}

pub fn quote_path(path: &str) -> (r: String)
    ensures
        r@ == quoted(path@),
{
    let n = path.unicode_len();
    let mut i: usize = 0;
    while i < n
        invariant
            i <= n == path@.len(),
            forall|k: int| 0 <= k < i ==> is_plain(#[trigger] path@[k]),
        decreases n - i,
    {
        let c = path.get_char(i);
        let plain = ('a' <= c && c <= 'z') || ('A' <= c && c <= 'Z') || ('0' <= c && c <= '9')
            || c == '/' || c == '.' || c == '_' || c == '+' || c == '-';
        if !plain {
            assert(!is_plain(path@[i as int]));
            return "'".to_owned().concat(escape_quotes(path).as_str()).concat("'");
        }
        i = i + 1;
    }
    path.to_owned()
}

/// What a quoted path stands for.
pub open spec fn unquoted(s: Seq<char>) -> Seq<char> {
    if s.len() >= 2 && s[0] == '\'' && s.last() == '\'' {
        replaced(s.subrange(1, s.len() - 1), "'\\''"@, "'"@)
    } else {
        s
    }
}

fn unquote(s: &str) -> (r: String)
    ensures
        r@ == unquoted(s@),
{
    let n = s.unicode_len();
    if n >= 2 && s.get_char(0) == '\'' && s.get_char(n - 1) == '\'' {
        let inner = s.substring_char(1, n - 1);
        proof {
            reveal_strlit("'\\''");
        }
        text::replace(inner, "'\\''", "'")
    } else {
        s.to_owned()
    }
}

/// The guard for an install that named `lets` by an absolute path, which keeps that path.
pub open spec fn guarded_at(program: Seq<char>) -> Seq<char> {
    "if [ -x "@ + quoted(program) + " ]; then "@ + quoted(program) + " hook classify; fi"@
}

pub fn classify_guarded_at(program: &str) -> (r: String)
    ensures
        r@ == guarded_at(program@),
{
    let program = quote_path(program);
    "if [ -x ".to_owned().concat(program.as_str()).concat(" ]; then ").concat(
        program.as_str(),
    ).concat(" hook classify; fi")
}

pub open spec fn is_absolute(path: Seq<char>) -> bool {
    path.len() > 0 && path[0] == '/'
}

pub fn absolute(path: &str) -> (r: bool)
    ensures
        r == is_absolute(path@),
{
    path.unicode_len() > 0 && path.get_char(0) == '/'
}

/// The program of a command that guards it by its path.
pub open spec fn guarded_program(command: Seq<char>) -> Option<Seq<char>> {
    if "if [ -x "@.is_prefix_of(command) {
        match split_of(command.skip("if [ -x "@.len() as int), " ]; then "@) {
            Some((quote, rest)) => {
                let program = unquoted(quote);
                if rest == quote + " hook classify; fi"@ && quoted(program) == quote
                    && is_absolute(program) && is_lets(program) {
                    Some(program)
                } else {
                    None
                }
            },
            None => None,
        }
    } else {
        None
    }
}

/// The words after the program.
pub open spec fn classify_words() -> Seq<Seq<char>> {
    seq!["hook"@, "classify"@]
}

/// The program that an installed command runs, guarded or not.
pub open spec fn program_of(command: Seq<char>) -> Option<Seq<char>> {
    if command == GUARDED_CLASSIFY_COMMAND@ {
        Some("lets"@)
    } else if runs_with(command, classify_words()) {
        Some(words_of(command)[0])
    } else {
        guarded_program(command)
    }
}

/// The program that an installed command runs, guarded or not.
pub fn classify_program(command: &str) -> (r: Option<String>)
    ensures
        match r {
            Some(program) => program_of(command@) == Some(program@),
            None => program_of(command@) is None,
        },
{
    if text::same(command, GUARDED_CLASSIFY_COMMAND) {
        return Some("lets".to_owned());
    }
    let mut args: Vec<String> = Vec::new();
    args.push("hook".to_owned());
    args.push("classify".to_owned());
    assert(texts(args@) =~= classify_words());
    if runs_lets_with(command, &args) {
        let mut words = text::words(command);
        assert(texts(words@)[0] == words@[0]@);
        return Some(words.swap_remove(0));
    }
    let rest = match text::strip_prefix(command, "if [ -x ") {
        Some(rest) => rest,
        None => return None,
    };
    proof {
        assert(command@.skip("if [ -x "@.len() as int) =~= rest@);
        assert("if [ -x "@.is_prefix_of(command@));
    }
    let (quote, rest) = match text::split_once(rest, " ]; then ") {
        Some(parts) => parts,
        None => return None,
    };
    if !text::same(rest, quote.to_owned().concat(" hook classify; fi").as_str()) {
        return None;
    }
    let program = unquote(quote);
    if text::same(quote_path(program.as_str()).as_str(), quote) && absolute(program.as_str())
        && names_lets(program.as_str()) {
        Some(program)
    } else {
        None
    }
}

/// Whether the command is one that was ever installed to classify calls.
pub fn is_classify(command: &str) -> (r: bool)
    ensures
        r == program_of(command@) is Some,
{
    classify_program(command).is_some()
}

/// The path that an installed command names its program by.
pub open spec fn kept_path(existing: Seq<char>) -> Option<Seq<char>> {
    match program_of(existing) {
        Some(program) => if is_absolute(program) {
            Some(program)
        } else {
            None
        },
        None => None,
    }
}

pub fn absolute_program(existing: &str) -> (r: Option<String>)
    ensures
        match r {
            Some(program) => kept_path(existing@) == Some(program@),
            None => kept_path(existing@) is None,
        },
{
    match classify_program(existing) {
        Some(program) => if absolute(program.as_str()) {
            Some(program)
        } else {
            None
        },
        None => None,
    }
}

/// The command that takes the place of an installed one: with its path, where that is an
/// executable file. Any other path would keep the guard false and the hook silently off.
pub fn keep_absolute_path(existing: &str, executable: bool) -> (r: Option<String>)
    ensures
        match r {
            Some(command) => executable && (kept_path(existing@) matches Some(program)
                && command@ == guarded_at(program)),
            None => !executable || kept_path(existing@) is None,
        },
{
    match absolute_program(existing) {
        Some(program) => if executable {
            Some(classify_guarded_at(program.as_str()))
        } else {
            None
        },
        None => None,
    }
}

/// A place that nothing comes before is the first.
proof fn lemma_is_first(s: Seq<char>, part: Seq<char>, at: int)
    requires
        stands_at(s, part, at),
        forall|j: int| 0 <= j < at ==> !stands_at(s, part, j),
    ensures
        first_place(s, part, 0) == Some(at),
{
    lemma_first_place(s, part, 0);
}

proof fn lemma_quote_marks()
    ensures
        "'"@ == seq!['\''],
        "'\\''"@ == seq!['\'', '\\', '\'', '\''],
{
    reveal_strlit("'");
    reveal_strlit("'\\''");
    assert("'"@ =~= seq!['\'']);
    assert("'\\''"@ =~= seq!['\'', '\\', '\'', '\'']);
}

/// Where the first quote of a text is, its quoted form has its first escape, and both are the same
/// up to there.
proof fn lemma_in_quotes(s: Seq<char>)
    ensures
        match first_place(s, "'"@, 0) {
            Some(i) => {
                &&& 0 <= i < s.len()
                &&& s[i] == '\''
                &&& forall|j: int| 0 <= j < i ==> s[j] != '\''
                &&& in_quotes(s) == s.take(i) + "'\\''"@ + in_quotes(s.skip(i + 1))
            },
            None => in_quotes(s) == s && forall|j: int| 0 <= j < s.len() ==> s[j] != '\'',
        },
{
    lemma_quote_marks();
    lemma_first_place(s, "'"@, 0);
    let end = match first_place(s, "'"@, 0) {
        Some(i) => i,
        None => s.len() as int,
    };
    if let Some(i) = first_place(s, "'"@, 0) {
        assert(s.subrange(i, i + 1)[0] == s[i]);
    }
    assert forall|j: int| 0 <= j < end implies s[j] != '\'' by {
        if s[j] == '\'' {
            assert(s.subrange(j, j + 1) =~= "'"@);
            assert(stands_at(s, "'"@, j));
        }
    }
}

/// Putting a text in quotes is undone by taking it out of them.
pub proof fn law_quoting_is_undone(s: Seq<char>)
    ensures
        replaced(in_quotes(s), "'\\''"@, "'"@) == s,
    decreases s.len(),
{
    lemma_quote_marks();
    lemma_in_quotes(s);
    let mark = "'\\''"@;
    let r = in_quotes(s);
    match first_place(s, "'"@, 0) {
        Some(i) => {
            let rest = s.skip(i + 1);
            law_quoting_is_undone(rest);
            assert(r.subrange(i, i + 4) =~= mark);
            assert forall|j: int| 0 <= j < i implies !stands_at(r, mark, j) by {
                if stands_at(r, mark, j) {
                    assert(r.subrange(j, j + 4)[0] == r[j]);
                    assert(r[j] == s[j]);
                }
            }
            lemma_is_first(r, mark, i);
            assert(r.take(i) =~= s.take(i));
            assert(r.skip(i + 4) =~= in_quotes(rest));
            assert(s =~= s.take(i) + "'"@ + rest);
        },
        None => {
            lemma_first_place(r, mark, 0);
            if let Some(j) = first_place(r, mark, 0) {
                assert(r.subrange(j, j + 4)[0] == r[j]);
                assert(r[j] == s[j]);
            }
        },
    }
}

/// What separates a guard from what it guards.
spec fn separator() -> Seq<char> {
    seq![' ', ']', ';', ' ', 't', 'h', 'e', 'n', ' ']
}

proof fn lemma_separator()
    ensures
        " ]; then "@ == separator(),
{
    reveal_strlit(" ]; then ");
    assert(" ]; then "@ =~= separator());
}

proof fn lemma_stands(s: Seq<char>, part: Seq<char>, at: int)
    requires
        stands_at(s, part, at),
    ensures
        forall|k: int| 0 <= k < part.len() ==> s[at + k] == #[trigger] part[k],
{
    assert forall|k: int| 0 <= k < part.len() implies s[at + k] == #[trigger] part[k] by {
        assert(s.subrange(at, at + part.len())[k] == part[k]);
    }
}

/// A separator in a text in quotes is a separator in the text.
proof fn lemma_separator_in_quotes(s: Seq<char>, at: int)
    requires
        stands_at(in_quotes(s), separator(), at),
    ensures
        contains_text(s, separator()),
    decreases s.len(),
{
    lemma_quote_marks();
    lemma_in_quotes(s);
    let sep = separator();
    let r = in_quotes(s);
    lemma_stands(r, sep, at);
    match first_place(s, "'"@, 0) {
        Some(i) => {
            assert(r[i] == '\'' && r[i + 1] == '\\' && r[i + 2] == '\'' && r[i + 3] == '\'');
            if at + 9 <= i {
                assert(s.subrange(at, at + 9) =~= r.subrange(at, at + 9));
                assert(stands_at(s, sep, at));
            } else if at >= i + 4 {
                let rest = s.skip(i + 1);
                let to = at - i - 4;
                assert(in_quotes(rest).subrange(to, to + 9) =~= r.subrange(at, at + 9));
                lemma_separator_in_quotes(rest, to);
                let k = choose|k: int| stands_at(rest, sep, k);
                assert(s.subrange(k + i + 1, k + i + 10) =~= rest.subrange(k, k + 9));
                assert(stands_at(s, sep, k + i + 1));
            } else {
                assert(r[at] == sep[0]);
                if at <= i {
                    assert(r[at + (i - at)] == sep[i - at]);
                }
            }
        },
        None => {
            assert(stands_at(s, sep, at));
        },
    }
}

/// A quoted path holds a separator only where the path does.
proof fn lemma_separator_in_path(path: Seq<char>, at: int)
    requires
        stands_at(quoted(path), separator(), at),
    ensures
        contains_text(path, separator()),
{
    let sep = separator();
    let q = quoted(path);
    lemma_stands(q, sep, at);
    lemma_quote_marks();
    if all_plain(path) {
        assert(stands_at(path, sep, at));
    } else {
        let inner = in_quotes(path);
        assert(q[0] == '\'' && q.last() == '\'');
        assert(q[at] == sep[0] && q[at + 8] == sep[8]);
        assert(inner.subrange(at - 1, at + 8) =~= q.subrange(at, at + 9));
        lemma_separator_in_quotes(path, at - 1);
    }
}

/// The last character of a path that names `lets`.
proof fn lemma_lets_end(path: Seq<char>)
    requires
        is_lets(path),
    ensures
        path.len() > 0,
        path.last() == 's' || path.last() == '/' || path.last() == '.',
{
    reveal_strlit("lets");
    if path.last() != '/' && crate::shell::tail_of(path) != seq!['.'] {
        assert(crate::shell::tail_of(path).last() == path.last());
    } else if path.last() != '/' {
        assert(crate::shell::tail_of(path).last() == path.last());
    }
}

/// The guard of a path is no other form.
proof fn lemma_guard_is_no_other(program: Seq<char>)
    ensures
        guarded_at(program) != GUARDED_CLASSIFY_COMMAND@,
        !runs_with(guarded_at(program), classify_words()),
{
    let command = guarded_at(program);
    reveal_strlit("if [ -x ");
    reveal_strlit("if command -v lets >/dev/null 2>&1; then lets hook classify; fi");
    reveal_strlit("lets");
    assert(command[3] == '[');
    assert(GUARDED_CLASSIFY_COMMAND@[3] == 'c');
    assert(command[0] == 'i' && command[1] == 'f' && command[2] == ' ');
    assert(trimmed_start(command) == command);
    lemma_first_word(command, 2);
    lemma_name_len(words_of(command)[0]);
}

/// What ends the guard is found where the quoted path ends.
proof fn lemma_guard_end(program: Seq<char>, tail: Seq<char>)
    requires
        is_lets(program),
        !contains_text(program, separator()),
    ensures
        first_place(quoted(program) + separator() + tail, separator(), 0) == Some(
            quoted(program).len() as int,
        ),
{
    let sep = separator();
    let q = quoted(program);
    let rest = q + sep + tail;
    lemma_quote_marks();
    lemma_lets_end(program);
    assert(q.len() > 0 && q.last() != 'n');
    assert(rest.subrange(q.len() as int, q.len() as int + 9) =~= sep);
    assert forall|j: int| 0 <= j < q.len() implies !stands_at(rest, sep, j) by {
        if stands_at(rest, sep, j) {
            lemma_stands(rest, sep, j);
            if j + 9 <= q.len() {
                assert(q.subrange(j, j + 9) =~= rest.subrange(j, j + 9));
                lemma_separator_in_path(program, j);
            } else {
                lemma_separator_overlaps(rest, j, q.len() as int);
                assert(q.last() == rest[q.len() - 1]);
            }
        }
    }
    lemma_is_first(rest, sep, q.len() as int);
}

/// Two separators that overlap share one character, and the first of them goes on with `n` before
/// it.
proof fn lemma_separator_overlaps(s: Seq<char>, a: int, b: int)
    requires
        0 <= a < b < a + 9,
        stands_at(s, separator(), a),
        stands_at(s, separator(), b),
    ensures
        s[b - 1] == 'n',
{
    let sep = separator();
    lemma_stands(s, sep, a);
    lemma_stands(s, sep, b);
    let d = b - a;
    assert(s[a + d] == sep[d]);
    assert(s[b + 0] == sep[0]);
    assert(s[b + 1] == sep[1]);
    if d == 3 {
        assert(s[a + 4] == sep[4]);
    }
    assert(d == 8);
    assert(s[a + 7] == sep[7]);
}

/// A guarded command names its program, however the path has to be quoted, as long as the path
/// does not hold the very words that end the guard.
pub proof fn law_a_guarded_command_names_its_program(program: Seq<char>)
    requires
        is_absolute(program),
        is_lets(program),
        !contains_text(program, " ]; then "@),
    ensures
        program_of(guarded_at(program)) == Some(program),
{
    lemma_separator();
    let sep = separator();
    let q = quoted(program);
    let tail = q + " hook classify; fi"@;
    let command = guarded_at(program);
    let lead = "if [ -x "@;
    let rest = q + sep + tail;
    lemma_guard_is_no_other(program);
    lemma_guard_end(program, tail);
    assert(command =~= lead + rest);
    assert(lead.is_prefix_of(command));
    assert(command.skip(lead.len() as int) =~= rest);
    assert(rest.take(q.len() as int) =~= q);
    assert(rest.skip(q.len() as int + 9) =~= tail);
    lemma_unquoted(program);
}

proof fn lemma_unquoted(program: Seq<char>)
    requires
        is_absolute(program),
    ensures
        unquoted(quoted(program)) == program,
{
    lemma_quote_marks();
    let q = quoted(program);
    if all_plain(program) {
        assert(program[0] == '/');
    } else {
        assert(q.subrange(1, q.len() - 1) =~= in_quotes(program));
        law_quoting_is_undone(program);
    }
}

/// Whatever command stands there, if it names its program by an absolute path, the command that
/// takes its place names the same path: installing again and again keeps it.
pub proof fn law_a_kept_path_is_kept_again(existing: Seq<char>, program: Seq<char>)
    requires
        kept_path(existing) == Some(program),
    ensures
        kept_path(guarded_at(program)) == Some(program),
{
    lemma_separator();
    if existing == GUARDED_CLASSIFY_COMMAND@ {
        reveal_strlit("lets");
    } else if runs_with(existing, classify_words()) {
        text::lemma_words_hold_no_space(existing, 0);
        if contains_text(program, separator()) {
            let at = choose|at: int| stands_at(program, separator(), at);
            lemma_stands(program, separator(), at);
            assert(program[at + 0] == separator()[0]);
        }
        law_a_guarded_command_names_its_program(program);
    } else {
        let lead = "if [ -x "@;
        let rest = existing.skip(lead.len() as int);
        lemma_split_of(rest, " ]; then "@);
        let (quote, tail) = split_of(rest, " ]; then "@)->0;
        assert(existing =~= lead + rest);
        assert(existing =~= guarded_at(program));
    }
}

/// Each form that is installed is known again.
pub proof fn law_installed_commands_are_known()
    ensures
        program_of(GUARDED_CLASSIFY_COMMAND@) == Some("lets"@),
        program_of(CLASSIFY_COMMAND@) == Some("lets"@),
{
    reveal_strlit("lets hook classify");
    reveal_strlit("if command -v lets >/dev/null 2>&1; then lets hook classify; fi");
    reveal_strlit("lets");
    reveal_strlit("hook");
    reveal_strlit("classify");
    let command = CLASSIFY_COMMAND@;
    assert(command.len() == 18);
    assert(trimmed_start(command) == command);
    lemma_first_word(command, 4);
    let rest = command.skip(4);
    assert(rest[0] == ' ');
    assert(!text::is_space(rest.drop_first()[0]));
    assert(trimmed_start(rest.drop_first()) == rest.drop_first());
    assert(trimmed_start(rest) == rest.drop_first());
    lemma_first_word(rest.drop_first(), 4);
    let last = rest.drop_first().skip(4);
    assert(last[0] == ' ');
    assert(!text::is_space(last.drop_first()[0]));
    assert(trimmed_start(last.drop_first()) == last.drop_first());
    assert(trimmed_start(last) == last.drop_first());
    lemma_first_word(last.drop_first(), 8);
    let none = last.drop_first().skip(8);
    assert(none.len() == 0);
    assert(words_of(none) =~= Seq::empty());
    assert(command.take(4) =~= "lets"@);
    assert(rest.drop_first().take(4) =~= "hook"@);
    assert(last.drop_first().take(8) =~= "classify"@);
    assert(words_of(command).skip(1) =~= classify_words());
    crate::shell::lemma_lets_is_lets();
    assert(command[0] != GUARDED_CLASSIFY_COMMAND@[0]);
}

} // verus!
