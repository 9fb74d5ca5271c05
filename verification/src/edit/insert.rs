//! Inserting text before or after an anchor.
use vstd::prelude::*;
use vstd::slice::slice_subrange;
use vstd::utf8::*;

use crate::edit::bytes::{
    append, dominant_ending, ending_of, joined, lemma_line_at_mono, lemma_newlines_bound,
    lemma_newlines_concat, line_at, line_of, newlines, replacement_of, Span,
};
use crate::edit::lines::{are_starts, is_start, lossy, lossy_text};
use crate::edit::scope::{
    ambiguous, is_ambiguous, is_not_text, missing, missing_text, utf8,
};
use crate::edit::spec::{Applied, Kind, Lookup};
use crate::edit::splice::{splice, splice_of};
use crate::error::{is_not_found, not_found, Error};
use crate::output::{Anchor, AnchorSide, EditKind, Marker};
use crate::pattern::{escape, escaped};
use crate::text;
use crate::text::{decimal, decimal_of, lines_of, texts};

verus! {

/// A byte a shell takes as it is, outside quotes.
pub open spec fn is_bare(c: char) -> bool {
    ||| 'a' <= c <= 'z'
    ||| 'A' <= c <= 'Z'
    ||| '0' <= c <= '9'
    ||| c == '.'
    ||| c == '_'
    ||| c == '-'
    ||| c == '/'
    ||| c == '='
    ||| c == '+'
    ||| c == ':'
    ||| c == '@'
    ||| c == ','
}

/// `s` inside single quotes: each of its own is closed, escaped and opened again.
pub open spec fn quoted(s: Seq<char>) -> Seq<char>
    decreases s.len(),
{
    if s.len() == 0 {
        Seq::empty()
    } else if s.last() == '\'' {
        quoted(s.drop_last()) + "'\\''"@
    } else {
        quoted(s.drop_last()).push(s.last())
    }
}

/// `s` as one word of a shell command.
pub open spec fn word_of(s: Seq<char>) -> Seq<char> {
    if s.len() > 0 && forall|i: int| 0 <= i < s.len() ==> is_bare(#[trigger] s[i]) {
        s
    } else {
        "'"@ + quoted(s) + "'"@
    }
}

pub fn shell_word(s: &str) -> (r: String)
    ensures
        r@ == word_of(s@),
{
    let chars = text::to_chars(s);
    let mut bare = chars.len() > 0;
    let mut out = String::new();
    let mut i: usize = 0;
    while i < chars.len()
        invariant
            i <= chars@.len(),
            chars@ == s@,
            bare == (chars@.len() > 0 && forall|j: int| 0 <= j < i ==> is_bare(#[trigger] s@[j])),
            out@ == quoted(s@.take(i as int)),
        decreases chars@.len() - i,
    {
        let c = chars[i];
        assert(s@.take(i + 1).drop_last() =~= s@.take(i as int));
        if c == '\'' {
            out.append("'\\''");
        } else {
            out.push(c);
        }
        let plain = ('a' <= c && c <= 'z') || ('A' <= c && c <= 'Z') || ('0' <= c && c <= '9') || c
            == '.' || c == '_' || c == '-' || c == '/' || c == '=' || c == '+' || c == ':' || c
            == '@' || c == ',';
        assert(plain == is_bare(s@[i as int]));
        bare = bare && plain;
        i = i + 1;
    }
    assert(s@.take(i as int) =~= s@);
    if bare {
        s.to_owned()
    } else {
        "'".to_owned().concat(out.as_str()).concat("'")
    }
}

/// What a shell takes a word for: text in single quotes as it is, a character behind a backslash as
/// itself, and of the rest only what means nothing else to it.
pub open spec fn word_read(s: Seq<char>, in_quotes: bool) -> Option<Seq<char>>
    decreases s.len(),
{
    if s.len() == 0 {
        if in_quotes {
            None
        } else {
            Some(s)
        }
    } else if s[0] == '\'' {
        word_read(s.drop_first(), !in_quotes)
    } else if in_quotes || is_bare(s[0]) {
        match word_read(s.drop_first(), in_quotes) {
            Some(rest) => Some(seq![s[0]] + rest),
            None => None,
        }
    } else if s[0] == '\\' && s.len() > 1 {
        match word_read(s.skip(2), in_quotes) {
            Some(rest) => Some(seq![s[1]] + rest),
            None => None,
        }
    } else {
        None
    }
}

proof fn lemma_bare_read(s: Seq<char>)
    requires
        forall|i: int| 0 <= i < s.len() ==> is_bare(#[trigger] s[i]),
    ensures
        word_read(s, false) == Some(s),
    decreases s.len(),
{
    if s.len() > 0 {
        assert(is_bare(s[0]));
        let rest = s.drop_first();
        assert forall|i: int| 0 <= i < rest.len() implies is_bare(#[trigger] rest[i]) by {
            assert(rest[i] == s[i + 1]);
        }
        lemma_bare_read(rest);
        assert(seq![s[0]] + rest =~= s);
    }
}

proof fn lemma_quoted_first(s: Seq<char>)
    requires
        s.len() > 0,
    ensures
        quoted(s) == (if s[0] == '\'' {
            "'\\''"@
        } else {
            seq![s[0]]
        }) + quoted(s.drop_first()),
    decreases s.len(),
{
    reveal_with_fuel(quoted, 2);
    let first = if s[0] == '\'' {
        "'\\''"@
    } else {
        seq![s[0]]
    };
    if s.len() == 1 {
        assert(s.drop_last() =~= Seq::empty());
        assert(s.drop_first() =~= Seq::empty());
    } else {
        lemma_quoted_first(s.drop_last());
        assert(s.drop_last().drop_first() =~= s.drop_first().drop_last());
        assert(s.drop_first().last() == s.last());
    }
    assert(quoted(s) =~= first + quoted(s.drop_first()));
}

proof fn lemma_quoted_read(s: Seq<char>)
    ensures
        word_read(quoted(s) + seq!['\''], true) == Some(s),
    decreases s.len(),
{
    let out = quoted(s) + seq!['\''];
    if s.len() == 0 {
        assert(out.drop_first() =~= Seq::empty());
        assert(word_read(out.drop_first(), false) == Some(Seq::<char>::empty()));
        assert(s =~= Seq::empty());
    } else {
        let rest = s.drop_first();
        lemma_quoted_first(s);
        lemma_quoted_read(rest);
        let tail = quoted(rest) + seq!['\''];
        if s[0] == '\'' {
            reveal_strlit("'\\''");
            assert("'\\''"@ =~= seq!['\'', '\\', '\'', '\'']);
            let escape = out.drop_first();
            assert(escape.skip(2) =~= seq!['\''] + tail);
            assert(escape.skip(2).drop_first() =~= tail);
            assert(word_read(escape.skip(2), false) == Some(rest));
            assert(escape[0] == '\\' && escape[1] == '\'');
            assert(word_read(escape, false) == Some(seq![s[0]] + rest));
        } else {
            assert(out.drop_first() =~= tail);
        }
        assert(seq![s[0]] + rest =~= s);
    }
}

/// Whatever a text holds, a shell takes the word it is put in for that text.
pub proof fn law_a_shell_reads_the_word_as_the_text(s: Seq<char>)
    ensures
        word_read(word_of(s), false) == Some(s),
{
    reveal_strlit("'");
    assert("'"@ =~= seq!['\'']);
    if s.len() > 0 && forall|i: int| 0 <= i < s.len() ==> is_bare(#[trigger] s[i]) {
        lemma_bare_read(s);
    } else {
        lemma_quoted_read(s);
        assert(word_of(s).drop_first() =~= quoted(s) + seq!['\'']);
    }
}

/// How many of the first `n` lines say `said`.
pub open spec fn occurrences(lines: Seq<Seq<char>>, said: Seq<char>, n: int) -> nat
    decreases n,
{
    if n <= 0 {
        0
    } else {
        occurrences(lines, said, n - 1) + (if n <= lines.len() && lines[n - 1] == said {
            1nat
        } else {
            0nat
        })
    }
}

/// The command that inserts `new` after exactly line `line` of the content: a pattern for what the
/// line says, and which of the lines that say so it is, where it is not the first.
pub open spec fn insert_command(
    file: Seq<char>,
    content: Seq<char>,
    line: int,
    new: Seq<u8>,
) -> Seq<char> {
    let lines = lines_of(content);
    let said = if line <= lines.len() {
        lines[line - 1]
    } else {
        ""@
    };
    let count = occurrences(lines, said, line);
    let pattern = "@'^"@ + escaped(said) + "$'"@;
    let anchor = if count > 1 {
        pattern + "+"@ + decimal_of(count)
    } else {
        pattern
    };
    "lets edit "@ + word_of(file) + " --insert-after "@ + word_of(anchor) + " --new "@ + word_of(
        lossy(new),
    )
}

/// An `@'regex'` anchor for exactly line `line`, with the occurrence that skips identical lines
/// above it.
pub fn insert_after_line(file: &str, content: &str, line: usize, new: &[u8]) -> (r: String)
    requires
        line >= 1,
    ensures
        r@ == insert_command(file@, content@, line as int, new@),
{
    let lines = text::lines(content);
    let ghost model = lines_of(content@);
    assert(texts(lines@) == model);
    let said = if line <= lines.len() {
        assert(texts(lines@)[line - 1] == lines@[line - 1]@);
        lines[line - 1].clone()
    } else {
        "".to_owned()
    };
    let mut count: usize = 0;
    let mut i: usize = 0;
    while i < line && i < lines.len()
        invariant
            i <= line,
            i <= lines@.len(),
            count <= i,
            texts(lines@) == model,
            count == occurrences(model, said@, i as int),
        decreases lines@.len() - i,
    {
        assert(texts(lines@)[i as int] == lines@[i as int]@);
        if text::same(lines[i].as_str(), said.as_str()) {
            count = count + 1;
        }
        i = i + 1;
    }
    proof {
        lemma_occurrences_past_the_end(model, said@, i as int, line as int);
    }
    let pattern = "@'^".to_owned().concat(escape(said.as_str()).as_str()).concat("$'");
    let anchor = if count > 1 {
        pattern.concat("+").concat(decimal(count).as_str())
    } else {
        pattern
    };
    "lets edit ".to_owned().concat(shell_word(file).as_str()).concat(" --insert-after ").concat(
        shell_word(anchor.as_str()).as_str(),
    ).concat(" --new ").concat(shell_word(lossy_text(new).as_str()).as_str())
}

proof fn lemma_occurrences_past_the_end(lines: Seq<Seq<char>>, said: Seq<char>, i: int, n: int)
    requires
        0 <= i <= n,
        i == n || i >= lines.len(),
    ensures
        occurrences(lines, said, n) == occurrences(lines, said, i),
    decreases n,
{
    if i < n {
        lemma_occurrences_past_the_end(lines, said, i, n - 1);
    }
}

/// A shell eats the inner quotes of `@'…'`, so an `@` anchor that did not parse as a pattern is
/// spelled with them again. `whole` says that `file` and `anchor` together name a whole file.
pub fn respelled(file: &str, anchor: &str, whole: bool) -> (r: Option<String>)
    ensures
        match r {
            Some(s) => whole && "@"@.is_prefix_of(anchor@) && s@ == file@ + "@'"@ + anchor@.skip(
                "@"@.len() as int,
            ) + "'"@,
            None => !whole || !"@"@.is_prefix_of(anchor@),
        },
{
    if !whole {
        return None;
    }
    match text::strip_prefix(anchor, "@") {
        Some(pattern) => {
            assert(anchor@.skip("@"@.len() as int) =~= pattern@);
            assert("@"@.is_prefix_of(anchor@)) by {
                assert(anchor@.take("@"@.len() as int) =~= "@"@);
            }
            Some(file.to_owned().concat("@'").concat(pattern).concat("'"))
        },
        None => None,
    }
}

/// Where an insert is anchored, or why it is not: a pattern anchors it at the line it matches, a
/// symbol at the first or the last line of the one definition it names.
pub open spec fn is_anchor(
    raw: Seq<char>,
    file: Seq<char>,
    anchor: Seq<char>,
    kind: Kind,
    before: Seq<u8>,
    side: AnchorSide,
    new: Seq<u8>,
    lookup: Lookup,
    r: Result<(usize, Anchor), Error>,
) -> bool {
    if !valid_utf8(before) {
        r matches Err(e) && is_not_text(e, file)
    } else {
        match kind {
            Kind::Regex { .. } => match lookup {
                Lookup::Line(line) => r matches Ok((at, found)) && at == line && found.side == side
                    && found.at@ == "line "@ + decimal_of(line as nat) && found.line is None,
                Lookup::BadPattern => r matches Err(e) && is_not_found(
                    e,
                    raw,
                    anchor + " (invalid regex)"@,
                ),
                _ => r matches Err(e) && is_not_found(e, raw, anchor),
            },
            Kind::Symbol(_) => match lookup {
                Lookup::Symbols { found, hint } => if found@.len() == 0 {
                    r matches Err(e) && is_not_found(e, raw, missing_text(anchor, hint))
                } else if found@.len() == 1 {
                    let one = found@[0];
                    if side == AnchorSide::After && one.end_guessed {
                        r matches Err(Error::GuessedSpan { target, command }) && target@ == file
                            + anchor && command@ == insert_command(
                            file,
                            decode_utf8(before),
                            one.end_line as int,
                            new,
                        )
                    } else {
                        let line = if side == AnchorSide::After {
                            one.end_line
                        } else {
                            one.line
                        };
                        r matches Ok((at, found)) && at == line && found.side == side && found.at@
                            == anchor && found.line == Some(line)
                    }
                } else {
                    r matches Err(e) && is_ambiguous(e, raw, file, found@)
                },
                _ => r matches Err(e) && is_not_found(e, raw, anchor),
            },
            _ => r matches Err(e) && is_not_found(
                e,
                raw,
                anchor + " (an insert anchor is @'regex' or #symbol)"@,
            ),
        }
    }
}

pub fn anchor_line(
    raw: &str,
    file: &str,
    anchor: &str,
    kind: &Kind,
    before: &[u8],
    side: AnchorSide,
    new: &[u8],
    lookup: &Lookup,
) -> (r: Result<(usize, Anchor), Error>)
    requires
        lookup.within(before@.len()),
    ensures
        is_anchor(raw@, file@, anchor@, *kind, before@, side, new@, *lookup, r),
        r matches Ok((line, _)) ==> line >= 1,
{
    let content = match utf8(before, file) {
        Ok(content) => content,
        Err(e) => return Err(e),
    };
    proof {
        encode_utf8_decode_utf8(content@);
    }
    match kind {
        Kind::Regex { .. } => match lookup {
            Lookup::Line(line) => Ok(
                (
                    *line,
                    Anchor {
                        side,
                        at: "line ".to_owned().concat(decimal(*line).as_str()),
                        line: None,
                    },
                ),
            ),
            Lookup::BadPattern => Err(not_found(raw, anchor.to_owned().concat(" (invalid regex)"))),
            _ => Err(not_found(raw, anchor.to_owned())),
        },
        Kind::Symbol(_) => match lookup {
            Lookup::Symbols { found, hint } => if found.len() == 0 {
                Err(not_found(raw, missing(anchor, hint)))
            } else if found.len() == 1 {
                let one = &found[0];
                if side == AnchorSide::After && one.end_guessed {
                    return Err(
                        Error::GuessedSpan {
                            target: file.to_owned().concat(anchor),
                            command: insert_after_line(file, content.as_str(), one.end_line, new),
                        },
                    );
                }
                let line = match side {
                    AnchorSide::After => one.end_line,
                    AnchorSide::Before => one.line,
                };
                Ok((line, Anchor { side, at: anchor.to_owned(), line: Some(line) }))
            } else {
                Err(ambiguous(raw, file, found))
            },
            _ => Err(not_found(raw, anchor.to_owned())),
        },
        _ => Err(
            not_found(
                raw,
                anchor.to_owned().concat(" (an insert anchor is @'regex' or #symbol)"),
            ),
        ),
    }
}

/// `new` without the line end it ends with.
pub open spec fn unterminated(new: Seq<u8>) -> Seq<u8> {
    if new.len() > 0 && new.last() == 10 {
        let rest = new.drop_last();
        if rest.len() > 0 && rest.last() == 13 {
            rest.drop_last()
        } else {
            rest
        }
    } else {
        new
    }
}

fn without_terminator<'a>(new: &'a [u8]) -> (r: &'a [u8])
    ensures
        r@ == unterminated(new@),
{
    let n = new.len();
    if n > 0 && new[n - 1] == 10 {
        if n > 1 && new[n - 2] == 13 {
            slice_subrange(new, 0, n - 2)
        } else {
            slice_subrange(new, 0, n - 1)
        }
    } else {
        slice_subrange(new, 0, n)
    }
}

/// The file starts with the mark that encoding sniffers expect at byte `0`.
pub open spec fn has_bom(bytes: Seq<u8>) -> bool {
    bytes.len() >= 3 && bytes[0] == 0xef && bytes[1] == 0xbb && bytes[2] == 0xbf
}

/// Where an insert lands (its byte), what is put there, and where in that the new text begins.
pub open spec fn landing(
    before: Seq<u8>,
    starts: Seq<usize>,
    side: AnchorSide,
    line: int,
    text: Seq<u8>,
) -> (int, Seq<u8>, int) {
    let ending = ending_of(before);
    match side {
        AnchorSide::After => {
            let at = if line < starts.len() {
                starts[line] as int
            } else {
                before.len() as int
            };
            if at == before.len() && !(before.len() > 0 && before.last() == 10) {
                (at, ending + text, at + ending.len())
            } else {
                (at, text + ending, at)
            }
        },
        AnchorSide::Before => {
            let at = if starts[line - 1] == 0 && has_bom(before) {
                3
            } else {
                starts[line - 1] as int
            };
            (at, text + ending, at)
        },
    }
}

/// What inserting `text` there leaves behind.
pub open spec fn is_inserted(
    applied: Applied,
    before: Seq<u8>,
    starts: Seq<usize>,
    side: AnchorSide,
    line: int,
    text: Seq<u8>,
    anchor: Anchor,
) -> bool {
    let (at, replacement, text_at) = landing(before, starts, side, line, text);
    let span = Span { start: at as usize, end: at as usize };
    let first = line_at(applied.after@, text_at);
    &&& applied.after@ == splice_of(before, span, replacement)
    &&& applied.edits@ == seq![(span, replacement.len() as usize)]
    &&& applied.kind == EditKind::Inserted { lines: (newlines(text) + 1) as usize, anchor }
    &&& applied.match_kind@ == ""@
    &&& applied.changed@ == seq![(first as usize, (first + newlines(text)) as usize)]
    &&& applied.marker == Marker::Added
    &&& !applied.normalized
    &&& !applied.crlf
    &&& !applied.span_guessed
}

/// Where the insert lands, what is put there and where in the file the new text begins; `None`
/// where the file lacks the line to insert before.
fn land(before: &[u8], starts: &[usize], side: AnchorSide, line: usize, body: &Vec<u8>) -> (r:
    Option<(usize, Vec<u8>, usize)>)
    requires
        are_starts(before@, starts@),
        line >= 1,
        before@.len() + body@.len() + 2 < usize::MAX,
    ensures
        match r {
            Some((at, replacement, text_at)) => {
                &&& side == AnchorSide::After || line <= starts@.len()
                &&& (at as int, replacement@, text_at as int) == landing(
                    before@,
                    starts@,
                    side,
                    line as int,
                    body@,
                )
                &&& at <= before@.len()
            },
            None => side == AnchorSide::Before && line > starts@.len(),
        },
{
    let ending = dominant_ending(before);
    let mut replacement: Vec<u8> = Vec::new();
    let size = before.len();
    match side {
        AnchorSide::After => {
            let at = if line < starts.len() {
                assert(is_start(before@, starts@[line as int] as int));
                starts[line]
            } else {
                size
            };
            if at == size && !(size > 0 && before[size - 1] == 10) {
                // The anchor ends a file with no final newline; separator first keeps it that way.
                append(&mut replacement, ending.as_slice());
                append(&mut replacement, body.as_slice());
                assert(replacement@ =~= ending@ + body@);
                Some((at, replacement, at + ending.len()))
            } else {
                append(&mut replacement, body.as_slice());
                append(&mut replacement, ending.as_slice());
                assert(replacement@ =~= body@ + ending@);
                Some((at, replacement, at))
            }
        },
        AnchorSide::Before => {
            if line > starts.len() {
                return None;
            }
            assert(is_start(before@, starts@[line - 1] as int));
            let mut at: usize = starts[line - 1];
            // After the BOM, which encoding sniffers expect at byte 0.
            if at == 0 && size >= 3 && before[0] == 0xef && before[1] == 0xbb && before[2] == 0xbf {
                at = 3;
            }
            append(&mut replacement, body.as_slice());
            append(&mut replacement, ending.as_slice());
            assert(replacement@ =~= body@ + ending@);
            Some((at, replacement, at))
        },
    }
}

/// The new text stands whole in the file from where it begins.
proof fn lemma_text_stands(
    before: Seq<u8>,
    starts: Seq<usize>,
    side: AnchorSide,
    line: int,
    text: Seq<u8>,
)
    requires
        ({
            let (at, replacement, text_at) = landing(before, starts, side, line, text);
            0 <= at <= before.len() <= usize::MAX
        }),
    ensures
        ({
            let (at, replacement, text_at) = landing(before, starts, side, line, text);
            let span = Span { start: at as usize, end: at as usize };
            let after = splice_of(before, span, replacement);
            &&& 0 <= text_at
            &&& text_at + text.len() <= after.len()
            &&& after.len() == before.len() + text.len() + ending_of(before).len()
            &&& after.subrange(text_at, text_at + text.len()) == text
            &&& line_at(after, text_at) + newlines(text) <= after.len() + 1
        }),
{
    let (at, replacement, text_at) = landing(before, starts, side, line, text);
    let span = Span { start: at as usize, end: at as usize };
    let after = splice_of(before, span, replacement);
    let inside = after.subrange(text_at, text_at + text.len());
    assert(inside =~= text);
    lemma_newlines_concat(after.take(text_at), inside);
    assert(after.take(text_at) + inside =~= after.take(text_at + text.len()));
    lemma_line_at_mono(after, text_at + text.len(), after.len() as int);
}

/// The insert supplies the terminator, so a `new` that ends its own line gets no extra blank; it
/// lands after a byte order mark, and keeps a last line that has no newline without one.
pub fn insert(
    raw: &str,
    literal: bool,
    before: &[u8],
    starts: &[usize],
    side: AnchorSide,
    line: usize,
    anchor: Anchor,
    new: &[u8],
) -> (r: Result<Applied, Error>)
    requires
        are_starts(before@, starts@),
        line >= 1,
        before@.len() + replacement_of(unterminated(new@), before@, literal).len() + 2 < usize::MAX,
    ensures
        match r {
            Ok(applied) => {
                &&& side == AnchorSide::After || line <= starts@.len()
                &&& is_inserted(
                    applied,
                    before@,
                    starts@,
                    side,
                    line as int,
                    replacement_of(unterminated(new@), before@, literal),
                    anchor,
                )
            },
            Err(e) => side == AnchorSide::Before && line > starts@.len() && is_not_found(
                e,
                raw@,
                ":"@ + decimal_of(line as nat),
            ),
        },
{
    let body = joined(without_terminator(new), before, literal);
    let (at, replacement, text_at) = match land(before, starts, side, line, &body) {
        Some(landed) => landed,
        None => return Err(not_found(raw, ":".to_owned().concat(decimal(line).as_str()))),
    };
    proof {
        lemma_newlines_bound(body@);
        lemma_text_stands(before@, starts@, side, line as int, body@);
        assert(body@.take(body@.len() as int) =~= body@);
    }
    let span = Span { start: at, end: at };
    let after = splice(before, span, replacement.as_slice());
    let first = line_of(after.as_slice(), text_at);
    let more = line_of(body.as_slice(), body.len()) - 1;
    let mut changed: Vec<(usize, usize)> = Vec::new();
    changed.push((first, first + more));
    let mut edits: Vec<(Span, usize)> = Vec::new();
    edits.push((span, replacement.len()));
    Ok(
        Applied {
            after,
            edits,
            kind: EditKind::Inserted { lines: more + 1, anchor },
            match_kind: "".to_owned(),
            changed,
            marker: Marker::Added,
            normalized: false,
            crlf: false,
            span_guessed: false,
        },
    )
}

/// An inserted text stands in the file as it was put in, and taking it out again gives the file
/// back.
pub proof fn law_an_insert_only_adds(
    before: Seq<u8>,
    starts: Seq<usize>,
    side: AnchorSide,
    line: int,
    text: Seq<u8>,
)
    requires
        are_starts(before, starts),
        line >= 1,
        side == AnchorSide::After || line <= starts.len(),
        before.len() <= usize::MAX,
    ensures
        ({
            let (at, replacement, text_at) = landing(before, starts, side, line, text);
            let span = Span { start: at as usize, end: at as usize };
            let after = splice_of(before, span, replacement);
            &&& after.subrange(text_at, text_at + text.len()) == text
            &&& after.take(at) + after.skip(at + replacement.len()) == before
        }),
{
    if line - 1 < starts.len() {
        assert(is_start(before, starts[line - 1] as int));
    }
    if line < starts.len() {
        assert(is_start(before, starts[line] as int));
    }
    lemma_text_stands(before, starts, side, line, text);
    let (at, replacement, text_at) = landing(before, starts, side, line, text);
    let span = Span { start: at as usize, end: at as usize };
    let after = splice_of(before, span, replacement);
    assert(after.take(at) + after.skip(at + replacement.len()) =~= before);
}

/// A text that ends its own line adds no blank line: inserted with a line end or without, it leaves
/// the same file.
pub proof fn law_a_final_line_end_adds_no_line(
    bare: Applied,
    ended: Applied,
    before: Seq<u8>,
    starts: Seq<usize>,
    side: AnchorSide,
    line: int,
    anchor: Anchor,
    literal: bool,
    new: Seq<u8>,
    end: Seq<u8>,
)
    requires
        new.len() == 0 || (new.last() != 10 && new.last() != 13),
        end == seq![10u8] || end == seq![13u8, 10],
        is_inserted(
            bare,
            before,
            starts,
            side,
            line,
            replacement_of(unterminated(new), before, literal),
            anchor,
        ),
        is_inserted(
            ended,
            before,
            starts,
            side,
            line,
            replacement_of(unterminated(new + end), before, literal),
            anchor,
        ),
    ensures
        ended.after@ == bare.after@,
        ended.changed@ == bare.changed@,
        ended.kind == bare.kind,
{
    assert(unterminated(new + end) =~= new);
    assert(unterminated(new) == new);
}

/// The anchor names the lines `first..=last`: the line that a pattern matches, or those of the one
/// definition that a symbol has.
pub open spec fn anchors(kind: Kind, lookup: Lookup, first: int, last: int) -> bool {
    match kind {
        Kind::Regex { .. } => lookup matches Lookup::Line(line) && first == line && last == line,
        Kind::Symbol(_) => lookup matches Lookup::Symbols { found, .. } && found@.len() == 1 && first
            == found@[0].line && last == found@[0].end_line,
        _ => false,
    }
}

/// An insert puts its text right after the last of the lines that its anchor names, or right before
/// the first of them, and leaves those lines and all others as they stand: none of them is broken
/// up. A mark of the encoding stays at the start of the file.
pub proof fn law_an_insert_lands_outside_the_lines_of_its_anchor(
    applied: Applied,
    raw: Seq<char>,
    file: Seq<char>,
    anchor: Seq<char>,
    kind: Kind,
    before: Seq<u8>,
    starts: Seq<usize>,
    side: AnchorSide,
    new: Seq<u8>,
    lookup: Lookup,
    line: usize,
    at: Anchor,
    text: Seq<u8>,
    first: int,
    last: int,
)
    requires
        is_anchor(raw, file, anchor, kind, before, side, new, lookup, Ok((line, at))),
        is_inserted(applied, before, starts, side, line as int, text, at),
        are_starts(before, starts),
        before.len() <= usize::MAX,
        anchors(kind, lookup, first, last),
        1 <= first <= last <= starts.len(),
    ensures
        ({
            let from = starts[first - 1] as int;
            let to = if last < starts.len() {
                starts[last] as int
            } else {
                before.len() as int
            };
            let mark: int = if from == 0 && before.len() >= 3 && before.take(3) == seq![
                0xefu8,
                0xbb,
                0xbf,
            ] {
                3
            } else {
                from
            };
            let end = ending_of(before);
            &&& 0 <= from < to <= before.len()
            &&& side == AnchorSide::After && to > 0 && before[to - 1] == 10 ==> applied.after@
                == before.take(to) + (text + end) + before.skip(to)
            &&& side == AnchorSide::After && before[to - 1] != 10 ==> applied.after@ == before + (
            end + text)
            &&& side == AnchorSide::Before ==> applied.after@ == before.take(mark) + (text + end)
                + before.skip(mark)
        }),
        at.side == side,
{
    assert(is_start(before, starts[first - 1] as int));
    assert(is_start(before, starts[last - 1] as int));
    if last < starts.len() {
        assert(is_start(before, starts[last] as int));
        assert(starts[first - 1] < starts[last]);
    }
    if before.len() >= 3 {
        assert(before.take(3)[0] == before[0] && before.take(3)[1] == before[1]
            && before.take(3)[2] == before[2]);
        if has_bom(before) {
            assert(before.take(3) =~= seq![0xefu8, 0xbb, 0xbf]);
        }
    }
    let (place, replacement, _) = landing(before, starts, side, line as int, text);
    assert(before.take(place) + replacement + before.skip(place) =~= splice_of(
        before,
        Span { start: place as usize, end: place as usize },
        replacement,
    ));
    if place == before.len() {
        assert(before.take(place) =~= before);
        assert(before.skip(place) =~= Seq::empty());
        assert(before + replacement + Seq::empty() =~= before + replacement);
    }
}

/// An anchor is found exactly in a file that is text, where its pattern matches a line or its symbol
/// has one definition; an insert after a definition is refused where its end is a guess.
pub proof fn law_an_anchor_is_found_where_there_is_one(
    raw: Seq<char>,
    file: Seq<char>,
    anchor: Seq<char>,
    kind: Kind,
    before: Seq<u8>,
    side: AnchorSide,
    new: Seq<u8>,
    lookup: Lookup,
    r: Result<(usize, Anchor), Error>,
)
    requires
        is_anchor(raw, file, anchor, kind, before, side, new, lookup, r),
    ensures
        r is Ok <==> valid_utf8(before) && ((kind is Regex && lookup is Line) || (kind is Symbol && (
        lookup matches Lookup::Symbols { found, .. } && found@.len() == 1 && (side
            == AnchorSide::Before || !found@[0].end_guessed)))),
{
}

/// The command that repeats an insert names its line by what it says, and by which of the lines that
/// say so it is exactly where an earlier one says the same.
pub proof fn law_a_repeated_insert_names_its_line(
    file: Seq<char>,
    content: Seq<char>,
    line: int,
    new: Seq<u8>,
)
    requires
        1 <= line <= lines_of(content).len(),
    ensures
        ({
            let lines = lines_of(content);
            let said = lines[line - 1];
            let same = lines.take(line).filter(|other: Seq<char>| other == said).len();
            let pattern = "@'^"@ + escaped(said) + "$'"@;
            insert_command(file, content, line, new) == "lets edit "@ + word_of(file)
                + " --insert-after "@ + word_of(
                if same == 1 {
                    pattern
                } else {
                    pattern + "+"@ + decimal_of(same)
                },
            ) + " --new "@ + word_of(lossy(new))
        }),
{
    let lines = lines_of(content);
    let said = lines[line - 1];
    lemma_occurrences_are(lines, said, line);
    lemma_occurrences_are(lines, said, line - 1);
    assert(occurrences(lines, said, line) == occurrences(lines, said, line - 1) + 1);
}

proof fn lemma_occurrences_are(lines: Seq<Seq<char>>, said: Seq<char>, n: int)
    requires
        0 <= n <= lines.len(),
    ensures
        occurrences(lines, said, n) == lines.take(n).filter(
            |other: Seq<char>| other == said,
        ).len(),
    decreases n,
{
    reveal(Seq::filter);
    if n > 0 {
        lemma_occurrences_are(lines, said, n - 1);
        assert(lines.take(n).drop_last() =~= lines.take(n - 1));
    } else {
        assert(lines.take(0) =~= Seq::empty());
    }
}

} // verus!
