//! The hint for a needle that matches but for how its lines are indented.
use vstd::prelude::*;
use vstd::slice::slice_subrange;
use vstd::utf8::*;

use crate::edit::bytes::{line_at, line_of, Span};
use crate::edit::lines::{
    are_starts, is_start, lemma_starts_of, line_says, line_starts, line_text, starts_of, utf8_text,
};
use crate::text;
use crate::text::{decimal, decimal_of, pieces_of, plural, plural_suffix, texts};

verus! {

/// How many spaces and tabs `line` begins with.
pub open spec fn indent_len(line: Seq<char>) -> nat
    decreases line.len(),
{
    if line.len() > 0 && (line[0] == ' ' || line[0] == '\t') {
        1 + indent_len(line.drop_first())
    } else {
        0
    }
}

/// The spaces and tabs that `line` begins with.
pub open spec fn indent_of(line: Seq<char>) -> Seq<char> {
    line.take(indent_len(line) as int)
}

/// `line` without them.
pub open spec fn rest_of(line: Seq<char>) -> Seq<char> {
    line.skip(indent_len(line) as int)
}

pub fn split_indent<'a>(line: &'a str) -> (r: (&'a str, &'a str))
    ensures
        r.0@ == indent_of(line@),
        r.1@ == rest_of(line@),
{
    let n = line.unicode_len();
    let mut i: usize = 0;
    assert(line@.skip(0) =~= line@);
    while i < n
        invariant
            i <= n == line@.len(),
            indent_len(line@) == i + indent_len(line@.skip(i as int)),
        decreases n - i,
    {
        let c = line.get_char(i);
        if c != ' ' && c != '\t' {
            return (line.substring_char(0, i), line.substring_char(i, n));
        }
        assert(line@.skip(i as int).drop_first() =~= line@.skip(i + 1));
        i = i + 1;
    }
    (line.substring_char(0, n), line.substring_char(n, n))
}

pub enum Indent {
    Absent,
    Spaces(usize),
    Tabs(usize),
    Mixed(usize),
}

pub open spec fn all_are(s: Seq<char>, c: char) -> bool {
    forall|i: int| 0 <= i < s.len() ==> #[trigger] s[i] == c
}

/// What an indentation is made of.
pub open spec fn indent_kind(ws: Seq<char>) -> Indent {
    if ws.len() == 0 {
        Indent::Absent
    } else if all_are(ws, ' ') {
        Indent::Spaces(ws.len() as usize)
    } else if all_are(ws, '\t') {
        Indent::Tabs(ws.len() as usize)
    } else {
        Indent::Mixed(ws.len() as usize)
    }
}

fn made_of(ws: &str, c: char) -> (r: bool)
    ensures
        r == all_are(ws@, c),
{
    let n = ws.unicode_len();
    let mut i: usize = 0;
    while i < n
        invariant
            i <= n == ws@.len(),
            forall|j: int| 0 <= j < i ==> #[trigger] ws@[j] == c,
        decreases n - i,
    {
        if ws.get_char(i) != c {
            return false;
        }
        i = i + 1;
    }
    true
}

pub fn classify_indent(ws: &str) -> (r: Indent)
    ensures
        r == indent_kind(ws@),
{
    let n = ws.unicode_len();
    if n == 0 {
        Indent::Absent
    } else if made_of(ws, ' ') {
        Indent::Spaces(n)
    } else if made_of(ws, '\t') {
        Indent::Tabs(n)
    } else {
        Indent::Mixed(n)
    }
}

pub open spec fn words_of(indent: Indent) -> Seq<char> {
    match indent {
        Indent::Absent => "no indentation"@,
        Indent::Spaces(n) => decimal_of(n as nat) + " space"@ + plural(n as nat),
        Indent::Tabs(n) => decimal_of(n as nat) + " tab"@ + plural(n as nat),
        Indent::Mixed(n) => decimal_of(n as nat) + " mixed-whitespace char"@ + plural(n as nat),
    }
}

pub fn indent_words(indent: &Indent) -> (r: String)
    ensures
        r@ == words_of(*indent),
{
    match indent {
        Indent::Absent => "no indentation".to_owned(),
        Indent::Spaces(n) => decimal(*n).concat(" space").concat(plural_suffix(*n)),
        Indent::Tabs(n) => decimal(*n).concat(" tab").concat(plural_suffix(*n)),
        Indent::Mixed(n) => decimal(*n).concat(" mixed-whitespace char").concat(plural_suffix(*n)),
    }
}

/// How the two indentations differ; a needle of the file's own kind is named by its number alone.
pub open spec fn phrase_of(file_ws: Seq<char>, needle_ws: Seq<char>) -> Seq<char> {
    let file = indent_kind(file_ws);
    let needle = indent_kind(needle_ws);
    let words = match (file, needle) {
        (Indent::Spaces(_), Indent::Spaces(n)) => decimal_of(n as nat),
        (Indent::Tabs(_), Indent::Tabs(n)) => decimal_of(n as nat),
        _ => words_of(needle),
    };
    "the file indents it "@ + words_of(file) + ", --old has "@ + words
}

pub fn indent_phrase(file_ws: &str, needle_ws: &str) -> (r: String)
    ensures
        r@ == phrase_of(file_ws@, needle_ws@),
{
    let file = classify_indent(file_ws);
    let needle = classify_indent(needle_ws);
    let words = match (&file, &needle) {
        (Indent::Spaces(_), Indent::Spaces(n)) => decimal(*n),
        (Indent::Tabs(_), Indent::Tabs(n)) => decimal(*n),
        _ => indent_words(&needle),
    };
    "the file indents it ".to_owned().concat(indent_words(&file).as_str()).concat(
        ", --old has ",
    ).concat(words.as_str())
}

/// `line` without the carriage returns it ends with.
pub open spec fn without_crs(line: Seq<char>) -> Seq<char>
    decreases line.len(),
{
    if line.len() > 0 && line.last() == '\r' {
        without_crs(line.drop_last())
    } else {
        line
    }
}

fn strip_crs<'a>(line: &'a str) -> (r: &'a str)
    ensures
        r@ == without_crs(line@),
{
    let mut n: usize = line.unicode_len();
    assert(line@.subrange(0, n as int) =~= line@);
    while n > 0
        invariant
            n <= line@.len(),
            without_crs(line@) == without_crs(line@.subrange(0, n as int)),
        decreases n,
    {
        if line.get_char(n - 1) != '\r' {
            return line.substring_char(0, n);
        }
        assert(line@.subrange(0, n as int).drop_last() =~= line@.subrange(0, n - 1));
        n = n - 1;
    }
    line.substring_char(0, 0)
}

/// The lines of the needle.
pub open spec fn needle_lines(old: Seq<char>) -> Seq<Seq<char>> {
    pieces_of(old).map_values(|line: Seq<char>| without_crs(line))
}

fn lines_of_needle(old: &str) -> (r: Vec<String>)
    ensures
        texts(r@) == needle_lines(old@),
        r@.len() > 0,
{
    let parts = text::pieces(old);
    let mut out: Vec<String> = Vec::new();
    let mut i: usize = 0;
    while i < parts.len()
        invariant
            i <= parts@.len(),
            texts(parts@) == pieces_of(old@),
            out@.len() == i,
            forall|j: int| 0 <= j < i ==> #[trigger] out@[j]@ == needle_lines(old@)[j],
        decreases parts@.len() - i,
    {
        assert(texts(parts@)[i as int] == parts@[i as int]@);
        out.push(strip_crs(parts[i].as_str()).to_owned());
        i = i + 1;
    }
    assert(texts(out@) =~= needle_lines(old@));
    out
}

/// What line `k` (counted from `0`) of the searched text says.
pub open spec fn hay_line(hay: Seq<u8>, k: int) -> Seq<char> {
    line_says(hay, starts_of(hay), k + 1)
}

/// The needle's lines stand at line `at` of `hay` once indentation is left out of account.
pub open spec fn rests_match(hay: Seq<u8>, needle: Seq<Seq<char>>, at: int) -> bool {
    &&& 0 <= at
    &&& at + needle.len() <= starts_of(hay).len()
    &&& forall|k: int|
        0 <= k < needle.len() ==> rest_of(hay_line(hay, at + k)) == rest_of(#[trigger] needle[k])
}

/// One of those lines is indented otherwise in the file.
pub open spec fn indents_differ(hay: Seq<u8>, needle: Seq<Seq<char>>, at: int) -> bool {
    exists|k: int|
        0 <= k < needle.len() && indent_of(hay_line(hay, at + k)) != indent_of(
            #[trigger] needle[k],
        )
}

/// A line of the file that is indented otherwise than the needle's: its number in the whole file
/// and the two indentations.
pub ghost struct Difference {
    pub line: nat,
    pub file: Seq<char>,
    pub needle: Seq<char>,
}

/// The differences among the first `n` lines of the needle.
pub open spec fn differences(
    before: Seq<u8>,
    scope: Span,
    needle: Seq<Seq<char>>,
    at: int,
    n: int,
) -> Seq<Difference>
    decreases n,
{
    if n <= 0 {
        Seq::empty()
    } else {
        let so_far = differences(before, scope, needle, at, n - 1);
        let hay = before.subrange(scope.start as int, scope.end as int);
        let file = indent_of(hay_line(hay, at + n - 1));
        let typed = indent_of(needle[n - 1]);
        if file == typed {
            so_far
        } else {
            so_far.push(
                Difference { line: file_line(before, scope, at + n - 1), file, needle: typed },
            )
        }
    }
}

/// The number, in the whole file, of line `k` of the searched part.
pub open spec fn file_line(before: Seq<u8>, scope: Span, k: int) -> nat {
    let hay = before.subrange(scope.start as int, scope.end as int);
    line_at(before, scope.start + starts_of(hay)[k])
}

/// Far below what a list of candidates may hold: the hint sits inline in one line.
pub const INDENT_HINT_LINES: usize = 5;

/// The first `n` differences, as a list.
pub open spec fn listed(diffs: Seq<Difference>, n: int) -> Seq<char>
    decreases n,
{
    if n <= 0 {
        Seq::empty()
    } else {
        let d = diffs[n - 1];
        listed(diffs, n - 1) + (if n > 1 {
            "; "@
        } else {
            Seq::empty()
        }) + "line "@ + decimal_of(d.line) + " "@ + phrase_of(d.file, d.needle)
    }
}

/// The hint for several lines; differences past the limit are counted.
pub open spec fn lines_hint(first: nat, last: nat, diffs: Seq<Difference>) -> Seq<char> {
    let shown = if diffs.len() > INDENT_HINT_LINES {
        INDENT_HINT_LINES as int
    } else {
        diffs.len() as int
    };
    let head = "matches lines "@ + decimal_of(first) + "-"@ + decimal_of(last)
        + " except leading whitespace: "@ + listed(diffs, shown);
    if diffs.len() > INDENT_HINT_LINES {
        head + " (+"@ + decimal_of((diffs.len() - INDENT_HINT_LINES) as nat) + " more)"@
    } else {
        head
    }
}

/// The hint for the needle at line `at` of the searched part.
pub open spec fn hint_text(
    before: Seq<u8>,
    scope: Span,
    needle: Seq<Seq<char>>,
    at: int,
) -> Seq<char> {
    let diffs = differences(before, scope, needle, at, needle.len() as int);
    if needle.len() == 1 {
        "matches line "@ + decimal_of(diffs[0].line) + " except leading whitespace: "@ + phrase_of(
            diffs[0].file,
            diffs[0].needle,
        )
    } else {
        lines_hint(
            file_line(before, scope, at),
            file_line(before, scope, at + needle.len() - 1),
            diffs,
        )
    }
}

/// `(line, file_ws, needle_ws)` as it is found.
pub struct Diff {
    pub line: usize,
    pub file: String,
    pub needle: String,
}

impl Diff {
    pub open spec fn is(self, d: Difference) -> bool {
        self.line == d.line && self.file@ == d.file && self.needle@ == d.needle
    }
}

pub open spec fn diffs_are(found: Seq<Diff>, diffs: Seq<Difference>) -> bool {
    &&& found.len() == diffs.len()
    &&& forall|i: int| 0 <= i < found.len() ==> (#[trigger] found[i]).is(diffs[i])
}

fn indent_hint_lines(
    first: usize,
    last: usize,
    diffs: &Vec<Diff>,
    Ghost(model): Ghost<Seq<Difference>>,
) -> (r: String)
    requires
        diffs_are(diffs@, model),
    ensures
        r@ == lines_hint(first as nat, last as nat, model),
{
    let mut out = "matches lines ".to_owned().concat(decimal(first).as_str()).concat("-").concat(
        decimal(last).as_str(),
    ).concat(" except leading whitespace: ");
    let ghost head = out@;
    let shown = if diffs.len() > INDENT_HINT_LINES {
        INDENT_HINT_LINES
    } else {
        diffs.len()
    };
    let mut i: usize = 0;
    assert(head + listed(model, 0) =~= head);
    while i < shown
        invariant
            i <= shown <= diffs@.len(),
            diffs_are(diffs@, model),
            out@ == head + listed(model, i as int),
        decreases shown - i,
    {
        assert(diffs@[i as int].is(model[i as int]));
        let ghost so_far = out@;
        if i > 0 {
            out.append("; ");
        }
        out.append("line ");
        out.append(decimal(diffs[i].line).as_str());
        out.append(" ");
        out.append(indent_phrase(diffs[i].file.as_str(), diffs[i].needle.as_str()).as_str());
        assert(out@ =~= head + listed(model, i + 1));
        i = i + 1;
    }
    if diffs.len() > INDENT_HINT_LINES {
        out.append(" (+");
        out.append(decimal(diffs.len() - INDENT_HINT_LINES).as_str());
        out.append(" more)");
    }
    out
}

proof fn lemma_differences_nonempty(
    before: Seq<u8>,
    scope: Span,
    needle: Seq<Seq<char>>,
    at: int,
    n: int,
)
    requires
        0 <= n <= needle.len(),
    ensures
        differences(before, scope, needle, at, n).len() > 0 <==> exists|k: int|
            0 <= k < n && indent_of(
                hay_line(before.subrange(scope.start as int, scope.end as int), at + k),
            ) != indent_of(#[trigger] needle[k]),
    decreases n,
{
    if n > 0 {
        lemma_differences_nonempty(before, scope, needle, at, n - 1);
        let hay = before.subrange(scope.start as int, scope.end as int);
        if indent_of(hay_line(hay, at + (n - 1))) != indent_of(needle[n - 1]) {
            assert(differences(before, scope, needle, at, n).len() > 0);
        }
    }
}

/// The needle's lines against the searched part at line `at`: `None` where the text of one
/// differs, else the differences of indentation.
fn compare_at(
    before: &[u8],
    scope: Span,
    hay: &[u8],
    starts: &Vec<usize>,
    needle: &Vec<String>,
    at: usize,
) -> (r: Option<Vec<Diff>>)
    requires
        scope.within(before@.len()),
        before@.len() < usize::MAX,
        hay@ == before@.subrange(scope.start as int, scope.end as int),
        are_starts(hay@, starts@),
        at + needle@.len() <= starts@.len(),
    ensures
        match r {
            Some(diffs) => rests_match(hay@, texts(needle@), at as int) && diffs_are(
                diffs@,
                differences(before@, scope, texts(needle@), at as int, needle@.len() as int),
            ),
            None => !rests_match(hay@, texts(needle@), at as int),
        },
{
    proof {
        lemma_starts_of(hay@, starts@);
    }
    let total = starts.len();
    let mut diffs: Vec<Diff> = Vec::new();
    let mut k: usize = 0;
    while k < needle.len()
        invariant
            k <= needle@.len(),
            total == starts@.len(),
            scope.within(before@.len()),
            before@.len() < usize::MAX,
            hay@ == before@.subrange(scope.start as int, scope.end as int),
            are_starts(hay@, starts@),
            starts@ == starts_of(hay@),
            at + needle@.len() <= starts@.len(),
            forall|j: int|
                0 <= j < k ==> rest_of(hay_line(hay@, at + j)) == rest_of(
                    #[trigger] texts(needle@)[j],
                ),
            diffs_are(
                diffs@,
                differences(before@, scope, texts(needle@), at as int, k as int),
            ),
        decreases needle@.len() - k,
    {
        let line = line_text(hay, starts.as_slice(), at + k + 1);
        let (file_ws, file_rest) = split_indent(line.as_str());
        let (needle_ws, needle_rest) = split_indent(needle[k].as_str());
        assert(texts(needle@)[k as int] == needle@[k as int]@);
        if !text::same(file_rest, needle_rest) {
            return None;
        }
        if !text::same(file_ws, needle_ws) {
            assert(is_start(hay@, starts@[at + k] as int));
            let number = line_of(before, scope.start + starts[at + k]);
            diffs.push(
                Diff { line: number, file: file_ws.to_owned(), needle: needle_ws.to_owned() },
            );
        }
        k = k + 1;
    }
    Some(diffs)
}

/// `hint` is what there is to say of a needle that is not in the searched part: the first place
/// where every line of it stands but for its indentation, if both are UTF-8 and there is one.
pub open spec fn is_indent_hint(
    before: Seq<u8>,
    scope: Span,
    old: Seq<u8>,
    hint: Option<Seq<char>>,
) -> bool {
    let hay = before.subrange(scope.start as int, scope.end as int);
    let needle = needle_lines(decode_utf8(old));
    if !valid_utf8(hay) || !valid_utf8(old) {
        hint is None
    } else {
        match hint {
            Some(text) => exists|at: int|
                #[trigger] rests_match(hay, needle, at) && indents_differ(hay, needle, at) && (
                forall|w: int|
                    0 <= w < at ==> !(#[trigger] rests_match(hay, needle, w) && indents_differ(
                        hay,
                        needle,
                        w,
                    ))) && text == hint_text(before, scope, needle, at),
            None => forall|at: int|
                !(#[trigger] rests_match(hay, needle, at) && indents_differ(hay, needle, at)),
        }
    }
}

/// The hint for the needle at line `at`, once its lines were compared with those of the file.
fn hint_at(
    before: &[u8],
    scope: Span,
    starts: &Vec<usize>,
    at: usize,
    count: usize,
    diffs: &Vec<Diff>,
    Ghost(hay): Ghost<Seq<u8>>,
    Ghost(needle): Ghost<Seq<Seq<char>>>,
) -> (r: String)
    requires
        scope.within(before@.len()),
        before@.len() < usize::MAX,
        hay == before@.subrange(scope.start as int, scope.end as int),
        are_starts(hay, starts@),
        count == needle.len(),
        count > 0,
        at + count <= starts@.len(),
        diffs@.len() > 0,
        diffs_are(diffs@, differences(before@, scope, needle, at as int, count as int)),
    ensures
        r@ == hint_text(before@, scope, needle, at as int),
{
    let ghost all = differences(before@, scope, needle, at as int, count as int);
    let total = starts.len();
    proof {
        lemma_starts_of(hay, starts@);
        assert(diffs@[0].is(all[0]));
        assert(is_start(hay, starts@[at as int] as int));
        assert(is_start(hay, starts@[at + count - 1] as int));
    }
    if count == 1 {
        "matches line ".to_owned().concat(decimal(diffs[0].line).as_str()).concat(
            " except leading whitespace: ",
        ).concat(indent_phrase(diffs[0].file.as_str(), diffs[0].needle.as_str()).as_str())
    } else {
        let first = line_of(before, scope.start + starts[at]);
        let last = line_of(before, scope.start + starts[at + count - 1]);
        indent_hint_lines(first, last, diffs, Ghost(all))
    }
}

/// `Some` only when every line of `old` matches consecutive `scope` lines with leading whitespace
/// ignored, and at least one line's whitespace differs.
pub fn indent_hint(before: &[u8], scope: Span, old: &[u8]) -> (r: Option<String>)
    requires
        scope.within(before@.len()),
        before@.len() < usize::MAX,
    ensures
        is_indent_hint(
            before@,
            scope,
            old@,
            match r {
                Some(s) => Some(s@),
                None => None,
            },
        ),
{
    let hay = slice_subrange(before, scope.start, scope.end);
    let hay_starts = line_starts(hay);
    let hay_text = match utf8_text(hay) {
        Some(s) => s,
        None => return None,
    };
    let needle_text = match utf8_text(old) {
        Some(s) => s,
        None => return None,
    };
    proof {
        encode_utf8_valid_utf8(hay_text@);
        encode_utf8_valid_utf8(needle_text@);
        encode_utf8_decode_utf8(needle_text@);
        lemma_starts_of(hay@, hay_starts@);
    }
    let needle = lines_of_needle(needle_text.as_str());
    let count = needle.len();
    let ghost model = texts(needle@);
    if hay_starts.len() < count {
        return None;
    }
    let mut at: usize = 0;
    while at <= hay_starts.len() - count
        invariant
            count == needle@.len(),
            count > 0,
            model == texts(needle@),
            model == needle_lines(decode_utf8(old@)),
            valid_utf8(hay@),
            valid_utf8(old@),
            count <= hay_starts@.len(),
            at <= hay_starts@.len() - count + 1,
            scope.within(before@.len()),
            before@.len() < usize::MAX,
            hay@ == before@.subrange(scope.start as int, scope.end as int),
            are_starts(hay@, hay_starts@),
            hay_starts@ == starts_of(hay@),
            forall|w: int|
                0 <= w < at ==> !(#[trigger] rests_match(hay@, model, w) && indents_differ(
                    hay@,
                    model,
                    w,
                )),
        decreases hay_starts@.len() - count + 1 - at,
    {
        let found = compare_at(before, scope, hay, &hay_starts, &needle, at);
        proof {
            lemma_differences_nonempty(before@, scope, model, at as int, count as int);
        }
        if let Some(diffs) = found {
            if diffs.len() > 0 {
                assert(rests_match(hay@, model, at as int));
                return Some(
                    hint_at(
                        before,
                        scope,
                        &hay_starts,
                        at,
                        count,
                        &diffs,
                        Ghost(hay@),
                        Ghost(model),
                    ),
                );
            }
        }
        if at == hay_starts.len() - count {
            return None;
        }
        at = at + 1;
    }
    None
}

/// A line is its indentation and what follows: spaces and tabs alone, and then none at the front.
pub proof fn law_a_line_is_its_indent_and_its_rest(line: Seq<char>)
    ensures
        indent_of(line) + rest_of(line) == line,
        forall|i: int|
            0 <= i < indent_of(line).len() ==> (#[trigger] indent_of(line)[i] == ' ' || indent_of(
                line,
            )[i] == '\t'),
        rest_of(line).len() > 0 ==> rest_of(line)[0] != ' ' && rest_of(line)[0] != '\t',
    decreases line.len(),
{
    if line.len() > 0 && (line[0] == ' ' || line[0] == '\t') {
        let less = line.drop_first();
        law_a_line_is_its_indent_and_its_rest(less);
        lemma_indent_len(less);
        assert(rest_of(line) =~= rest_of(less));
        assert(indent_of(line) =~= seq![line[0]] + indent_of(less));
        assert(indent_of(line) + rest_of(line) =~= line);
    } else {
        assert(indent_of(line) + rest_of(line) =~= line);
    }
}

proof fn lemma_indent_len(line: Seq<char>)
    ensures
        indent_len(line) <= line.len(),
    decreases line.len(),
{
    if line.len() > 0 {
        lemma_indent_len(line.drop_first());
    }
}

/// Only carriage returns come off the end of a line of the needle, and all of them.
pub proof fn law_only_carriage_returns_come_off(line: Seq<char>)
    ensures
        without_crs(line).is_prefix_of(line),
        forall|i: int| without_crs(line).len() <= i < line.len() ==> #[trigger] line[i] == '\r',
        without_crs(line).len() > 0 ==> without_crs(line).last() != '\r',
    decreases line.len(),
{
    if line.len() > 0 && line.last() == '\r' {
        law_only_carriage_returns_come_off(line.drop_last());
        assert forall|i: int| without_crs(line).len() <= i < line.len() implies #[trigger] line[i]
            == '\r' by {
            if i < line.len() - 1 {
                assert(line[i] == line.drop_last()[i]);
            }
        }
    }
}

/// A hint tells of each line that the file indents otherwise, by its number in the whole file and
/// both indentations, and of no other line.
pub proof fn law_a_hint_tells_of_each_line_that_differs(
    before: Seq<u8>,
    scope: Span,
    needle: Seq<Seq<char>>,
    at: int,
    n: int,
)
    requires
        0 <= n <= needle.len(),
    ensures
        ({
            let hay = before.subrange(scope.start as int, scope.end as int);
            let diffs = differences(before, scope, needle, at, n);
            &&& forall|k: int|
                0 <= k < n && indent_of(hay_line(hay, at + k)) != indent_of(#[trigger] needle[k])
                    ==> diffs.contains(
                    Difference {
                        line: line_at(before, scope.start + starts_of(hay)[at + k]),
                        file: indent_of(hay_line(hay, at + k)),
                        needle: indent_of(needle[k]),
                    },
                )
            &&& forall|i: int|
                0 <= i < diffs.len() ==> (#[trigger] diffs[i]).file != diffs[i].needle && exists|
                    k: int,
                |
                    0 <= k < n && diffs[i].needle == indent_of(#[trigger] needle[k])
                        && diffs[i].file == indent_of(hay_line(hay, at + k)) && diffs[i].line
                        == line_at(before, scope.start + starts_of(hay)[at + k])
        }),
    decreases n,
{
    if n > 0 {
        law_a_hint_tells_of_each_line_that_differs(before, scope, needle, at, n - 1);
        let hay = before.subrange(scope.start as int, scope.end as int);
        let (had, all) = (
            differences(before, scope, needle, at, n - 1),
            differences(before, scope, needle, at, n),
        );
        assert forall|d: Difference| #[trigger] had.contains(d) implies all.contains(d) by {
            let j = choose|j: int| 0 <= j < had.len() && had[j] == d;
            assert(all[j] == d);
        }
        if indent_of(hay_line(hay, at + n - 1)) != indent_of(needle[n - 1]) {
            assert(all[all.len() - 1].needle == indent_of(needle[n - 1]));
        }
        assert forall|i: int| 0 <= i < all.len() implies (#[trigger] all[i]).file != all[i].needle
            && exists|k: int|
            0 <= k < n && all[i].needle == indent_of(#[trigger] needle[k]) && all[i].file
                == indent_of(hay_line(hay, at + k)) && all[i].line == line_at(
                before,
                scope.start + starts_of(hay)[at + k],
            ) by {
            if i < had.len() {
                assert(all[i] == had[i]);
                let k = choose|k: int|
                    0 <= k < n - 1 && had[i].needle == indent_of(#[trigger] needle[k])
                        && had[i].file == indent_of(hay_line(hay, at + k)) && had[i].line
                        == line_at(before, scope.start + starts_of(hay)[at + k]);
                assert(0 <= k < n && all[i].needle == indent_of(needle[k]));
            } else {
                let k = n - 1;
                assert(0 <= k < n && all[i].needle == indent_of(needle[k]));
            }
        }
    }
}

} // verus!
