//! The lines a search found, as they are shown.
use std::ops::Range;

use vstd::prelude::*;
use vstd::slice::slice_subrange;
use vstd::utf8::*;

use crate::edit::lines::{lossy, lossy_text, utf8_text};
use crate::find::args::{spans_of, spans_pattern, FindArgs};
use crate::output::{Line, Marker};
use crate::pattern::{
    are_offsets, check_regex, find_matches, regex_error, regex_matches,
};
use crate::text;
use crate::text::byte_len;

verus! {

/// `bytes` without the line end they end with.
pub open spec fn unended(bytes: Seq<u8>) -> Seq<u8>
    decreases bytes.len(),
{
    if bytes.len() > 0 && (bytes.last() == 10 || bytes.last() == 13) {
        unended(bytes.drop_last())
    } else {
        bytes
    }
}

/// The number a line is shown with; a searcher that counts no lines gives `0`.
pub open spec fn shown_number(number: Option<u64>) -> usize {
    match number {
        Some(n) => if n <= usize::MAX {
            n as usize
        } else {
            usize::MAX
        },
        None => 0,
    }
}

/// A file is never refused over its encoding; only a shown line is decoded. The `bool` is whether
/// that lost bytes.
pub fn sink_line(bytes: &[u8], number: Option<u64>, marker: Marker) -> (r: (Line, bool))
    ensures
        r.0.number == shown_number(number),
        r.0.marker == marker,
        r.0.text@ == lossy(unended(bytes@)),
        r.1 == !valid_utf8(unended(bytes@)),
{
    let mut end: usize = bytes.len();
    assert(bytes@.subrange(0, end as int) =~= bytes@);
    while end > 0 && (bytes[end - 1] == 10 || bytes[end - 1] == 13)
        invariant
            end <= bytes@.len(),
            unended(bytes@) == unended(bytes@.subrange(0, end as int)),
        decreases end,
    {
        assert(bytes@.subrange(0, end as int).drop_last() =~= bytes@.subrange(0, end - 1));
        end = end - 1;
    }
    let said = slice_subrange(bytes, 0, end);
    assert(said@ == unended(bytes@));
    let lost = match utf8_text(said) {
        Some(s) => {
            proof {
                encode_utf8_valid_utf8(s@);
            }
            false
        },
        None => true,
    };
    let shown: usize = match number {
        Some(n) => if n <= usize::MAX as u64 {
            n as usize
        } else {
            usize::MAX
        },
        None => 0,
    };
    (Line { number: shown, marker, text: lossy_text(said) }, lost)
}

/// The offsets that hold something.
pub open spec fn filled(found: Seq<(usize, usize)>) -> Seq<(usize, usize)>
    decreases found.len(),
{
    if found.len() == 0 {
        Seq::empty()
    } else if found.last().0 < found.last().1 {
        filled(found.drop_last()).push(found.last())
    } else {
        filled(found.drop_last())
    }
}

fn drop_empty(found: &Vec<(usize, usize)>) -> (r: Vec<(usize, usize)>)
    ensures
        r@ == filled(found@),
{
    let mut out: Vec<(usize, usize)> = Vec::new();
    let mut i: usize = 0;
    assert(found@.take(0) =~= Seq::empty());
    while i < found.len()
        invariant
            i <= found@.len(),
            out@ == filled(found@.take(i as int)),
        decreases found@.len() - i,
    {
        assert(found@.take(i + 1).drop_last() =~= found@.take(i as int));
        let (start, end) = found[i];
        if start < end {
            out.push((start, end));
        }
        i = i + 1;
    }
    assert(found@.take(i as int) =~= found@);
    out
}

proof fn lemma_filled(found: Seq<(usize, usize)>, bytes: Seq<u8>)
    requires
        are_offsets(found, bytes),
    ensures
        are_offsets(filled(found), bytes),
        forall|i: int| 0 <= i < filled(found).len() ==> (#[trigger] filled(found)[i]).0 < filled(found)[i].1,
        found.len() > 0 && filled(found).len() > 0 ==> filled(found).last().1 <= found.last().1,
    decreases found.len(),
{
    if found.len() > 0 {
        let head = found.drop_last();
        assert(are_offsets(head, bytes)) by {
            assert forall|i: int| 0 <= i < head.len() implies {
                &&& (#[trigger] head[i]).0 <= head[i].1 <= bytes.len()
                &&& is_char_boundary(bytes, head[i].0 as int)
                &&& is_char_boundary(bytes, head[i].1 as int)
            } by {
                assert(head[i] == found[i]);
            }
            assert forall|i: int, j: int| 0 <= i < j < head.len() implies (#[trigger] head[i]).1
                <= (#[trigger] head[j]).0 by {
                assert(head[i] == found[i] && head[j] == found[j]);
            }
        }
        lemma_filled(head, bytes);
        let n = found.len() - 1;
        assert(found[n].0 <= found[n].1 <= bytes.len());
        if head.len() > 0 {
            assert(found[n - 1].1 <= found[n].0);
        }
        if found.last().0 < found.last().1 {
            let kept = filled(head);
            let all = filled(found);
            assert forall|i: int| 0 <= i < all.len() implies {
                &&& (#[trigger] all[i]).0 <= all[i].1 <= bytes.len()
                &&& is_char_boundary(bytes, all[i].0 as int)
                &&& is_char_boundary(bytes, all[i].1 as int)
            } by {
                if i < kept.len() {
                    assert(all[i] == kept[i]);
                }
            }
            assert forall|i: int, j: int| 0 <= i < j < all.len() implies (#[trigger] all[i]).1
                <= (#[trigger] all[j]).0 by {
                assert(all[i] == kept[i]);
                if j < kept.len() {
                    assert(all[j] == kept[j]);
                } else {
                    assert(kept[i].1 <= kept.last().1) by {
                        if i < kept.len() - 1 {
                            assert(kept[i].1 <= kept[kept.len() - 1].0);
                        }
                    }
                }
            }
        }
    }
}

/// The bytes that open a match.
pub open spec fn open_bytes() -> Seq<u8> {
    encode_utf8(seq!['\u{ab}'])
}

/// The bytes that close a match.
pub open spec fn close_bytes() -> Seq<u8> {
    encode_utf8(seq!['\u{bb}'])
}

/// Where the bytes after match `n - 1` begin.
pub open spec fn after_match(found: Seq<(usize, usize)>, n: int) -> int {
    if n <= 0 {
        0
    } else {
        found[n - 1].1 as int
    }
}

/// The text up to the end of its first `n` matches, each of them marked.
pub open spec fn marked_upto(bytes: Seq<u8>, found: Seq<(usize, usize)>, n: int) -> Seq<u8>
    decreases n,
{
    if n <= 0 {
        Seq::empty()
    } else {
        let (start, end) = found[n - 1];
        marked_upto(bytes, found, n - 1) + bytes.subrange(
            after_match(found, n - 1),
            start as int,
        ) + open_bytes() + bytes.subrange(start as int, end as int) + close_bytes()
    }
}

/// The text with each match marked.
pub open spec fn marked(bytes: Seq<u8>, found: Seq<(usize, usize)>) -> Seq<u8> {
    let n = found.len() as int;
    marked_upto(bytes, found, n) + bytes.subrange(after_match(found, n), bytes.len() as int)
}

/// The first match with its marks, as a range of the marked text.
pub open spec fn first_marked(found: Seq<(usize, usize)>) -> Option<Range<usize>> {
    if found.len() == 0 {
        None
    } else {
        Some(Range { start: found[0].0, end: (found[0].1 + 4) as usize })
    }
}

proof fn lemma_marks()
    ensures
        open_bytes().len() == 2,
        close_bytes().len() == 2,
{
    let a = seq!['\u{ab}'];
    let b = seq!['\u{bb}'];
    assert(a.drop_first() =~= seq![]);
    assert(b.drop_first() =~= seq![]);
    reveal_with_fuel(encode_utf8, 2);
}

/// Wrapped `«»` so matches survive a pipe; an empty match has nothing to wrap.
pub fn wrap_matches(line: &str, found: &Vec<(usize, usize)>) -> (r: (String, Option<Range<usize>>))
    requires
        are_offsets(found@, encode_utf8(line@)),
        byte_len(line@) + 4 <= usize::MAX,
    ensures
        encode_utf8(r.0@) == marked(encode_utf8(line@), filled(found@)),
        r.1 == first_marked(filled(found@)),
{
    let ghost bytes = encode_utf8(line@);
    let kept = drop_empty(found);
    proof {
        encode_utf8_valid_utf8(line@);
        lemma_filled(found@, bytes);
        is_char_boundary_start_end_of_seq(bytes);
    }
    let size = text::len(line);
    let mut out = String::new();
    let mut from: usize = 0;
    let mut i: usize = 0;
    assert(encode_utf8(out@) =~= marked_upto(bytes, kept@, 0));
    while i < kept.len()
        invariant
            i <= kept@.len(),
            are_offsets(kept@, bytes),
            bytes == encode_utf8(line@),
            size == bytes.len(),
            from == after_match(kept@, i as int),
            from <= size,
            is_char_boundary(bytes, from as int),
            encode_utf8(out@) == marked_upto(bytes, kept@, i as int),
        decreases kept@.len() - i,
    {
        let (start, end) = kept[i];
        assert(kept@[i as int].0 <= kept@[i as int].1);
        if i > 0 {
            assert(kept@[i - 1].1 <= kept@[i as int].0);
        }
        let ghost so_far = out@;
        let before = text::slice(line, from, start);
        out.append(before);
        let ghost a = out@;
        out.push('\u{ab}');
        let ghost b = out@;
        let matched = text::slice(line, start, end);
        out.append(matched);
        let ghost c = out@;
        out.push('\u{bb}');
        proof {
            text::lemma_encode_concat(so_far, before@);
            text::lemma_encode_concat(a, seq!['\u{ab}']);
            assert(b =~= a + seq!['\u{ab}']);
            text::lemma_encode_concat(b, matched@);
            text::lemma_encode_concat(c, seq!['\u{bb}']);
            assert(out@ =~= c + seq!['\u{bb}']);
            assert(encode_utf8(out@) =~= marked_upto(bytes, kept@, i + 1));
        }
        from = end;
        i = i + 1;
    }
    let rest = text::slice(line, from, size);
    let ghost so_far = out@;
    out.append(rest);
    proof {
        text::lemma_encode_concat(so_far, rest@);
        assert(encode_utf8(out@) =~= marked(bytes, kept@));
    }
    let first = if kept.len() == 0 {
        None
    } else {
        assert(kept@[0].0 <= kept@[0].1);
        Some(Range { start: kept[0].0, end: kept[0].1 + 4 })
    };
    (out, first)
}

/// A marked text up to the end of its first `n` matches, without their marks: the `k`-th match
/// stands four bytes further on for each match before it.
pub open spec fn unmarked_upto(out: Seq<u8>, found: Seq<(usize, usize)>, n: int) -> Seq<u8>
    decreases n,
{
    if n <= 0 {
        Seq::empty()
    } else {
        let (start, end) = found[n - 1];
        let moved = 4 * (n - 1);
        unmarked_upto(out, found, n - 1) + out.subrange(
            after_match(found, n - 1) + moved,
            start + moved,
        ) + out.subrange(start + moved + 2, end + moved + 2)
    }
}

/// A marked text without the marks.
pub open spec fn unmarked(out: Seq<u8>, found: Seq<(usize, usize)>) -> Seq<u8> {
    let n = found.len() as int;
    unmarked_upto(out, found, n) + out.subrange(after_match(found, n) + 4 * n, out.len() as int)
}

/// Marking only adds: the marked text without the marks is the text, and each match has gained four
/// bytes.
pub proof fn law_the_text_without_the_marks_is_the_text(
    bytes: Seq<u8>,
    found: Seq<(usize, usize)>,
)
    requires
        are_offsets(found, bytes),
    ensures
        unmarked(marked(bytes, found), found) == bytes,
        marked(bytes, found).len() == bytes.len() + 4 * found.len(),
{
    let n = found.len() as int;
    let out = marked(bytes, found);
    lemma_marked_upto(bytes, found, n);
    lemma_unmarked(bytes, found, n);
    let rest = bytes.subrange(after_match(found, n), bytes.len() as int);
    assert(out.subrange(after_match(found, n) + 4 * n, out.len() as int) =~= rest);
    assert(bytes.take(after_match(found, n)) + rest =~= bytes);
}

proof fn lemma_unmarked(bytes: Seq<u8>, found: Seq<(usize, usize)>, n: int)
    requires
        are_offsets(found, bytes),
        0 <= n <= found.len(),
    ensures
        unmarked_upto(marked(bytes, found), found, n) == bytes.take(after_match(found, n)),
    decreases n,
{
    if n > 0 {
        lemma_unmarked(bytes, found, n - 1);
        lemma_marks();
        lemma_marked_upto(bytes, found, n - 1);
        lemma_marked_upto(bytes, found, n);
        lemma_marked_upto(bytes, found, found.len() as int);
        lemma_marked_prefix(bytes, found, n, found.len() as int);
        let out = marked(bytes, found);
        let one = marked_upto(bytes, found, n);
        let (start, end) = found[n - 1];
        let from = after_match(found, n - 1);
        let moved = 4 * (n - 1);
        assert(found[n - 1].0 <= found[n - 1].1 <= bytes.len());
        if n > 1 {
            assert(found[n - 2].1 <= found[n - 1].0);
        }
        assert(out.take(one.len() as int) =~= one);
        assert(out.subrange(from + moved, start + moved) =~= one.subrange(
            from + moved,
            start + moved,
        ));
        assert(one.subrange(from + moved, start + moved) =~= bytes.subrange(from, start as int));
        assert(out.subrange(start + moved + 2, end + moved + 2) =~= one.subrange(
            start + moved + 2,
            end + moved + 2,
        ));
        assert(one.subrange(start + moved + 2, end + moved + 2) =~= bytes.subrange(
            start as int,
            end as int,
        ));
        assert(bytes.take(end as int) =~= bytes.take(from) + bytes.subrange(from, start as int)
            + bytes.subrange(start as int, end as int));
    } else {
        assert(bytes.take(0) =~= Seq::empty());
    }
}

proof fn lemma_marked_upto(bytes: Seq<u8>, found: Seq<(usize, usize)>, n: int)
    requires
        are_offsets(found, bytes),
        0 <= n <= found.len(),
    ensures
        marked_upto(bytes, found, n).len() == after_match(found, n) + 4 * n,
        0 <= after_match(found, n) <= bytes.len(),
    decreases n,
{
    lemma_marks();
    if n > 0 {
        lemma_marked_upto(bytes, found, n - 1);
        assert(found[n - 1].0 <= found[n - 1].1 <= bytes.len());
        if n > 1 {
            assert(found[n - 2].1 <= found[n - 1].0);
        }
    }
}

proof fn lemma_marked_prefix(bytes: Seq<u8>, found: Seq<(usize, usize)>, k: int, n: int)
    requires
        0 <= k <= n <= found.len(),
    ensures
        marked_upto(bytes, found, k).is_prefix_of(marked_upto(bytes, found, n)),
    decreases n,
{
    if k < n {
        lemma_marked_prefix(bytes, found, k, n - 1);
        let a = marked_upto(bytes, found, k);
        let b = marked_upto(bytes, found, n - 1);
        let c = marked_upto(bytes, found, n);
        assert(c.take(a.len() as int) =~= b.take(a.len() as int));
    }
}

/// A line as the searcher hands it over.
#[derive(Debug)]
pub struct RawLine {
    pub bytes: Vec<u8>,
    pub number: Option<u64>,
    pub hit: bool,
}

/// Why a file was not searched.
#[derive(Debug, Clone, Copy, PartialEq, Eq, Structural)]
pub enum Skip {
    Binary,
    TooLarge,
    Unreadable,
}

/// What came of one file.
#[derive(Debug)]
pub enum FileOutcome {
    Searched {
        lossy_lines: Vec<usize>,
        hits: usize,
        lines: Vec<Line>,
        /// Per line, the first wrapped match in its text: what a cut of a long line keeps.
        first_match: Vec<Option<Range<usize>>>,
    },
    Skipped(Skip),
}

/// How many of the first `n` lines hold a hit.
pub open spec fn hits_upto(raw: Seq<RawLine>, n: int) -> nat
    decreases n,
{
    if n <= 0 {
        0
    } else {
        hits_upto(raw, n - 1) + (if raw[n - 1].hit {
            1nat
        } else {
            0nat
        })
    }
}

/// The numbers of those of the first `n` lines that do not decode.
pub open spec fn lossy_upto(raw: Seq<RawLine>, n: int) -> Seq<usize>
    decreases n,
{
    if n <= 0 {
        Seq::empty()
    } else if valid_utf8(unended(raw[n - 1].bytes@)) {
        lossy_upto(raw, n - 1)
    } else {
        lossy_upto(raw, n - 1).push(shown_number(raw[n - 1].number))
    }
}

/// `line` shows what the searcher handed over: a hit with its matches marked, and where the first
/// of them is, or a line of context as it is.
pub open spec fn is_shown_line(
    line: Line,
    first: Option<Range<usize>>,
    raw: RawLine,
    pattern: Seq<char>,
    ignore_case: bool,
) -> bool {
    let said = lossy(unended(raw.bytes@));
    &&& line.number == shown_number(raw.number)
    &&& line.marker == (if raw.hit {
        Marker::Hit
    } else {
        Marker::Context
    })
    &&& if raw.hit && regex_error(pattern, ignore_case) is None {
        let found = filled(regex_matches(pattern, ignore_case, said));
        &&& encode_utf8(line.text@) == marked(encode_utf8(said), found)
        &&& first == first_marked(found)
    } else {
        line.text@ == said && first is None
    }
}

/// A file that was searched.
pub open spec fn is_searched(
    outcome: FileOutcome,
    raw: Seq<RawLine>,
    pattern: Seq<char>,
    ignore_case: bool,
) -> bool {
    outcome matches FileOutcome::Searched { lossy_lines, hits, lines, first_match } && {
        &&& hits == hits_upto(raw, raw.len() as int)
        &&& lossy_lines@ == lossy_upto(raw, raw.len() as int)
        &&& lines@.len() == raw.len()
        &&& first_match@.len() == raw.len()
        &&& forall|i: int|
            0 <= i < raw.len() ==> is_shown_line(
                #[trigger] lines@[i],
                first_match@[i],
                raw[i],
                pattern,
                ignore_case,
            )
    }
}

/// The lines a searcher found in a file, decoded and with their matches marked; `None` where a
/// line is too long to be marked.
pub fn searched(raw: &Vec<RawLine>, args: &FindArgs) -> (r: Option<FileOutcome>)
    ensures
        match r {
            Some(outcome) => is_searched(outcome, raw@, spans_of(*args), args.ignore_case),
            None => exists|i: int|
                0 <= i < raw@.len() && byte_len(lossy(unended((#[trigger] raw@[i]).bytes@))) + 4
                    > usize::MAX,
        },
{
    let pattern = spans_pattern(args);
    let marks = check_regex(pattern.as_str(), args.ignore_case).is_none();
    let mut lines: Vec<Line> = Vec::new();
    let mut said: Vec<String> = Vec::new();
    let mut lossy_lines: Vec<usize> = Vec::new();
    let mut hits: usize = 0;
    let mut i: usize = 0;
    while i < raw.len()
        invariant
            i <= raw@.len(),
            hits <= i,
            hits == hits_upto(raw@, i as int),
            lossy_lines@ == lossy_upto(raw@, i as int),
            lines@.len() == i,
            said@.len() == i,
            forall|k: int|
                0 <= k < i ==> {
                    let line = #[trigger] lines@[k];
                    &&& line.number == shown_number(raw@[k].number)
                    &&& line.marker == (if raw@[k].hit {
                        Marker::Hit
                    } else {
                        Marker::Context
                    })
                    &&& line.text@ == lossy(unended(raw@[k].bytes@))
                    &&& said@[k]@ == line.text@
                },
        decreases raw@.len() - i,
    {
        let marker = if raw[i].hit {
            Marker::Hit
        } else {
            Marker::Context
        };
        let (line, lost) = sink_line(raw[i].bytes.as_slice(), raw[i].number, marker);
        if lost {
            lossy_lines.push(line.number);
        }
        if raw[i].hit {
            hits = hits + 1;
        }
        said.push(line.text.clone());
        lines.push(line);
        i = i + 1;
    }
    let mut first_match: Vec<Option<Range<usize>>> = Vec::new();
    let offsets = if marks {
        find_matches(pattern.as_str(), args.ignore_case, &said)
    } else {
        Vec::new()
    };
    let mut i: usize = 0;
    while i < raw.len()
        invariant
            i <= raw@.len(),
            pattern@ == spans_of(*args),
            marks == (regex_error(pattern@, args.ignore_case) is None),
            lines@.len() == raw@.len() == said@.len(),
            first_match@.len() == i,
            marks ==> offsets@.len() == raw@.len(),
            marks ==> forall|k: int|
                0 <= k < said@.len() ==> (#[trigger] offsets@[k])@ == regex_matches(
                    pattern@,
                    args.ignore_case,
                    said@[k]@,
                ) && are_offsets(offsets@[k]@, encode_utf8(said@[k]@)),
            forall|k: int|
                i <= k < raw@.len() ==> {
                    let line = #[trigger] lines@[k];
                    &&& line.number == shown_number(raw@[k].number)
                    &&& line.marker == (if raw@[k].hit {
                        Marker::Hit
                    } else {
                        Marker::Context
                    })
                    &&& line.text@ == lossy(unended(raw@[k].bytes@))
                    &&& said@[k]@ == line.text@
                },
            forall|k: int|
                0 <= k < i ==> is_shown_line(
                    #[trigger] lines@[k],
                    first_match@[k],
                    raw@[k],
                    pattern@,
                    args.ignore_case,
                ),
        decreases raw@.len() - i,
    {
        assert(lines@[i as int].text@ == lossy(unended(raw@[i as int].bytes@)));
        if raw[i].hit && marks {
            if text::len(said[i].as_str()) > usize::MAX - 4 {
                assert(byte_len(lossy(unended(raw@[i as int].bytes@))) + 4 > usize::MAX);
                return None;
            }
            assert(are_offsets(offsets@[i as int]@, encode_utf8(said@[i as int]@)));
            let (wrapped, first) = wrap_matches(said[i].as_str(), &offsets[i]);
            let line = &mut lines[i];
            line.text = wrapped;
            first_match.push(first);
        } else {
            first_match.push(None);
        }
        i = i + 1;
    }
    Some(FileOutcome::Searched { lossy_lines, hits, lines, first_match })
}

/// Each line that the searcher calls a hit counts once, and no other does.
pub proof fn law_hits_are_the_lines_that_hit(raw: Seq<RawLine>, n: int)
    requires
        0 <= n <= raw.len(),
    ensures
        hits_upto(raw, n) == raw.take(n).filter(|line: RawLine| line.hit).len(),
    decreases n,
{
    reveal(Seq::filter);
    if n > 0 {
        law_hits_are_the_lines_that_hit(raw, n - 1);
        assert(raw.take(n).drop_last() =~= raw.take(n - 1));
    }
}

/// Every match that holds something is marked, in order, and an empty one is not.
pub proof fn law_an_empty_match_is_not_marked(found: Seq<(usize, usize)>)
    ensures
        filled(found) == found.filter(|one: (usize, usize)| one.0 < one.1),
    decreases found.len(),
{
    reveal(Seq::filter);
    if found.len() > 0 {
        law_an_empty_match_is_not_marked(found.drop_last());
    } else {
        assert(filled(found) =~= found.filter(|one: (usize, usize)| one.0 < one.1));
    }
}

/// Each match stands between its marks: the text of the match, right after a left mark and right
/// before a right one.
pub proof fn law_a_match_stands_between_its_marks(
    bytes: Seq<u8>,
    found: Seq<(usize, usize)>,
    k: int,
)
    requires
        are_offsets(found, bytes),
        0 <= k < found.len(),
    ensures
        ({
            let at = found[k].0 + 4 * k;
            let size = found[k].1 - found[k].0;
            let out = marked(bytes, found);
            &&& 0 <= at <= at + size + 4 <= out.len()
            &&& out.subrange(at, at + size + 4) == encode_utf8(seq!['\u{ab}']) + bytes.subrange(
                found[k].0 as int,
                found[k].1 as int,
            ) + encode_utf8(seq!['\u{bb}'])
        }),
{
    let n = k + 1;
    lemma_marks();
    lemma_marked_upto(bytes, found, k);
    lemma_marked_upto(bytes, found, n);
    lemma_marked_upto(bytes, found, found.len() as int);
    lemma_marked_prefix(bytes, found, n, found.len() as int);
    let out = marked(bytes, found);
    let one = marked_upto(bytes, found, n);
    let (start, end) = found[k];
    assert(found[k].0 <= found[k].1 <= bytes.len());
    if k > 0 {
        assert(found[k - 1].1 <= found[k].0);
    }
    let at = start + 4 * k;
    let size = end - start;
    assert(out.take(one.len() as int) =~= one);
    assert(one.len() == at + size + 4);
    let text = encode_utf8(seq!['\u{ab}']) + bytes.subrange(start as int, end as int)
        + encode_utf8(seq!['\u{bb}']);
    assert(one.subrange(at, at + size + 4) =~= text);
    assert(out.subrange(at, at + size + 4) =~= one.subrange(at, at + size + 4));
}

/// A line is shown without its line end and with all else.
pub proof fn law_a_shown_line_lacks_its_line_end_alone(bytes: Seq<u8>)
    ensures
        unended(bytes).is_prefix_of(bytes),
        forall|i: int| unended(bytes).len() <= i < bytes.len() ==> bytes[i] == 10 || bytes[i] == 13,
        unended(bytes).len() > 0 ==> unended(bytes).last() != 10 && unended(bytes).last() != 13,
    decreases bytes.len(),
{
    if bytes.len() > 0 && (bytes.last() == 10 || bytes.last() == 13) {
        law_a_shown_line_lacks_its_line_end_alone(bytes.drop_last());
        let kept = unended(bytes);
        assert(bytes.take(kept.len() as int) =~= bytes.drop_last().take(kept.len() as int));
        assert forall|i: int| kept.len() <= i < bytes.len() implies bytes[i] == 10 || bytes[i]
            == 13 by {
            if i < bytes.len() - 1 {
                assert(bytes.drop_last()[i] == bytes[i]);
            }
        }
    } else {
        assert(bytes.take(bytes.len() as int) =~= bytes);
    }
}

/// A file that was searched shows every line that the searcher handed over, under its number: a hit
/// is told from a line of context, and what a line of context says is shown as it is.
pub proof fn law_every_line_of_a_searched_file_is_shown(
    outcome: FileOutcome,
    raw: Seq<RawLine>,
    pattern: Seq<char>,
    ignore_case: bool,
    i: int,
)
    requires
        is_searched(outcome, raw, pattern, ignore_case),
        0 <= i < raw.len(),
    ensures
        outcome matches FileOutcome::Searched { lossy_lines, hits, lines, first_match } && {
            &&& lines@.len() == raw.len()
            &&& lines@[i].marker == Marker::Hit <==> raw[i].hit
            &&& lines@[i].marker == Marker::Context <==> !raw[i].hit
            &&& raw[i].number matches Some(n) ==> (n <= usize::MAX ==> lines@[i].number == n)
            &&& !raw[i].hit ==> lines@[i].text@ == lossy(unended(raw[i].bytes@))
        },
{
}

} // verus!
