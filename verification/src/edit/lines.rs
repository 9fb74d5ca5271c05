//! Where the lines of a file start and end.
use vstd::prelude::*;
use vstd::slice::slice_subrange;
use vstd::utf8::*;

use crate::edit::bytes::{lemma_line_at_mono, lemma_newlines_concat, line_at, newlines, Span};
use crate::text;
use crate::text::chomped;

verus! {

/// A line starts at byte `at`.
pub open spec fn is_start(bytes: Seq<u8>, at: int) -> bool {
    0 <= at < bytes.len() && (at == 0 || bytes[at - 1] == 10)
}

/// `starts` are the bytes at which the lines of the file start, in order.
pub open spec fn are_starts(bytes: Seq<u8>, starts: Seq<usize>) -> bool {
    &&& forall|i: int, j: int| 0 <= i < j < starts.len() ==> starts[i] < starts[j]
    &&& forall|k: int| 0 <= k < starts.len() ==> is_start(bytes, #[trigger] starts[k] as int)
    &&& forall|at: int|
        #[trigger] is_start(bytes, at) ==> exists|k: int|
            0 <= k < starts.len() && #[trigger] starts[k] == at
}

/// The bytes at which the lines of the file start.
pub fn line_starts(bytes: &[u8]) -> (starts: Vec<usize>)
    ensures
        are_starts(bytes@, starts@),
{
    let mut starts: Vec<usize> = Vec::new();
    let mut i: usize = 0;
    while i < bytes.len()
        invariant
            i <= bytes@.len(),
            forall|a: int, b: int| 0 <= a < b < starts@.len() ==> starts@[a] < starts@[b],
            forall|k: int|
                0 <= k < starts@.len() ==> is_start(bytes@, #[trigger] starts@[k] as int)
                    && starts@[k] < i,
            forall|at: int|
                #[trigger] is_start(bytes@, at) && at < i ==> exists|k: int|
                    0 <= k < starts@.len() && #[trigger] starts@[k] == at,
        decreases bytes@.len() - i,
    {
        let ghost so_far = starts@;
        if i == 0 || bytes[i - 1] == 10 {
            starts.push(i);
            assert(is_start(bytes@, i as int));
        }
        assert forall|at: int| #[trigger] is_start(bytes@, at) && at < i + 1 implies exists|k: int|
            0 <= k < starts@.len() && #[trigger] starts@[k] == at by {
            if at < i {
                let k = choose|k: int| 0 <= k < so_far.len() && #[trigger] so_far[k] == at;
                assert(starts@[k] == at);
            } else {
                assert(starts@[so_far.len() as int] == at);
            }
        }
        i = i + 1;
    }
    starts
}

/// Where line `k` (counted from `0`) ends: where the next one starts, or with the file.
pub open spec fn end_of(bytes: Seq<u8>, starts: Seq<usize>, k: int) -> int {
    if 0 <= k + 1 < starts.len() {
        starts[k + 1] as int
    } else {
        bytes.len() as int
    }
}

/// The span of the lines `first..=last`, the last one's newline with it.
pub open spec fn span_of(bytes: Seq<u8>, starts: Seq<usize>, first: int, last: int) -> (int, int) {
    (starts[first - 1] as int, end_of(bytes, starts, last - 1))
}

/// A line holds no newline but the one it ends with, and only the last line may lack that.
pub proof fn law_a_line_ends_at_its_newline(bytes: Seq<u8>, starts: Seq<usize>, k: int)
    requires
        are_starts(bytes, starts),
        0 <= k < starts.len(),
    ensures
        starts[k] < end_of(bytes, starts, k) <= bytes.len(),
        forall|i: int| starts[k] <= i < end_of(bytes, starts, k) - 1 ==> bytes[i] != 10,
        k + 1 < starts.len() ==> bytes[end_of(bytes, starts, k) - 1] == 10,
{
    let end = end_of(bytes, starts, k);
    assert(is_start(bytes, starts[k] as int));
    if k + 1 < starts.len() {
        assert(is_start(bytes, starts[k + 1] as int));
    }
    assert forall|i: int| starts[k] <= i < end - 1 implies bytes[i] != 10 by {
        if bytes[i] == 10 {
            assert(is_start(bytes, i + 1));
            let m = choose|m: int| 0 <= m < starts.len() && #[trigger] starts[m] == i + 1;
            if m <= k {
                assert(starts[m] <= starts[k]);
            } else if m > k + 1 {
                assert(starts[k + 1] < starts[m]);
            }
        }
    }
}

/// The first line starts with the file, so the lines in order are the whole file: each one starts
/// where the one before it ends.
pub proof fn law_the_lines_are_the_file(bytes: Seq<u8>, starts: Seq<usize>)
    requires
        are_starts(bytes, starts),
    ensures
        starts.len() == 0 <==> bytes.len() == 0,
        starts.len() > 0 ==> starts[0] == 0 && end_of(bytes, starts, starts.len() - 1)
            == bytes.len(),
        forall|k: int|
            0 <= k < starts.len() - 1 ==> #[trigger] end_of(bytes, starts, k) == starts[k + 1],
{
    if bytes.len() > 0 {
        assert(is_start(bytes, 0));
        let k = choose|k: int| 0 <= k < starts.len() && #[trigger] starts[k] == 0;
        if k > 0 {
            assert(starts[0] < starts[k]);
        }
    }
    if starts.len() > 0 {
        assert(is_start(bytes, starts[0] as int));
    }
}

proof fn lemma_no_newlines(bytes: Seq<u8>)
    requires
        forall|i: int| 0 <= i < bytes.len() ==> bytes[i] != 10,
    ensures
        newlines(bytes) == 0,
    decreases bytes.len(),
{
    if bytes.len() > 0 {
        assert forall|i: int| 0 <= i < bytes.drop_last().len() implies bytes.drop_last()[i]
            != 10 by {
            assert(bytes.drop_last()[i] == bytes[i]);
        }
        lemma_no_newlines(bytes.drop_last());
    }
}

/// The byte at which line `k` starts stands on line `k`, as does every byte of it.
pub proof fn law_a_start_stands_on_its_own_line(
    bytes: Seq<u8>,
    starts: Seq<usize>,
    k: int,
    at: int,
)
    requires
        are_starts(bytes, starts),
        0 <= k < starts.len(),
        starts[k] <= at < end_of(bytes, starts, k),
    ensures
        line_at(bytes, at) == k + 1,
    decreases k,
{
    law_a_line_ends_at_its_newline(bytes, starts, k);
    let start = starts[k] as int;
    assert(line_at(bytes, start) == k + 1) by {
        if k == 0 {
            law_the_lines_are_the_file(bytes, starts);
            assert(bytes.take(0) =~= Seq::<u8>::empty());
        } else {
            law_a_line_ends_at_its_newline(bytes, starts, k - 1);
            law_a_start_stands_on_its_own_line(bytes, starts, k - 1, start - 1);
            assert(bytes.take(start).drop_last() =~= bytes.take(start - 1));
        }
    }
    let part = bytes.subrange(start, at);
    assert forall|i: int| 0 <= i < part.len() implies part[i] != 10 by {
        assert(part[i] == bytes[start + i]);
    }
    lemma_no_newlines(part);
    lemma_newlines_concat(bytes.take(start), part);
    assert(bytes.take(start) + part =~= bytes.take(at));
}

/// The bytes at which the lines of the file start: there is only one such list.
pub open spec fn starts_of(bytes: Seq<u8>) -> Seq<usize> {
    choose|starts: Seq<usize>| are_starts(bytes, starts)
}

pub proof fn lemma_starts_of(bytes: Seq<u8>, starts: Seq<usize>)
    requires
        are_starts(bytes, starts),
    ensures
        starts == starts_of(bytes),
{
    let other = starts_of(bytes);
    lemma_starts_agree(bytes, starts, other);
    lemma_starts_agree(bytes, other, starts);
    assert(starts =~= other);
}

proof fn lemma_starts_agree(bytes: Seq<u8>, a: Seq<usize>, b: Seq<usize>)
    requires
        are_starts(bytes, a),
        are_starts(bytes, b),
    ensures
        a.len() <= b.len(),
        forall|k: int| 0 <= k < a.len() ==> a[k] == b[k],
{
    assert forall|k: int| 0 <= k < a.len() implies k < b.len() && a[k] == b[k] by {
        let at = a[k] as int;
        assert(is_start(bytes, at));
        let m = choose|m: int| 0 <= m < b.len() && #[trigger] b[m] == at;
        law_a_line_ends_at_its_newline(bytes, a, k);
        law_a_line_ends_at_its_newline(bytes, b, m);
        law_a_start_stands_on_its_own_line(bytes, a, k, at);
        law_a_start_stands_on_its_own_line(bytes, b, m, at);
    }
    if a.len() > 0 {
        assert(a[a.len() - 1] == b[a.len() - 1]);
    }
}

/// Includes the last line's newline, so a replacement carries its terminator rather than joining
/// two lines.
pub fn line_span(before: &[u8], starts: &[usize], first: usize, last: usize) -> (r: Span)
    requires
        are_starts(before@, starts@),
        1 <= first <= last <= starts@.len(),
    ensures
        (r.start as int, r.end as int) == span_of(before@, starts@, first as int, last as int),
        r.start < r.end <= before@.len(),
{
    proof {
        law_a_line_ends_at_its_newline(before@, starts@, last - 1);
    }
    let end = if last < starts.len() {
        starts[last]
    } else {
        before.len()
    };
    Span { start: starts[first - 1], end }
}

/// The text of `bytes`, with every maximal part that is not UTF-8 replaced by U+FFFD.
pub uninterp spec fn lossy(bytes: Seq<u8>) -> Seq<char>;

/// `String::from_utf8_lossy`: a text that is a function of the bytes, and of bytes that are UTF-8
/// it is the text they encode. Which replacement characters other bytes give is left unsaid.
#[verifier::external_body]
pub(crate) fn lossy_text(bytes: &[u8]) -> (r: String)
    ensures
        r@ == lossy(bytes@),
        valid_utf8(bytes@) ==> encode_utf8(r@) == bytes@,
{
    String::from_utf8_lossy(bytes).into_owned()
}

/// `std::str::from_utf8`: the text that `bytes` encode, where they are UTF-8.
#[verifier::external_body]
pub(crate) fn utf8_text(bytes: &[u8]) -> (r: Option<String>)
    ensures
        match r {
            Some(s) => encode_utf8(s@) == bytes@,
            None => !valid_utf8(bytes@),
        },
{
    std::str::from_utf8(bytes).ok().map(str::to_owned)
}

/// What line `line` says, without its line end.
pub open spec fn line_says(bytes: Seq<u8>, starts: Seq<usize>, line: int) -> Seq<char> {
    let (start, end) = span_of(bytes, starts, line, line);
    chomped(lossy(bytes.subrange(start, end)))
}

pub fn line_text(before: &[u8], starts: &[usize], line: usize) -> (r: String)
    requires
        are_starts(before@, starts@),
        1 <= line <= starts@.len(),
    ensures
        r@ == line_says(before@, starts@, line as int),
{
    let span = line_span(before, starts, line, line);
    let whole = lossy_text(slice_subrange(before, span.start, span.end));
    text::chomp(whole.as_str()).to_owned()
}

/// The span of the lines `first..=last` holds every byte that stands on one of them and no other.
pub proof fn law_a_span_holds_the_bytes_of_its_lines(
    bytes: Seq<u8>,
    starts: Seq<usize>,
    first: int,
    last: int,
)
    requires
        are_starts(bytes, starts),
        1 <= first <= last <= starts.len(),
    ensures
        ({
            let (start, end) = span_of(bytes, starts, first, last);
            &&& 0 <= start < end <= bytes.len()
            &&& forall|i: int|
                0 <= i < bytes.len() ==> (start <= i < end <==> first <= #[trigger] line_at(
                    bytes,
                    i,
                ) <= last)
        }),
{
    let (start, end) = span_of(bytes, starts, first, last);
    law_a_line_ends_at_its_newline(bytes, starts, first - 1);
    law_a_line_ends_at_its_newline(bytes, starts, last - 1);
    law_a_start_stands_on_its_own_line(bytes, starts, first - 1, start);
    law_a_start_stands_on_its_own_line(bytes, starts, last - 1, end - 1);
    assert(starts[first - 1] <= starts[last - 1]);
    assert forall|i: int| 0 <= i < bytes.len() implies (start <= i < end <==> first
        <= #[trigger] line_at(bytes, i) <= last) by {
        if i < start {
            assert(first > 1) by {
                law_the_lines_are_the_file(bytes, starts);
            }
            law_a_line_ends_at_its_newline(bytes, starts, first - 2);
            law_a_start_stands_on_its_own_line(bytes, starts, first - 2, start - 1);
            lemma_line_at_mono(bytes, i, start - 1);
        } else if i < end {
            lemma_line_at_mono(bytes, start, i);
            lemma_line_at_mono(bytes, i, end - 1);
        } else {
            law_a_line_ends_at_its_newline(bytes, starts, last);
            law_a_start_stands_on_its_own_line(bytes, starts, last, end);
            lemma_line_at_mono(bytes, end, i);
        }
    }
}

} // verus!
