//! Putting new bytes in place of old ones.
use vstd::prelude::*;
use vstd::slice::slice_subrange;

use crate::edit::bytes::{append, lemma_line_at_mono, line_at, line_of, Span};

verus! {

/// The spans lie in a file of `len` bytes, in order and apart.
pub open spec fn are_apart(spans: Seq<Span>, len: nat) -> bool {
    &&& forall|i: int| 0 <= i < spans.len() ==> #[trigger] spans[i].within(len)
    &&& forall|i: int, j: int|
        0 <= i < j < spans.len() ==> #[trigger] spans[i].end <= #[trigger] spans[j].start
}

/// Where the bytes between span `n - 1` and span `n` begin.
pub open spec fn kept_from(spans: Seq<Span>, n: int) -> int {
    if n <= 0 {
        0
    } else {
        spans[n - 1].end as int
    }
}

/// The file up to the end of its first `n` spans, each of them replaced.
pub open spec fn spliced_upto(
    before: Seq<u8>,
    spans: Seq<Span>,
    replacement: Seq<u8>,
    n: int,
) -> Seq<u8>
    decreases n,
{
    if n <= 0 {
        Seq::empty()
    } else {
        spliced_upto(before, spans, replacement, n - 1) + before.subrange(
            kept_from(spans, n - 1),
            spans[n - 1].start as int,
        ) + replacement
    }
}

/// The file with each span replaced.
pub open spec fn spliced(before: Seq<u8>, spans: Seq<Span>, replacement: Seq<u8>) -> Seq<u8> {
    let n = spans.len() as int;
    spliced_upto(before, spans, replacement, n) + before.subrange(
        kept_from(spans, n),
        before.len() as int,
    )
}

/// The bytes that the first `n` spans take away.
pub open spec fn removed(spans: Seq<Span>, n: int) -> int
    decreases n,
{
    if n <= 0 {
        0
    } else {
        removed(spans, n - 1) + (spans[n - 1].end - spans[n - 1].start)
    }
}

/// Where the replacement of span `n` stands in the file once every span is replaced.
pub open spec fn lands_at(spans: Seq<Span>, size: int, n: int) -> int {
    spans[n].start + n * size - removed(spans, n)
}

/// Every byte outside the spans is kept, in its order; every span becomes the replacement.
pub proof fn law_a_splice_keeps_every_other_byte(
    before: Seq<u8>,
    spans: Seq<Span>,
    replacement: Seq<u8>,
)
    requires
        are_apart(spans, before.len()),
    ensures
        ({
            let after = spliced(before, spans, replacement);
            let size = replacement.len() as int;
            let n = spans.len() as int;
            &&& after.len() == before.len() + n * size - removed(spans, n)
            &&& forall|k: int|
                0 <= k < n ==> {
                    let at = #[trigger] lands_at(spans, size, k);
                    &&& 0 <= at <= at + size <= after.len()
                    &&& after.subrange(at, at + size) == replacement
                }
            &&& forall|k: int, i: int|
                0 <= k <= n && #[trigger] between(spans, before.len(), k, i) ==> {
                    let to = i + k * size - removed(spans, k);
                    0 <= to < after.len() && after[to] == before[i]
                }
        }),
{
    let after = spliced(before, spans, replacement);
    let size = replacement.len() as int;
    let n = spans.len() as int;
    lemma_spliced_upto(before, spans, replacement, n);
    let last = kept_from(spans, n);
    assert(n == 0 || last == spans[n - 1].end);
    assert forall|k: int| 0 <= k < n implies {
        let at = #[trigger] lands_at(spans, size, k);
        &&& 0 <= at <= at + size <= after.len()
        &&& after.subrange(at, at + size) == replacement
    } by {
        let at = lands_at(spans, size, k);
        lemma_upto_prefix(before, spans, replacement, k + 1, n);
        lemma_spliced_upto(before, spans, replacement, k + 1);
        lemma_spliced_upto(before, spans, replacement, k);
        let part = spliced_upto(before, spans, replacement, k + 1);
        assert((k + 1) * size == k * size + size) by (nonlinear_arith);
        assert(part.len() == at + size);
        assert(part.subrange(at, at + size) =~= replacement);
        assert(after.subrange(at, at + size) =~= part.subrange(at, at + size));
    }
    assert forall|k: int, i: int| 0 <= k <= n && #[trigger] between(
        spans,
        before.len(),
        k,
        i,
    ) implies {
        let to = i + k * size - removed(spans, k);
        0 <= to < after.len() && after[to] == before[i]
    } by {
        let to = i + k * size - removed(spans, k);
        lemma_spliced_upto(before, spans, replacement, k);
        let head = spliced_upto(before, spans, replacement, k);
        if k < n {
            assert(spans[k].within(before.len()));
            if k > 0 {
                assert(spans[k - 1].end <= spans[k].start);
            }
            lemma_upto_prefix(before, spans, replacement, k + 1, n);
            lemma_spliced_upto(before, spans, replacement, k + 1);
            assert((k + 1) * size == k * size + size) by (nonlinear_arith);
            assert(head.len() + (i - kept_from(spans, k)) == to);
            let part = spliced_upto(before, spans, replacement, k + 1);
            let kept = before.subrange(kept_from(spans, k), spans[k].start as int);
            assert(part =~= head + kept + replacement);
            assert(part[to] == kept[i - kept_from(spans, k)]);
            assert(after[to] == part[to]);
        } else {
            let kept = before.subrange(last, before.len() as int);
            assert(after[to] == kept[i - last]);
        }
    }
}

/// Byte `i` lies after span `k - 1` and before span `k`.
pub open spec fn between(spans: Seq<Span>, len: nat, k: int, i: int) -> bool {
    kept_from(spans, k) <= i && i < (if k < spans.len() {
        spans[k].start as int
    } else {
        len as int
    })
}

proof fn lemma_spliced_upto(before: Seq<u8>, spans: Seq<Span>, replacement: Seq<u8>, n: int)
    requires
        are_apart(spans, before.len()),
        0 <= n <= spans.len(),
    ensures
        spliced_upto(before, spans, replacement, n).len() == kept_from(spans, n) + n
            * replacement.len() - removed(spans, n),
        0 <= removed(spans, n) <= kept_from(spans, n) <= before.len(),
    decreases n,
{
    let size = replacement.len() as int;
    if n > 0 {
        lemma_spliced_upto(before, spans, replacement, n - 1);
        assert(spans[n - 1].within(before.len()));
        if n > 1 {
            assert(spans[n - 2].end <= spans[n - 1].start);
        }
        assert(n * size == (n - 1) * size + size) by (nonlinear_arith);
    } else {
        assert(n * size == 0) by (nonlinear_arith)
            requires
                n == 0,
        ;
    }
}

proof fn lemma_upto_prefix(
    before: Seq<u8>,
    spans: Seq<Span>,
    replacement: Seq<u8>,
    k: int,
    n: int,
)
    requires
        0 <= k <= n <= spans.len(),
    ensures
        spliced_upto(before, spans, replacement, k).is_prefix_of(
            spliced_upto(before, spans, replacement, n),
        ),
    decreases n,
{
    if k < n {
        lemma_upto_prefix(before, spans, replacement, k, n - 1);
        let a = spliced_upto(before, spans, replacement, k);
        let b = spliced_upto(before, spans, replacement, n - 1);
        let c = spliced_upto(before, spans, replacement, n);
        assert(c.take(a.len() as int) =~= b.take(a.len() as int));
    }
}

/// `spans` are disjoint and ascending. One pass: splicing one span at a time would copy the whole
/// file once per span.
pub fn splice_all(before: &[u8], spans: &[Span], replacement: &[u8]) -> (after: Vec<u8>)
    requires
        are_apart(spans@, before@.len()),
    ensures
        after@ == spliced(before@, spans@, replacement@),
{
    let mut after: Vec<u8> = Vec::new();
    let mut from: usize = 0;
    let mut i: usize = 0;
    while i < spans.len()
        invariant
            i <= spans@.len(),
            are_apart(spans@, before@.len()),
            from == kept_from(spans@, i as int),
            from <= before@.len(),
            after@ == spliced_upto(before@, spans@, replacement@, i as int),
        decreases spans@.len() - i,
    {
        assert(spans@[i as int].within(before@.len()));
        if i > 0 {
            assert(spans@[i - 1].end <= spans@[i as int].start);
        }
        append(&mut after, slice_subrange(before, from, spans[i].start));
        append(&mut after, replacement);
        from = spans[i].end;
        i = i + 1;
    }
    append(&mut after, slice_subrange(before, from, before.len()));
    after
}

/// The file with the one span replaced.
pub open spec fn splice_of(before: Seq<u8>, span: Span, replacement: Seq<u8>) -> Seq<u8> {
    before.take(span.start as int) + replacement + before.skip(span.end as int)
}

pub fn splice(before: &[u8], span: Span, replacement: &[u8]) -> (after: Vec<u8>)
    requires
        span.within(before@.len()),
    ensures
        after@ == splice_of(before@, span, replacement@),
{
    let mut after: Vec<u8> = Vec::new();
    append(&mut after, slice_subrange(before, 0, span.start));
    append(&mut after, replacement);
    append(&mut after, slice_subrange(before, span.end, before.len()));
    assert(after@ =~= splice_of(before@, span, replacement@));
    after
}

/// Splicing one span is splicing a list of one.
pub proof fn law_one_span_is_a_list_of_one(before: Seq<u8>, span: Span, replacement: Seq<u8>)
    requires
        span.within(before.len()),
    ensures
        spliced(before, seq![span], replacement) == splice_of(before, span, replacement),
{
    let spans = seq![span];
    reveal_with_fuel(spliced_upto, 2);
    assert(spliced(before, spans, replacement) =~= splice_of(before, span, replacement));
}

/// The first and the last line of the `len` bytes at `start`.
pub open spec fn lines_covered(after: Seq<u8>, start: int, len: int) -> (nat, nat) {
    if len == 0 {
        (line_at(after, start), line_at(after, start))
    } else {
        (line_at(after, start), line_at(after, start + len - 1))
    }
}

pub fn span_lines(after: &[u8], start: usize, len: usize) -> (r: (usize, usize))
    requires
        start + len <= after@.len() < usize::MAX,
    ensures
        (r.0 as nat, r.1 as nat) == lines_covered(after@, start as int, len as int),
        1 <= r.0 <= r.1 <= after@.len() + 1,
{
    let first = line_of(after, start);
    proof {
        lemma_line_at_mono(after@, start as int, after@.len() as int);
    }
    if len == 0 {
        return (first, first);
    }
    proof {
        lemma_line_at_mono(after@, start as int, start + len - 1);
    }
    (first, line_of(after, start + len - 1))
}

} // verus!
