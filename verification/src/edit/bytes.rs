//! The bytes of a file as an edit sees them: lines, line endings and the splicing of spans.
use vstd::prelude::*;

verus! {

/// The bytes `start..end` of a file.
#[derive(Debug, Clone, Copy, PartialEq, Eq, Structural)]
pub struct Span {
    pub start: usize,
    pub end: usize,
}

impl Span {
    /// The span lies in a file of `len` bytes.
    pub open spec fn within(self, len: nat) -> bool {
        self.start <= self.end <= len
    }
}

/// How many newlines `bytes` holds.
pub open spec fn newlines(bytes: Seq<u8>) -> nat
    decreases bytes.len(),
{
    if bytes.len() == 0 {
        0
    } else {
        newlines(bytes.drop_last()) + (if bytes.last() == 10 {
            1nat
        } else {
            0nat
        })
    }
}

/// How many newlines of `bytes` follow a carriage return.
pub open spec fn crlfs(bytes: Seq<u8>) -> nat
    decreases bytes.len(),
{
    if bytes.len() == 0 {
        0
    } else {
        crlfs(bytes.drop_last()) + (if crlf_at(bytes, bytes.len() - 1) {
            1nat
        } else {
            0nat
        })
    }
}

/// A newline that follows a carriage return.
pub open spec fn crlf_at(bytes: Seq<u8>, i: int) -> bool {
    bytes[i] == 10 && i > 0 && bytes[i - 1] == 13
}

/// A newline that does not.
pub open spec fn bare_lf_at(bytes: Seq<u8>, i: int) -> bool {
    bytes[i] == 10 && !(i > 0 && bytes[i - 1] == 13)
}

pub open spec fn has_crlf(bytes: Seq<u8>) -> bool {
    exists|i: int| 0 <= i < bytes.len() && #[trigger] crlf_at(bytes, i)
}

pub open spec fn holds_bare_lf(bytes: Seq<u8>) -> bool {
    exists|i: int| 0 <= i < bytes.len() && #[trigger] bare_lf_at(bytes, i)
}

/// The number of the line that byte `at` stands on, the first being `1`.
pub open spec fn line_at(bytes: Seq<u8>, at: int) -> nat {
    1 + newlines(bytes.take(at))
}

pub proof fn lemma_newlines_bound(bytes: Seq<u8>)
    ensures
        newlines(bytes) <= bytes.len(),
    decreases bytes.len(),
{
    if bytes.len() > 0 {
        lemma_newlines_bound(bytes.drop_last());
    }
}

/// Newlines add up over two parts.
pub proof fn lemma_newlines_concat(a: Seq<u8>, b: Seq<u8>)
    ensures
        newlines(a + b) == newlines(a) + newlines(b),
    decreases b.len(),
{
    if b.len() == 0 {
        assert(a + b =~= a);
    } else {
        assert((a + b).drop_last() =~= a + b.drop_last());
        lemma_newlines_concat(a, b.drop_last());
    }
}

pub proof fn lemma_line_at_mono(bytes: Seq<u8>, i: int, j: int)
    requires
        0 <= i <= j <= bytes.len(),
    ensures
        line_at(bytes, i) <= line_at(bytes, j) <= bytes.len() + 1,
{
    lemma_newlines_concat(bytes.take(i), bytes.subrange(i, j));
    assert(bytes.take(i) + bytes.subrange(i, j) =~= bytes.take(j));
    lemma_newlines_bound(bytes.take(j));
}

/// The number of the line that byte `at` stands on.
pub fn line_of(bytes: &[u8], at: usize) -> (r: usize)
    requires
        at <= bytes@.len() < usize::MAX,
    ensures
        r == line_at(bytes@, at as int),
{
    let mut n: usize = 1;
    let mut i: usize = 0;
    while i < at
        invariant
            i <= at <= bytes@.len() < usize::MAX,
            n <= i + 1,
            n == line_at(bytes@, i as int),
        decreases at - i,
    {
        assert(bytes@.take(i + 1).drop_last() =~= bytes@.take(i as int));
        if bytes[i] == 10 {
            n = n + 1;
        }
        i = i + 1;
    }
    n
}

/// How a file ends its lines.
#[derive(Debug, Clone, Copy, PartialEq, Eq, Structural)]
pub enum Endings {
    Absent,
    Lf,
    Crlf,
    Mixed,
}

/// What the newlines of `bytes` have in common.
pub open spec fn endings_of(bytes: Seq<u8>) -> Endings {
    if has_crlf(bytes) {
        if holds_bare_lf(bytes) {
            Endings::Mixed
        } else {
            Endings::Crlf
        }
    } else if holds_bare_lf(bytes) {
        Endings::Lf
    } else {
        Endings::Absent
    }
}

impl Endings {
    pub fn of(bytes: &[u8]) -> (r: Endings)
        ensures
            r == endings_of(bytes@),
    {
        let mut crlf = false;
        let mut lf = false;
        let mut i: usize = 0;
        while i < bytes.len()
            invariant
                i <= bytes@.len(),
                crlf == exists|j: int| 0 <= j < i && #[trigger] crlf_at(bytes@, j),
                lf == exists|j: int| 0 <= j < i && #[trigger] bare_lf_at(bytes@, j),
            decreases bytes@.len() - i,
        {
            if bytes[i] == 10 {
                if i > 0 && bytes[i - 1] == 13 {
                    assert(crlf_at(bytes@, i as int));
                    crlf = true;
                } else {
                    assert(bare_lf_at(bytes@, i as int));
                    lf = true;
                }
            }
            i = i + 1;
        }
        match (crlf, lf) {
            (false, false) => Endings::Absent,
            (false, true) => Endings::Lf,
            (true, false) => Endings::Crlf,
            (true, true) => Endings::Mixed,
        }
    }
}

pub fn has_bare_lf(bytes: &[u8]) -> (r: bool)
    ensures
        r == holds_bare_lf(bytes@),
{
    let mut i: usize = 0;
    while i < bytes.len()
        invariant
            i <= bytes@.len(),
            forall|j: int| 0 <= j < i ==> !#[trigger] bare_lf_at(bytes@, j),
        decreases bytes@.len() - i,
    {
        if bytes[i] == 10 && (i == 0 || bytes[i - 1] != 13) {
            assert(bare_lf_at(bytes@, i as int));
            return true;
        }
        i = i + 1;
    }
    false
}

/// `old` with a carriage return put before each bare newline.
pub open spec fn crlf_of(old: Seq<u8>) -> Seq<u8>
    decreases old.len(),
{
    if old.len() == 0 {
        Seq::empty()
    } else {
        let head = crlf_of(old.drop_last());
        if bare_lf_at(old, old.len() - 1) {
            head.push(13).push(10)
        } else {
            head.push(old.last())
        }
    }
}

pub fn crlf_needle(old: &[u8]) -> (r: Vec<u8>)
    ensures
        r@ == crlf_of(old@),
{
    let mut out: Vec<u8> = Vec::new();
    let mut i: usize = 0;
    while i < old.len()
        invariant
            i <= old@.len(),
            out@ == crlf_of(old@.take(i as int)),
        decreases old@.len() - i,
    {
        assert(old@.take(i + 1).drop_last() =~= old@.take(i as int));
        if old[i] == 10 && (i == 0 || old[i - 1] != 13) {
            out.push(13);
        }
        out.push(old[i]);
        i = i + 1;
    }
    assert(old@.take(i as int) =~= old@);
    out
}

/// A needle put in CRLF form holds no bare newline, and one that held none is unchanged.
pub proof fn law_a_crlf_needle_has_no_bare_lf(old: Seq<u8>)
    ensures
        !holds_bare_lf(crlf_of(old)),
        !holds_bare_lf(old) ==> crlf_of(old) == old,
    decreases old.len(),
{
    if old.len() > 0 {
        let head = old.drop_last();
        law_a_crlf_needle_has_no_bare_lf(head);
        let out = crlf_of(old);
        let done = crlf_of(head);
        lemma_crlf_of_last(head);
        assert forall|i: int| 0 <= i < out.len() implies !#[trigger] bare_lf_at(out, i) by {
            if i < done.len() {
                assert(!bare_lf_at(done, i));
            }
        }
        if !holds_bare_lf(old) {
            assert forall|i: int| 0 <= i < head.len() implies !#[trigger] bare_lf_at(head, i) by {
                assert(!bare_lf_at(old, i));
            }
            assert(!bare_lf_at(old, old.len() - 1));
            assert(head.push(old.last()) =~= old);
        }
    } else {
        assert(crlf_of(old) =~= old);
    }
}

/// Putting a needle in CRLF form a second time changes nothing.
pub proof fn law_crlf_needle_is_idempotent(old: Seq<u8>)
    ensures
        crlf_of(crlf_of(old)) == crlf_of(old),
{
    law_a_crlf_needle_has_no_bare_lf(old);
    law_a_crlf_needle_has_no_bare_lf(crlf_of(old));
}

proof fn lemma_crlf_of_last(old: Seq<u8>)
    ensures
        (crlf_of(old).len() == 0) == (old.len() == 0),
        old.len() > 0 ==> crlf_of(old).last() == old.last(),
{
}

/// The line end most newlines of the file have; a tie, or none, is `\n`.
pub open spec fn ending_of(bytes: Seq<u8>) -> Seq<u8> {
    if crlfs(bytes) * 2 > newlines(bytes) {
        seq![13u8, 10u8]
    } else {
        seq![10u8]
    }
}

pub fn dominant_ending(bytes: &[u8]) -> (r: Vec<u8>)
    ensures
        r@ == ending_of(bytes@),
{
    let mut count: usize = 0;
    let mut crlf: usize = 0;
    let mut i: usize = 0;
    while i < bytes.len()
        invariant
            i <= bytes@.len(),
            count == newlines(bytes@.take(i as int)),
            crlf == crlfs(bytes@.take(i as int)),
            count <= i,
            2 * crlf <= i,
            i > 0 && bytes@[i - 1] != 10 ==> 2 * crlf <= i - 1,
        decreases bytes@.len() - i,
    {
        let ghost so_far = bytes@.take(i + 1);
        assert(so_far.drop_last() =~= bytes@.take(i as int));
        if bytes[i] == 10 {
            count = count + 1;
            if i > 0 && bytes[i - 1] == 13 {
                assert(crlf_at(so_far, i as int));
                crlf = crlf + 1;
            }
        }
        i = i + 1;
    }
    assert(bytes@.take(i as int) =~= bytes@);
    let mut out: Vec<u8> = Vec::new();
    if crlf * 2 > count {
        out.push(13);
    }
    out.push(10);
    assert(out@ =~= ending_of(bytes@));
    out
}

/// `new[i..]` with each line end, however it is written, turned into `ending`: a carriage return
/// right before a newline or the end of the text is no content of its line.
pub open spec fn joined_from(new: Seq<u8>, i: int, ending: Seq<u8>) -> Seq<u8>
    decreases new.len() - i,
{
    if i < 0 || i >= new.len() {
        Seq::empty()
    } else if new[i] == 10 {
        ending + joined_from(new, i + 1, ending)
    } else if new[i] == 13 && (i + 1 == new.len() || new[i + 1] == 10) {
        joined_from(new, i + 1, ending)
    } else {
        seq![new[i]] + joined_from(new, i + 1, ending)
    }
}

/// The text an edit puts in: `new` as it is, or with the file's own line ends.
pub open spec fn replacement_of(new: Seq<u8>, before: Seq<u8>, literal: bool) -> Seq<u8> {
    if literal {
        new
    } else {
        joined_from(new, 0, ending_of(before))
    }
}

pub fn append(out: &mut Vec<u8>, part: &[u8])
    ensures
        final(out)@ == old(out)@ + part@,
{
    let ghost before = out@;
    let mut i: usize = 0;
    while i < part.len()
        invariant
            i <= part@.len(),
            out@ == before + part@.take(i as int),
        decreases part@.len() - i,
    {
        out.push(part[i]);
        i = i + 1;
        assert(part@.take(i as int) =~= part@.take(i - 1).push(part@[i - 1]));
    }
    assert(part@.take(i as int) =~= part@);
}

/// Unless `literal`, lines take the file's dominant ending, so a CRLF file gains no lone `\n`.
pub fn joined(new: &[u8], before: &[u8], literal: bool) -> (r: Vec<u8>)
    ensures
        r@ == replacement_of(new@, before@, literal),
{
    let mut out: Vec<u8> = Vec::new();
    if literal {
        append(&mut out, new);
        assert(out@ =~= new@);
        return out;
    }
    let ending = dominant_ending(before);
    let mut i: usize = 0;
    assert(out@ + joined_from(new@, 0, ending@) =~= joined_from(new@, 0, ending@));
    while i < new.len()
        invariant
            i <= new@.len(),
            out@ + joined_from(new@, i as int, ending@) == joined_from(new@, 0, ending@),
        decreases new@.len() - i,
    {
        let ghost so_far = out@;
        if new[i] == 10 {
            append(&mut out, ending.as_slice());
        } else if new[i] == 13 && (i + 1 == new.len() || new[i + 1] == 10) {
        } else {
            out.push(new[i]);
        }
        assert(out@ + joined_from(new@, i + 1, ending@) =~= so_far + joined_from(
            new@,
            i as int,
            ending@,
        ));
        i = i + 1;
    }
    assert(out@ + joined_from(new@, i as int, ending@) =~= out@);
    out
}

/// What an edit puts into a file of CRLF lines holds no lone `\n`.
pub proof fn law_a_crlf_file_gains_no_bare_lf(new: Seq<u8>, before: Seq<u8>)
    requires
        ending_of(before) == seq![13u8, 10u8],
    ensures
        !holds_bare_lf(replacement_of(new, before, false)),
{
    lemma_joined_crlf(new, 0);
}

proof fn lemma_joined_crlf(new: Seq<u8>, i: int)
    ensures
        ({
            let out = joined_from(new, i, seq![13u8, 10u8]);
            !holds_bare_lf(out) && (out.len() > 0 ==> out[0] != 10)
        }),
    decreases new.len() - i,
{
    let out = joined_from(new, i, seq![13u8, 10u8]);
    if 0 <= i < new.len() {
        lemma_joined_crlf(new, i + 1);
        let rest = joined_from(new, i + 1, seq![13u8, 10u8]);
        let head = out.len() - rest.len();
        assert forall|k: int| 0 <= k < out.len() implies !#[trigger] bare_lf_at(out, k) by {
            if k >= head {
                assert(out[k] == rest[k - head]);
                assert(!bare_lf_at(rest, k - head));
                if k > head {
                    assert(out[k - 1] == rest[k - head - 1]);
                }
            }
        }
    }
}

/// A text in the file's own line ends is put in as it is.
pub proof fn law_a_text_in_the_files_endings_is_kept(new: Seq<u8>, before: Seq<u8>)
    requires
        ending_of(before) == seq![10u8],
        forall|i: int| 0 <= i < new.len() ==> new[i] != 13,
    ensures
        replacement_of(new, before, false) == new,
{
    lemma_joined_lf(new, 0);
    assert(new.subrange(0, new.len() as int) =~= new);
}

proof fn lemma_joined_lf(new: Seq<u8>, i: int)
    requires
        0 <= i <= new.len(),
        forall|i: int| 0 <= i < new.len() ==> new[i] != 13,
    ensures
        joined_from(new, i, seq![10u8]) == new.subrange(i, new.len() as int),
    decreases new.len() - i,
{
    if i < new.len() {
        lemma_joined_lf(new, i + 1);
        assert(new.subrange(i, new.len() as int) =~= seq![new[i]] + new.subrange(
            i + 1,
            new.len() as int,
        ));
    }
}

proof fn lemma_counts_of_one_kind(bytes: Seq<u8>)
    ensures
        !holds_bare_lf(bytes) ==> crlfs(bytes) == newlines(bytes),
        !has_crlf(bytes) ==> crlfs(bytes) == 0,
        has_crlf(bytes) ==> newlines(bytes) > 0,
    decreases bytes.len(),
{
    if bytes.len() > 0 {
        let head = bytes.drop_last();
        let end = bytes.len() - 1;
        lemma_counts_of_one_kind(head);
        if !holds_bare_lf(bytes) {
            assert(!bare_lf_at(bytes, end));
            assert forall|i: int| 0 <= i < head.len() implies !#[trigger] bare_lf_at(head, i) by {
                assert(!bare_lf_at(bytes, i));
            }
        }
        if !has_crlf(bytes) {
            assert(!crlf_at(bytes, end));
            assert forall|i: int| 0 <= i < head.len() implies !#[trigger] crlf_at(head, i) by {
                assert(!crlf_at(bytes, i));
            }
        } else {
            let i = choose|i: int| 0 <= i < bytes.len() && #[trigger] crlf_at(bytes, i);
            if i < end {
                assert(crlf_at(head, i));
            }
        }
    }
}

/// In a file whose lines all end one way, that is how the lines of an edit end.
pub proof fn law_a_file_with_one_line_end_keeps_it(before: Seq<u8>)
    ensures
        has_crlf(before) && !holds_bare_lf(before) ==> ending_of(before) == seq![13u8, 10u8],
        !has_crlf(before) ==> ending_of(before) == seq![10u8],
{
    lemma_counts_of_one_kind(before);
}

proof fn lemma_joined_shift(a: Seq<u8>, b: Seq<u8>, j: int, ending: Seq<u8>)
    requires
        0 <= j <= b.len(),
    ensures
        joined_from(a + b, a.len() + j, ending) == joined_from(b, j, ending),
    decreases b.len() - j,
{
    if j < b.len() {
        lemma_joined_shift(a, b, j + 1, ending);
        assert((a + b)[a.len() + j] == b[j]);
        if j + 1 < b.len() {
            assert((a + b)[a.len() + j + 1] == b[j + 1]);
        }
    }
}

proof fn lemma_joined_head(a: Seq<u8>, b: Seq<u8>, i: int, ending: Seq<u8>)
    requires
        0 <= i <= a.len(),
        a.len() == 0 || a.last() != 13,
    ensures
        joined_from(a + b, i, ending) == joined_from(a, i, ending) + joined_from(b, 0, ending),
    decreases a.len() - i,
{
    if i == a.len() {
        lemma_joined_shift(a, b, 0, ending);
        assert(joined_from(a, i, ending) + joined_from(b, 0, ending) =~= joined_from(
            b,
            0,
            ending,
        ));
    } else {
        lemma_joined_head(a, b, i + 1, ending);
        assert((a + b)[i] == a[i]);
        if i + 1 < a.len() {
            assert((a + b)[i + 1] == a[i + 1]);
        }
        assert(joined_from(a + b, i, ending) =~= joined_from(a, i, ending) + joined_from(
            b,
            0,
            ending,
        ));
    }
}

/// A text that is asked for literally is put in as it is. Of every other text the content of each
/// line is put in as it is, and each line end, written as `\n` or as `\r\n`, as the file's own.
pub proof fn law_only_line_ends_are_changed(line: Seq<u8>, rest: Seq<u8>, before: Seq<u8>)
    requires
        forall|i: int| 0 <= i < line.len() ==> line[i] != 10 && line[i] != 13,
    ensures
        replacement_of(line + rest, before, true) == line + rest,
        replacement_of(line, before, false) == line,
        replacement_of(line + seq![10u8] + rest, before, false) == line + ending_of(before)
            + replacement_of(rest, before, false),
        replacement_of(line + seq![13u8, 10u8] + rest, before, false) == line + ending_of(before)
            + replacement_of(rest, before, false),
{
    let end = ending_of(before);
    lemma_joined_bare(line, 0, end);
    assert(line.subrange(0, line.len() as int) =~= line);
    let lf = seq![10u8] + rest;
    let crlf = seq![13u8, 10u8] + rest;
    assert(line + seq![10u8] + rest =~= line + lf);
    assert(line + seq![13u8, 10u8] + rest =~= line + crlf);
    lemma_joined_head(line, lf, 0, end);
    lemma_joined_head(line, crlf, 0, end);
    lemma_joined_shift(seq![10u8], rest, 0, end);
    lemma_joined_shift(seq![13u8, 10u8], rest, 0, end);
    reveal_with_fuel(joined_from, 3);
    assert(joined_from(lf, 0, end) =~= end + joined_from(rest, 0, end));
    assert(joined_from(crlf, 0, end) =~= end + joined_from(rest, 0, end));
    assert(line + (end + joined_from(rest, 0, end)) =~= line + end + joined_from(rest, 0, end));
}

proof fn lemma_joined_bare(line: Seq<u8>, i: int, ending: Seq<u8>)
    requires
        0 <= i <= line.len(),
        forall|i: int| 0 <= i < line.len() ==> line[i] != 10 && line[i] != 13,
    ensures
        joined_from(line, i, ending) == line.subrange(i, line.len() as int),
    decreases line.len() - i,
{
    if i < line.len() {
        lemma_joined_bare(line, i + 1, ending);
        assert(line.subrange(i, line.len() as int) =~= seq![line[i]] + line.subrange(
            i + 1,
            line.len() as int,
        ));
    }
}

proof fn lemma_crlf_of_concat(a: Seq<u8>, b: Seq<u8>)
    requires
        a.len() == 0 || b.len() == 0 || !(a.last() == 13 && b[0] == 10),
    ensures
        crlf_of(a + b) == crlf_of(a) + crlf_of(b),
    decreases b.len(),
{
    if b.len() == 0 {
        assert(a + b =~= a);
        assert(crlf_of(a) + crlf_of(b) =~= crlf_of(a));
    } else {
        let all = a + b;
        let less = b.drop_last();
        assert(all.drop_last() =~= a + less);
        if less.len() > 0 {
            assert(less[0] == b[0]);
        }
        lemma_crlf_of_concat(a, less);
        if b.len() == 1 {
            if a.len() > 0 {
                assert(all[all.len() - 2] == a.last());
            }
        } else {
            assert(all[all.len() - 2] == b[b.len() - 2]);
        }
        assert(bare_lf_at(all, all.len() - 1) == bare_lf_at(b, b.len() - 1));
        assert(crlf_of(all) =~= crlf_of(a) + crlf_of(b));
    }
}

/// A needle put in CRLF form has the lines it had: what stands on a line is kept, and each newline is
/// one `\r\n`.
pub proof fn law_a_crlf_needle_has_the_lines_it_had(line: Seq<u8>, rest: Seq<u8>)
    requires
        forall|i: int| 0 <= i < line.len() ==> line[i] != 10 && line[i] != 13,
    ensures
        crlf_of(line) == line,
        crlf_of(line + seq![10u8] + rest) == line + seq![13u8, 10u8] + crlf_of(rest),
        crlf_of(line + seq![13u8, 10u8] + rest) == line + seq![13u8, 10u8] + crlf_of(rest),
{
    assert forall|i: int| 0 <= i < line.len() implies !#[trigger] bare_lf_at(line, i) by {
        assert(line[i] != 10);
    }
    law_a_crlf_needle_has_no_bare_lf(line);
    let lf = seq![10u8];
    let crlf = seq![13u8, 10u8];
    reveal_with_fuel(crlf_of, 3);
    assert(lf.drop_last() =~= Seq::empty());
    assert(bare_lf_at(lf, 0));
    assert(crlf_of(lf) =~= crlf);
    assert(crlf.drop_last() =~= seq![13u8]);
    assert(crlf.drop_last().drop_last() =~= Seq::empty());
    assert(!bare_lf_at(crlf, 1) && !bare_lf_at(seq![13u8], 0));
    assert(crlf_of(crlf) =~= crlf);
    lemma_crlf_of_concat(line, lf);
    lemma_crlf_of_concat(line + lf, rest);
    lemma_crlf_of_concat(line, crlf);
    lemma_crlf_of_concat(line + crlf, rest);
}

/// A replacement takes the line end that most lines of the file have, and a bare newline where
/// neither has more.
pub proof fn law_the_line_end_is_that_of_most_lines(bytes: Seq<u8>)
    ensures
        ({
            let places = Seq::new(bytes.len(), |i: int| i);
            let ends = places.filter(|i: int| bytes[i] == 10).len();
            let crlf = places.filter(|i: int| bytes[i] == 10 && i > 0 && bytes[i - 1] == 13).len();
            ending_of(bytes) == (if crlf > ends - crlf {
                seq![13u8, 10u8]
            } else {
                seq![10u8]
            })
        }),
{
    lemma_line_ends_are(bytes, bytes.len() as int);
    assert(bytes.take(bytes.len() as int) =~= bytes);
}

proof fn lemma_line_ends_are(bytes: Seq<u8>, n: int)
    requires
        0 <= n <= bytes.len(),
    ensures
        newlines(bytes.take(n)) == Seq::new(n as nat, |i: int| i).filter(
            |i: int| bytes[i] == 10,
        ).len(),
        crlfs(bytes.take(n)) == Seq::new(n as nat, |i: int| i).filter(
            |i: int| bytes[i] == 10 && i > 0 && bytes[i - 1] == 13,
        ).len(),
    decreases n,
{
    reveal(Seq::filter);
    let places = Seq::new(n as nat, |i: int| i);
    if n > 0 {
        lemma_line_ends_are(bytes, n - 1);
        assert(places.drop_last() =~= Seq::new((n - 1) as nat, |i: int| i));
        assert(places.last() == n - 1);
        assert(bytes.take(n).drop_last() =~= bytes.take(n - 1));
        assert(bytes.take(n).last() == bytes[n - 1]);
    } else {
        assert(places =~= Seq::empty());
    }
}

} // verus!
