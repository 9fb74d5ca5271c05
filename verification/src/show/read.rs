//! The text of a file that is shown: decoded, if need be with what does not decode replaced.
use vstd::prelude::*;
use vstd::slice::slice_subrange;
use vstd::utf8::*;

use crate::edit::lines::{
    are_starts, end_of, law_a_line_ends_at_its_newline, law_the_lines_are_the_file, lossy, lossy_text,
    utf8_text,
};
use crate::error::{Error, UnsupportedReason};
use crate::find::walk::is_utf16;

verus! {

/// A file's text, and which of its lines did not decode.
#[derive(Debug)]
pub struct Text {
    pub content: String,
    pub lossy_lines: Vec<usize>,
}

/// The end of the line that begins at `start`: the next newline, or the end of the file.
pub open spec fn newline_from(raw: Seq<u8>, start: int) -> int
    decreases raw.len() - start,
{
    if start < 0 || start >= raw.len() || raw[start] == 10 {
        start
    } else {
        newline_from(raw, start + 1)
    }
}

/// The numbers of the lines that do not decode, from the line that begins at `start` on.
pub open spec fn undecoded(raw: Seq<u8>, start: int, number: usize) -> Seq<usize>
    decreases raw.len() - start,
{
    let end = newline_from(raw, start);
    let first = if 0 <= start <= end <= raw.len() && !valid_utf8(raw.subrange(start, end)) {
        seq![number]
    } else {
        Seq::empty()
    };
    if 0 <= start <= end < raw.len() {
        first + undecoded(raw, end + 1, (number + 1) as usize)
    } else {
        first
    }
}

proof fn lemma_newline_from(raw: Seq<u8>, start: int, end: int)
    requires
        0 <= start <= end <= raw.len(),
        forall|i: int| start <= i < end ==> raw[i] != 10,
        end == raw.len() || raw[end] == 10,
    ensures
        newline_from(raw, start) == end,
    decreases end - start,
{
    if start < end {
        lemma_newline_from(raw, start + 1, end);
    }
}

fn undecoded_lines(raw: &Vec<u8>) -> (r: Vec<usize>)
    requires
        raw@.len() < usize::MAX,
    ensures
        r@ == undecoded(raw@, 0, 1),
{
    let mut out: Vec<usize> = Vec::new();
    let n = raw.len();
    let mut start: usize = 0;
    let mut number: usize = 1;
    assert(out@ + undecoded(raw@, 0, 1) =~= undecoded(raw@, 0, 1));
    loop
        invariant
            start <= n == raw@.len(),
            n < usize::MAX,
            number <= start + 1,
            out@ + undecoded(raw@, start as int, number) == undecoded(raw@, 0, 1),
        decreases n - start,
    {
        let mut end: usize = start;
        while end < n && raw[end] != 10
            invariant
                start <= end <= n == raw@.len(),
                forall|i: int| start <= i < end ==> raw@[i] != 10,
            decreases n - end,
        {
            end = end + 1;
        }
        proof {
            lemma_newline_from(raw@, start as int, end as int);
        }
        let ghost had = out@;
        let line = slice_subrange(raw.as_slice(), start, end);
        match utf8_text(line) {
            Some(text) => {
                proof {
                    encode_utf8_valid_utf8(text@);
                }
            },
            None => out.push(number),
        }
        proof {
            let first = if !valid_utf8(raw@.subrange(start as int, end as int)) {
                seq![number]
            } else {
                Seq::empty()
            };
            assert(out@ =~= had + first);
            if end < n {
                let rest = undecoded(raw@, end + 1, (number + 1) as usize);
                assert(out@ + rest =~= had + (first + rest));
            }
        }
        if end >= n {
            return out;
        }
        start = end + 1;
        number = number + 1;
    }
}

/// A file that is not text at all: a zero byte, or the mark of UTF-16.
pub open spec fn is_binary(raw: Seq<u8>) -> bool {
    raw.contains(0) || is_utf16(raw)
}

fn binary(raw: &Vec<u8>) -> (r: bool)
    ensures
        r == is_binary(raw@),
{
    let mut i: usize = 0;
    while i < raw.len()
        invariant
            i <= raw@.len(),
            forall|k: int| 0 <= k < i ==> raw@[k] != 0,
        decreases raw@.len() - i,
    {
        if raw[i] == 0 {
            assert(raw@[i as int] == 0);
            return true;
        }
        i = i + 1;
    }
    raw.len() >= 2 && ((raw[0] == 0xfe && raw[1] == 0xff) || (raw[0] == 0xff && raw[1] == 0xfe))
}

/// Why a file cannot be shown.
pub open spec fn is_unsupported(error: Error, path: Seq<char>, reason: UnsupportedReason) -> bool {
    error matches Error::Unsupported { path: p, reason: why } && p@ == path && why == reason
}

/// Decodes what is not UTF-8 too, so that a Latin-1 file that can be edited can be read; only a
/// zero byte or the mark of UTF-16 makes a file binary.
pub fn read_lossy(path: &str, raw: Vec<u8>, max_file_bytes: u64) -> (r: Result<Text, Error>)
    requires
        raw@.len() < usize::MAX,
    ensures
        match r {
            Ok(text) => {
                &&& raw@.len() <= max_file_bytes
                &&& !is_binary(raw@)
                &&& text.content@ == lossy(raw@)
                &&& text.lossy_lines@ == undecoded(raw@, 0, 1)
            },
            Err(error) => if raw@.len() > max_file_bytes {
                is_unsupported(
                    error,
                    path@,
                    UnsupportedReason::TooLarge { bytes: raw@.len() as u64, limit: max_file_bytes },
                )
            } else {
                is_binary(raw@) && is_unsupported(error, path@, UnsupportedReason::Binary)
            },
        },
{
    let bytes = raw.len() as u64;
    if bytes > max_file_bytes {
        return Err(
            Error::Unsupported {
                path: path.to_owned(),
                reason: UnsupportedReason::TooLarge { bytes, limit: max_file_bytes },
            },
        );
    }
    if binary(&raw) {
        return Err(
            Error::Unsupported { path: path.to_owned(), reason: UnsupportedReason::Binary },
        );
    }
    let lossy_lines = undecoded_lines(&raw);
    Ok(Text { content: lossy_text(raw.as_slice()), lossy_lines })
}

/// The text of a file: as it was read where that worked, and decoded anew from its bytes where it
/// only was not UTF-8. `again` is that second read.
pub fn read_text(
    path: &str,
    read: Result<String, Error>,
    again: Result<Vec<u8>, Error>,
    max_file_bytes: u64,
) -> (r: Result<Text, Error>)
    requires
        again matches Ok(raw) ==> raw@.len() < usize::MAX,
    ensures
        match read {
            Ok(content) => r matches Ok(text) && text.content == content && text.lossy_lines@.len()
                == 0,
            Err(error) => if error matches Error::Unsupported {
                reason: UnsupportedReason::NonUtf8Region,
                ..
            } {
                match again {
                    Ok(raw) => match r {
                        Ok(text) => raw@.len() <= max_file_bytes && !is_binary(raw@)
                            && text.content@ == lossy(raw@) && text.lossy_lines@ == undecoded(
                            raw@,
                            0,
                            1,
                        ),
                        Err(e) => if raw@.len() > max_file_bytes {
                            is_unsupported(
                                e,
                                path@,
                                UnsupportedReason::TooLarge {
                                    bytes: raw@.len() as u64,
                                    limit: max_file_bytes,
                                },
                            )
                        } else {
                            is_binary(raw@) && is_unsupported(e, path@, UnsupportedReason::Binary)
                        },
                    },
                    Err(e) => r == Err::<Text, Error>(e),
                }
            } else {
                r == Err::<Text, Error>(error)
            },
        },
{
    match read {
        Ok(content) => Ok(Text { content, lossy_lines: Vec::new() }),
        Err(error) => {
            let undecodable = match &error {
                Error::Unsupported { reason: UnsupportedReason::NonUtf8Region, .. } => true,
                _ => false,
            };
            if !undecodable {
                return Err(error);
            }
            match again {
                Ok(raw) => read_lossy(path, raw, max_file_bytes),
                Err(e) => Err(e),
            }
        },
    }
}

/// A file that is not there may be a target typed some other way: `meant` is the one it looks
/// like.
pub fn mistyped(raw: &str, error: Error, meant: Option<String>) -> (r: Error)
    ensures
        match meant {
            Some(meant) if error matches Error::Io { missing: true, .. } => r matches
                Error::MistypedTarget { target, meant: m } && target@ == raw@ && m == meant,
            _ => r == error,
        },
{
    let missing = match &error {
        Error::Io { missing, .. } => *missing,
        _ => false,
    };
    if !missing {
        return error;
    }
    match meant {
        Some(meant) => Error::MistypedTarget { target: raw.to_owned(), meant },
        None => error,
    }
}

proof fn lemma_undecoded_from(raw: Seq<u8>, start: int, number: usize)
    requires
        0 <= start <= raw.len(),
        number + (raw.len() - start) <= usize::MAX,
    ensures
        forall|i: int|
            0 <= i < undecoded(raw, start, number).len() ==> #[trigger] undecoded(
                raw,
                start,
                number,
            )[i] >= number,
    decreases raw.len() - start,
{
    lemma_newline_bound(raw, start);
    let end = newline_from(raw, start);
    if end < raw.len() {
        lemma_undecoded_from(raw, end + 1, (number + 1) as usize);
        let rest = undecoded(raw, end + 1, (number + 1) as usize);
        let all = undecoded(raw, start, number);
        let before = all.len() - rest.len();
        assert forall|i: int| 0 <= i < all.len() implies #[trigger] all[i] >= number by {
            if i >= before {
                assert(all[i] == rest[i - before]);
            }
        }
    }
}

proof fn lemma_newline_bound(raw: Seq<u8>, start: int)
    requires
        0 <= start <= raw.len(),
    ensures
        start <= newline_from(raw, start) <= raw.len(),
    decreases raw.len() - start,
{
    if start < raw.len() && raw[start] != 10 {
        lemma_newline_bound(raw, start + 1);
    }
}

proof fn lemma_undecoded_at(raw: Seq<u8>, starts: Seq<usize>, j: int, k: int)
    requires
        are_starts(raw, starts),
        raw.len() < usize::MAX,
        0 <= j <= k < starts.len(),
    ensures
        ({
            let end = end_of(raw, starts, k);
            let stop = if raw[end - 1] == 10 {
                end - 1
            } else {
                end
            };
            undecoded(raw, starts[j] as int, (j + 1) as usize).contains((k + 1) as usize)
                <==> !valid_utf8(raw.subrange(starts[k] as int, stop))
        }),
        j <= starts[j],
    decreases k - j,
{
    lemma_start_bound(raw, starts, k);
    lemma_start_bound(raw, starts, j);
    law_a_line_ends_at_its_newline(raw, starts, j);
    law_a_line_ends_at_its_newline(raw, starts, k);
    law_the_lines_are_the_file(raw, starts);
    let end = end_of(raw, starts, j);
    let stop = if raw[end - 1] == 10 {
        end - 1
    } else {
        end
    };
    lemma_newline_from(raw, starts[j] as int, stop);
    let all = undecoded(raw, starts[j] as int, (j + 1) as usize);
    let first = if valid_utf8(raw.subrange(starts[j] as int, stop)) {
        Seq::empty()
    } else {
        seq![(j + 1) as usize]
    };
    if stop < raw.len() {
        let rest = undecoded(raw, stop + 1, (j + 2) as usize);
        assert(all == first + rest);
        lemma_undecoded_from(raw, stop + 1, (j + 2) as usize);
        if j == k {
            if first.len() > 0 {
                assert(all[0] == k + 1);
            }
        } else {
            assert(stop + 1 == starts[j + 1]);
            lemma_undecoded_at(raw, starts, j + 1, k);
            if rest.contains((k + 1) as usize) {
                let i = choose|i: int| 0 <= i < rest.len() && rest[i] == (k + 1) as usize;
                assert(all[first.len() + i] == (k + 1) as usize);
            }
            if all.contains((k + 1) as usize) {
                let i = choose|i: int| 0 <= i < all.len() && all[i] == (k + 1) as usize;
                assert(rest[i - first.len()] == all[i]);
            }
        }
    } else {
        assert(all == first);
        if first.len() > 0 {
            assert(all[0] == j + 1);
        }
    }
}

proof fn lemma_start_bound(raw: Seq<u8>, starts: Seq<usize>, k: int)
    requires
        are_starts(raw, starts),
        0 <= k < starts.len(),
    ensures
        k <= starts[k] < raw.len(),
    decreases k,
{
    law_a_line_ends_at_its_newline(raw, starts, k);
    if k > 0 {
        lemma_start_bound(raw, starts, k - 1);
        assert(starts[k - 1] < starts[k]);
    }
}

/// A line is named as undecoded exactly where its bytes, its newline left out, are not UTF-8.
pub proof fn law_a_line_that_is_no_text_is_named(raw: Seq<u8>, starts: Seq<usize>, k: int)
    requires
        are_starts(raw, starts),
        raw.len() < usize::MAX,
        0 <= k < starts.len(),
    ensures
        ({
            let end = end_of(raw, starts, k);
            let stop = if raw[end - 1] == 10 {
                end - 1
            } else {
                end
            };
            undecoded(raw, 0, 1).contains((k + 1) as usize) <==> !valid_utf8(
                raw.subrange(starts[k] as int, stop),
            )
        }),
{
    law_the_lines_are_the_file(raw, starts);
    lemma_undecoded_at(raw, starts, 0, k);
}

} // verus!
