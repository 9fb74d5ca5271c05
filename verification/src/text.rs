//! Text as the rest of the library reasons about it: a `str` is the sequence of its characters,
//! and its length is the number of bytes of its UTF-8 encoding.
use vstd::prelude::*;
use vstd::utf8::*;

verus! {

/// `String::push` puts one character after those already there.
pub assume_specification[ String::push ](s: &mut String, c: char)
    ensures
        final(s)@ == old(s)@.push(c),
;

/// The number of bytes `s` takes in UTF-8.
pub open spec fn byte_len(s: Seq<char>) -> nat {
    encode_utf8(s).len()
}

/// The encoding of two texts put together is the two encodings put together.
pub proof fn lemma_encode_concat(a: Seq<char>, b: Seq<char>)
    ensures
        encode_utf8(a + b) == encode_utf8(a) + encode_utf8(b),
    decreases a.len(),
{
    if a.len() == 0 {
        assert(a + b =~= b);
        assert(encode_utf8(a) + encode_utf8(b) =~= encode_utf8(b));
    } else {
        lemma_encode_concat(a.drop_first(), b);
        assert((a + b).drop_first() =~= a.drop_first() + b);
        assert(encode_utf8(a + b) =~= encode_utf8(a) + encode_utf8(b));
    }
}

/// Two texts with the same bytes are the same text.
pub proof fn lemma_encode_injective(a: Seq<char>, b: Seq<char>)
    requires
        encode_utf8(a) == encode_utf8(b),
    ensures
        a == b,
{
    encode_utf8_decode_utf8(a);
    encode_utf8_decode_utf8(b);
}

/// The number of bytes of `s`.
pub fn len(s: &str) -> (r: usize)
    ensures
        r == byte_len(s@),
{
    s.as_bytes().len()
}

/// The last character boundary of `bytes` at or before `at`.
pub open spec fn floor_boundary(bytes: Seq<u8>, at: int) -> int
    decreases at,
{
    if at >= bytes.len() {
        bytes.len() as int
    } else if at <= 0 {
        0
    } else if is_char_boundary(bytes, at) {
        at
    } else {
        floor_boundary(bytes, at - 1)
    }
}

/// The first character boundary of `bytes` at or after `at`.
pub open spec fn ceil_boundary(bytes: Seq<u8>, at: int) -> int
    decreases bytes.len() - at,
{
    if at >= bytes.len() {
        bytes.len() as int
    } else if at <= 0 {
        0
    } else if is_char_boundary(bytes, at) {
        at
    } else {
        ceil_boundary(bytes, at + 1)
    }
}

pub proof fn lemma_floor_boundary(bytes: Seq<u8>, at: int)
    requires
        valid_utf8(bytes),
        at >= 0,
    ensures
        0 <= floor_boundary(bytes, at) <= bytes.len(),
        floor_boundary(bytes, at) <= at,
        is_char_boundary(bytes, floor_boundary(bytes, at)),
        forall|i: int| floor_boundary(bytes, at) < i <= at ==> !is_char_boundary(bytes, i),
    decreases at,
{
    is_char_boundary_start_end_of_seq(bytes);
    if at >= bytes.len() {
        assert forall|i: int| bytes.len() < i implies !is_char_boundary(bytes, i) by {}
    } else if at > 0 && !is_char_boundary(bytes, at) {
        lemma_floor_boundary(bytes, at - 1);
    }
}

pub proof fn lemma_ceil_boundary(bytes: Seq<u8>, at: int)
    requires
        valid_utf8(bytes),
        at >= 0,
    ensures
        0 <= ceil_boundary(bytes, at) <= bytes.len(),
        at <= bytes.len() ==> at <= ceil_boundary(bytes, at),
        is_char_boundary(bytes, ceil_boundary(bytes, at)),
        forall|i: int| at <= i < ceil_boundary(bytes, at) ==> !is_char_boundary(bytes, i),
    decreases bytes.len() - at,
{
    is_char_boundary_start_end_of_seq(bytes);
    if at < bytes.len() && at > 0 && !is_char_boundary(bytes, at) {
        lemma_ceil_boundary(bytes, at + 1);
    }
}

/// The last character boundary of `s` at or before byte `at`.
pub fn floor_char_boundary(s: &str, at: usize) -> (r: usize)
    ensures
        r == floor_boundary(encode_utf8(s@), at as int),
        r <= byte_len(s@),
        is_char_boundary(encode_utf8(s@), r as int),
{
    proof {
        encode_utf8_valid_utf8(s@);
        lemma_floor_boundary(encode_utf8(s@), at as int);
    }
    let end = len(s);
    if at >= end {
        return end;
    }
    let mut i: usize = at;
    while i > 0 && !s.is_char_boundary(i)
        invariant
            i <= at < end == byte_len(s@),
            floor_boundary(encode_utf8(s@), at as int) == floor_boundary(
                encode_utf8(s@),
                i as int,
            ),
        decreases i,
    {
        i = i - 1;
    }
    i
}

/// The first character boundary of `s` at or after byte `at`.
pub fn ceil_char_boundary(s: &str, at: usize) -> (r: usize)
    ensures
        r == ceil_boundary(encode_utf8(s@), at as int),
        r <= byte_len(s@),
        is_char_boundary(encode_utf8(s@), r as int),
{
    proof {
        encode_utf8_valid_utf8(s@);
        lemma_ceil_boundary(encode_utf8(s@), at as int);
    }
    let end = len(s);
    if at == 0 {
        return 0;
    }
    let mut i: usize = at;
    while i < end && !s.is_char_boundary(i)
        invariant
            0 < at <= i,
            end == byte_len(s@),
            ceil_boundary(encode_utf8(s@), at as int) == ceil_boundary(
                encode_utf8(s@),
                i as int,
            ),
        decreases end - i,
    {
        i = i + 1;
    }
    if i < end {
        i
    } else {
        end
    }
}

/// The part of `s` from byte `from` up to byte `to`.
pub fn slice<'a>(s: &'a str, from: usize, to: usize) -> (r: &'a str)
    requires
        from <= to <= byte_len(s@),
        is_char_boundary(encode_utf8(s@), from as int),
        is_char_boundary(encode_utf8(s@), to as int),
    ensures
        encode_utf8(r@) == encode_utf8(s@).subrange(from as int, to as int),
{
    let ghost bytes = encode_utf8(s@);
    proof {
        encode_utf8_valid_utf8(s@);
        valid_utf8_split(bytes, to as int);
        lemma_boundary_in_prefix(bytes, from as int, to as int);
    }
    let (head, _) = s.split_at(to);
    let (_, part) = head.split_at(from);
    assert(bytes.subrange(0, to as int).subrange(from as int, to as int) =~= bytes.subrange(
        from as int,
        to as int,
    ));
    part
}

/// A boundary stays one in a prefix that itself ends on a boundary.
pub proof fn lemma_boundary_in_prefix(bytes: Seq<u8>, from: int, to: int)
    requires
        valid_utf8(bytes),
        0 <= from <= to <= bytes.len(),
        is_char_boundary(bytes, from),
        is_char_boundary(bytes, to),
    ensures
        valid_utf8(bytes.subrange(0, to)),
        is_char_boundary(bytes.subrange(0, to), from),
{
    valid_utf8_split(bytes, to);
    let head = bytes.subrange(0, to);
    is_char_boundary_start_end_of_seq(head);
    if from < to {
        is_char_boundary_iff_not_is_continuation_byte(bytes, from);
        is_char_boundary_iff_not_is_continuation_byte(head, from);
        assert(head[from] == bytes[from]);
    }
}

/// The digit that stands for `d`.
pub open spec fn digit(d: nat) -> char {
    (('0' as u32) + d) as char
}

/// `n` written in base ten.
pub open spec fn decimal_of(n: nat) -> Seq<char>
    decreases n,
{
    if n < 10 {
        seq![digit(n)]
    } else {
        decimal_of(n / 10).push(digit(n % 10))
    }
}

/// `n` written in base ten.
pub fn decimal(n: usize) -> (r: String)
    ensures
        r@ == decimal_of(n as nat),
    decreases n,
{
    let mut out = if n < 10 {
        String::new()
    } else {
        decimal(n / 10)
    };
    let d: u8 = (n % 10) as u8;
    out.push((48 + d) as char);
    proof {
        let m: nat = (n % 10) as nat;
        assert((48 + d) as char == digit(m));
    }
    assert(n < 10 ==> out@ =~= seq![digit(n as nat)]);
    out
}

/// The characters of `s`.
pub fn to_chars(s: &str) -> (r: Vec<char>)
    ensures
        r@ == s@,
{
    let mut out: Vec<char> = Vec::new();
    for c in it: s.chars()
        invariant
            it.seq() == s@,
            out@ == it.seq().take(it.index() as int),
    {
        proof {
            let i = it.index() as int;
            assert(it.seq().take(i + 1) =~= it.seq().take(i).push(c));
        }
        out.push(c);
    }
    assert(s@.take(s@.len() as int) =~= s@);
    out
}

/// The text made of `chars[from..to]`.
pub fn of_chars(chars: &Vec<char>, from: usize, to: usize) -> (r: String)
    requires
        from <= to <= chars@.len(),
    ensures
        r@ == chars@.subrange(from as int, to as int),
{
    let mut out = String::new();
    let mut i: usize = from;
    while i < to
        invariant
            from <= i <= to <= chars@.len(),
            out@ == chars@.subrange(from as int, i as int),
        decreases to - i,
    {
        out.push(chars[i]);
        i = i + 1;
        assert(chars@.subrange(from as int, i as int) =~= chars@.subrange(
            from as int,
            i - 1,
        ).push(chars@[i - 1]));
    }
    out
}

/// Whether `a` and `b` are the same text.
pub fn same(a: &str, b: &str) -> (r: bool)
    ensures
        r == (a@ == b@),
{
    let x = a.as_bytes();
    let y = b.as_bytes();
    if x.len() != y.len() {
        return false;
    }
    let mut i: usize = 0;
    while i < x.len()
        invariant
            x@ == encode_utf8(a@),
            y@ == encode_utf8(b@),
            x@.len() == y@.len(),
            i <= x@.len(),
            forall|j: int| 0 <= j < i ==> x@[j] == y@[j],
        decreases x@.len() - i,
    {
        if x[i] != y[i] {
            return false;
        }
        i = i + 1;
    }
    proof {
        assert(x@ =~= y@);
        lemma_encode_injective(a@, b@);
    }
    true
}

/// `s` is one of `texts`.
pub open spec fn has_text(texts: Seq<String>, s: Seq<char>) -> bool {
    exists|i: int| 0 <= i < texts.len() && #[trigger] texts[i]@ == s
}

/// Whether `s` is one of `texts`.
pub fn holds(texts: &Vec<String>, s: &str) -> (r: bool)
    ensures
        r == has_text(texts@, s@),
{
    let mut i: usize = 0;
    while i < texts.len()
        invariant
            i <= texts@.len(),
            forall|j: int| 0 <= j < i ==> #[trigger] texts@[j]@ != s@,
        decreases texts@.len() - i,
    {
        if same(texts[i].as_str(), s) {
            return true;
        }
        i = i + 1;
    }
    false
}

/// Whether `s` begins with `prefix`.
pub fn starts_with(s: &str, prefix: &str) -> (r: bool)
    ensures
        r == prefix@.is_prefix_of(s@),
{
    let n = prefix.unicode_len();
    if n > s.unicode_len() {
        return false;
    }
    same(s.substring_char(0, n), prefix)
}

/// What follows `prefix` in `s`, where `s` begins with it.
pub fn strip_prefix<'a>(s: &'a str, prefix: &str) -> (r: Option<&'a str>)
    ensures
        match r {
            Some(rest) => s@ == prefix@ + rest@,
            None => !prefix@.is_prefix_of(s@),
        },
{
    let n = prefix.unicode_len();
    if starts_with(s, prefix) {
        let m = s.unicode_len();
        let rest = s.substring_char(n, m);
        assert(s@ =~= prefix@ + rest@);
        Some(rest)
    } else {
        None
    }
}

/// Whether `s` ends with `suffix`.
pub fn ends_with(s: &str, suffix: &str) -> (r: bool)
    ensures
        r == suffix@.is_suffix_of(s@),
{
    let n = suffix.unicode_len();
    let m = s.unicode_len();
    if n > m {
        return false;
    }
    same(s.substring_char(m - n, m), suffix)
}

/// What precedes `suffix` in `s`, where `s` ends with it.
pub fn strip_suffix<'a>(s: &'a str, suffix: &str) -> (r: Option<&'a str>)
    ensures
        match r {
            Some(rest) => s@ == rest@ + suffix@,
            None => !suffix@.is_suffix_of(s@),
        },
{
    if ends_with(s, suffix) {
        let n = suffix.unicode_len();
        let m = s.unicode_len();
        let rest = s.substring_char(0, m - n);
        assert(s@ =~= rest@ + suffix@);
        Some(rest)
    } else {
        None
    }
}

/// `part` stands in `s` at character `i`.
pub open spec fn stands_at(s: Seq<char>, part: Seq<char>, i: int) -> bool {
    0 <= i && i + part.len() <= s.len() && s.subrange(i, i + part.len()) == part
}

/// `part` stands somewhere in `s`.
pub open spec fn contains_text(s: Seq<char>, part: Seq<char>) -> bool {
    exists|i: int| stands_at(s, part, i)
}

/// The first character of `s`, from `i` on, at which `part` stands.
pub open spec fn first_place(s: Seq<char>, part: Seq<char>, i: int) -> Option<int>
    decreases s.len() + 1 - i,
{
    if i < 0 || i + part.len() > s.len() {
        None
    } else if stands_at(s, part, i) {
        Some(i)
    } else {
        first_place(s, part, i + 1)
    }
}

pub proof fn lemma_first_place(s: Seq<char>, part: Seq<char>, i: int)
    requires
        i >= 0,
    ensures
        match first_place(s, part, i) {
            Some(at) => i <= at && stands_at(s, part, at) && forall|j: int|
                i <= j < at ==> !stands_at(s, part, j),
            None => forall|j: int| i <= j ==> !stands_at(s, part, j),
        },
    decreases s.len() + 1 - i,
{
    if i + part.len() <= s.len() && !stands_at(s, part, i) {
        lemma_first_place(s, part, i + 1);
    }
}

/// The first character of `s` at which `part` stands.
pub fn find(s: &str, part: &str) -> (r: Option<usize>)
    ensures
        match r {
            Some(i) => first_place(s@, part@, 0) == Some(i as int) && i + part@.len() <= s@.len()
                && stands_at(s@, part@, i as int),
            None => first_place(s@, part@, 0) is None && !contains_text(s@, part@),
        },
{
    let n = part.unicode_len();
    let m = s.unicode_len();
    proof {
        lemma_first_place(s@, part@, 0);
    }
    if n > m {
        return None;
    }
    let mut i: usize = 0;
    while i <= m - n
        invariant
            n == part@.len(),
            m == s@.len(),
            n <= m,
            i <= m - n,
            first_place(s@, part@, 0) == first_place(s@, part@, i as int),
            first_place(s@, part@, 0) is None ==> !contains_text(s@, part@),
        decreases m - n + 1 - i,
    {
        if same(s.substring_char(i, i + n), part) {
            return Some(i);
        }
        if i == m - n {
            assert(first_place(s@, part@, i + 1) is None);
            return None;
        }
        i = i + 1;
    }
    None
}

/// Whether `part` stands somewhere in `s`.
pub fn contains(s: &str, part: &str) -> (r: bool)
    ensures
        r == contains_text(s@, part@),
{
    find(s, part).is_some()
}

/// What stands before and after the first `sep` in `s`.
pub open spec fn split_of(s: Seq<char>, sep: Seq<char>) -> Option<(Seq<char>, Seq<char>)> {
    match first_place(s, sep, 0) {
        Some(i) => Some((s.take(i), s.skip(i + sep.len()))),
        None => None,
    }
}

/// What stands before and after the first `sep` in `s`.
pub fn split_once<'a>(s: &'a str, sep: &str) -> (r: Option<(&'a str, &'a str)>)
    ensures
        match r {
            Some((head, tail)) => split_of(s@, sep@) == Some((head@, tail@)),
            None => split_of(s@, sep@) is None,
        },
{
    match find(s, sep) {
        Some(i) => {
            let n = sep.unicode_len();
            let m = s.unicode_len();
            Some((s.substring_char(0, i), s.substring_char(i + n, m)))
        },
        None => None,
    }
}

/// A text split at its first separator is put together again by it.
pub proof fn lemma_split_of(s: Seq<char>, sep: Seq<char>)
    ensures
        split_of(s, sep) matches Some((head, tail)) ==> s == head + sep + tail,
{
    lemma_first_place(s, sep, 0);
    if let Some(i) = first_place(s, sep, 0) {
        assert(s =~= s.take(i) + s.subrange(i, i + sep.len()) + s.skip(i + sep.len()));
    }
}

/// A character of Unicode's `White_Space`.
pub open spec fn is_space(c: char) -> bool {
    ||| '\u{9}' <= c <= '\u{d}'
    ||| c == ' '
    ||| c == '\u{85}'
    ||| c == '\u{a0}'
    ||| c == '\u{1680}'
    ||| '\u{2000}' <= c <= '\u{200a}'
    ||| c == '\u{2028}'
    ||| c == '\u{2029}'
    ||| c == '\u{202f}'
    ||| c == '\u{205f}'
    ||| c == '\u{3000}'
}

pub fn space(c: char) -> (r: bool)
    ensures
        r == is_space(c),
{
    ('\u{9}' <= c && c <= '\u{d}') || c == ' ' || c == '\u{85}' || c == '\u{a0}' || c
        == '\u{1680}' || ('\u{2000}' <= c && c <= '\u{200a}') || c == '\u{2028}' || c
        == '\u{2029}' || c == '\u{202f}' || c == '\u{205f}' || c == '\u{3000}'
}

/// `s` without the white space it begins with.
pub open spec fn trimmed_start(s: Seq<char>) -> Seq<char>
    decreases s.len(),
{
    if s.len() > 0 && is_space(s[0]) {
        trimmed_start(s.drop_first())
    } else {
        s
    }
}

/// Taking the white space off the front takes no bytes but its own.
pub proof fn lemma_trimmed_start_bytes(s: Seq<char>)
    ensures
        byte_len(trimmed_start(s)) <= byte_len(s),
    decreases s.len(),
{
    if s.len() > 0 && is_space(s[0]) {
        lemma_trimmed_start_bytes(s.drop_first());
    }
}

/// `s` without the white space it ends with.
pub open spec fn trimmed_end(s: Seq<char>) -> Seq<char>
    decreases s.len(),
{
    if s.len() > 0 && is_space(s.last()) {
        trimmed_end(s.drop_last())
    } else {
        s
    }
}

/// `s` without the white space at its two ends.
pub open spec fn trimmed(s: Seq<char>) -> Seq<char> {
    trimmed_end(trimmed_start(s))
}

pub fn trim_start<'a>(s: &'a str) -> (r: &'a str)
    ensures
        r@ == trimmed_start(s@),
{
    let n = s.unicode_len();
    let mut i: usize = 0;
    assert(s@.subrange(0, n as int) =~= s@);
    while i < n
        invariant
            i <= n == s@.len(),
            trimmed_start(s@) == trimmed_start(s@.subrange(i as int, n as int)),
        decreases n - i,
    {
        if !space(s.get_char(i)) {
            return s.substring_char(i, n);
        }
        assert(s@.subrange(i as int, n as int).drop_first() =~= s@.subrange(i + 1, n as int));
        i = i + 1;
    }
    s.substring_char(n, n)
}

pub fn trim_end<'a>(s: &'a str) -> (r: &'a str)
    ensures
        r@ == trimmed_end(s@),
{
    let mut n: usize = s.unicode_len();
    assert(s@.subrange(0, n as int) =~= s@);
    while n > 0
        invariant
            n <= s@.len(),
            trimmed_end(s@) == trimmed_end(s@.subrange(0, n as int)),
        decreases n,
    {
        if !space(s.get_char(n - 1)) {
            return s.substring_char(0, n);
        }
        assert(s@.subrange(0, n as int).drop_last() =~= s@.subrange(0, n - 1));
        n = n - 1;
    }
    s.substring_char(0, 0)
}

pub fn trim<'a>(s: &'a str) -> (r: &'a str)
    ensures
        r@ == trimmed(s@),
{
    trim_end(trim_start(s))
}

/// `s` without the line ends (`\r`, `\n`) it ends with.
pub open spec fn chomped(s: Seq<char>) -> Seq<char>
    decreases s.len(),
{
    if s.len() > 0 && (s.last() == '\n' || s.last() == '\r') {
        chomped(s.drop_last())
    } else {
        s
    }
}

pub fn chomp<'a>(s: &'a str) -> (r: &'a str)
    ensures
        r@ == chomped(s@),
{
    let mut n: usize = s.unicode_len();
    assert(s@.subrange(0, n as int) =~= s@);
    while n > 0
        invariant
            n <= s@.len(),
            chomped(s@) == chomped(s@.subrange(0, n as int)),
        decreases n,
    {
        let c = s.get_char(n - 1);
        if c != '\n' && c != '\r' {
            return s.substring_char(0, n);
        }
        assert(s@.subrange(0, n as int).drop_last() =~= s@.subrange(0, n - 1));
        n = n - 1;
    }
    s.substring_char(0, 0)
}

/// The texts of a list.
pub open spec fn texts(list: Seq<String>) -> Seq<Seq<char>> {
    list.map_values(|s: String| s@)
}

/// `parts` with `sep` between each two of them.
pub open spec fn joined(parts: Seq<Seq<char>>, sep: Seq<char>) -> Seq<char>
    decreases parts.len(),
{
    if parts.len() == 0 {
        Seq::empty()
    } else if parts.len() == 1 {
        parts[0]
    } else {
        joined(parts.drop_last(), sep) + sep + parts.last()
    }
}

/// `parts` with `sep` between each two of them.
pub fn join(parts: &Vec<String>, sep: &str) -> (r: String)
    ensures
        r@ == joined(texts(parts@), sep@),
{
    let mut out = String::new();
    let mut i: usize = 0;
    while i < parts.len()
        invariant
            i <= parts@.len(),
            out@ == joined(texts(parts@).take(i as int), sep@),
        decreases parts@.len() - i,
    {
        let ghost so_far = texts(parts@).take(i as int + 1);
        assert(so_far.drop_last() =~= texts(parts@).take(i as int));
        if i > 0 {
            out.append(sep);
        }
        out.append(parts[i].as_str());
        assert(out@ =~= joined(so_far, sep@));
        i = i + 1;
    }
    assert(texts(parts@).take(i as int) =~= texts(parts@));
    out
}

/// The end of the first line of `s`: its first `\n`, or the end of `s`.
pub open spec fn line_end(s: Seq<char>) -> int
    decreases s.len(),
{
    if s.len() == 0 || s[0] == '\n' {
        0
    } else {
        1 + line_end(s.drop_first())
    }
}

/// `line` without one `\r` at its end.
pub open spec fn without_cr(line: Seq<char>) -> Seq<char> {
    if line.len() > 0 && line.last() == '\r' {
        line.drop_last()
    } else {
        line
    }
}

pub proof fn lemma_line_end(s: Seq<char>)
    ensures
        0 <= line_end(s) <= s.len(),
        line_end(s) < s.len() ==> s[line_end(s)] == '\n',
        forall|i: int| 0 <= i < line_end(s) ==> s[i] != '\n',
    decreases s.len(),
{
    if s.len() > 0 && s[0] != '\n' {
        lemma_line_end(s.drop_first());
        assert forall|i: int| 0 <= i < line_end(s) implies s[i] != '\n' by {
            if i > 0 {
                assert(s[i] == s.drop_first()[i - 1]);
            }
        }
    }
}

/// The lines of `s`: each ends at `\n` or `\r\n`, and a last one may end with the text.
pub open spec fn lines_of(s: Seq<char>) -> Seq<Seq<char>>
    decreases s.len(),
    via lines_of_decreases
{
    if s.len() == 0 {
        Seq::empty()
    } else {
        let end = line_end(s);
        if end >= s.len() {
            seq![s]
        } else {
            seq![without_cr(s.subrange(0, end))] + lines_of(s.subrange(end + 1, s.len() as int))
        }
    }
}

#[via_fn]
proof fn lines_of_decreases(s: Seq<char>) {
    lemma_line_end(s);
}

/// A text has no more lines than characters, and one with lines is not empty.
pub proof fn lemma_lines_of_content(s: Seq<char>)
    ensures
        lines_of(s).len() <= s.len(),
        lines_of(s).len() > 0 ==> s.len() > 0,
    decreases s.len(),
{
    if s.len() > 0 {
        let end = line_end(s);
        lemma_line_end(s);
        if end < s.len() {
            lemma_lines_of_content(s.subrange(end + 1, s.len() as int));
        }
    }
}

/// The lines of `s`.
pub fn lines(s: &str) -> (r: Vec<String>)
    ensures
        texts(r@) == lines_of(s@),
{
    let chars = to_chars(s);
    let n = chars.len();
    let mut out: Vec<String> = Vec::new();
    let mut start: usize = 0;
    assert(s@.subrange(0, n as int) =~= s@);
    assert(texts(out@) + lines_of(s@) =~= lines_of(s@));
    while start < n
        invariant
            start <= n == chars@.len(),
            chars@ == s@,
            texts(out@) + lines_of(s@.subrange(start as int, n as int)) == lines_of(s@),
        decreases n - start,
    {
        let ghost rest = s@.subrange(start as int, n as int);
        proof {
            lemma_line_end(rest);
        }
        let mut end: usize = start;
        while end < n && chars[end] != '\n'
            invariant
                start <= end <= n == chars@.len(),
                chars@ == s@,
                rest == s@.subrange(start as int, n as int),
                end - start <= line_end(rest),
                line_end(rest) < rest.len() ==> rest[line_end(rest)] == '\n',
                0 <= line_end(rest) <= rest.len(),
                forall|i: int| 0 <= i < line_end(rest) ==> rest[i] != '\n',
            decreases n - end,
        {
            assert(rest[end - start] == chars@[end as int]);
            end = end + 1;
        }
        assert(end - start == line_end(rest)) by {
            if end < n {
                assert(rest[end - start] == '\n');
            }
        }
        let ghost so_far = out@;
        if end >= n {
            out.push(of_chars(&chars, start, end));
            assert(texts(out@) =~= texts(so_far).push(rest));
            assert(texts(out@) =~= texts(so_far) + seq![rest]);
            proof {
                assert(s@.subrange(n as int, n as int) =~= Seq::<char>::empty());
                assert(texts(out@) + lines_of(s@.subrange(n as int, n as int)) =~= texts(out@));
            }
            start = n;
        } else {
            let last = if end > start && chars[end - 1] == '\r' {
                end - 1
            } else {
                end
            };
            out.push(of_chars(&chars, start, last));
            proof {
                let line = rest.subrange(0, end - start);
                assert(line =~= s@.subrange(start as int, end as int));
                assert(without_cr(line) =~= s@.subrange(start as int, last as int));
                let after = rest.subrange(end - start + 1, rest.len() as int);
                assert(after =~= s@.subrange(end + 1, n as int));
                assert(texts(out@) =~= texts(so_far).push(without_cr(line)));
                assert(texts(out@) + lines_of(after) =~= texts(so_far) + (seq![without_cr(line)]
                    + lines_of(after)));
            }
            start = end + 1;
        }
    }
    assert(texts(out@) =~= lines_of(s@));
    out
}

/// The parts of `s` between its newlines: one more than there are newlines.
pub open spec fn pieces_of(s: Seq<char>) -> Seq<Seq<char>>
    decreases s.len(),
    via pieces_of_decreases
{
    let end = line_end(s);
    if end >= s.len() {
        seq![s]
    } else {
        seq![s.subrange(0, end)] + pieces_of(s.subrange(end + 1, s.len() as int))
    }
}

#[via_fn]
proof fn pieces_of_decreases(s: Seq<char>) {
    lemma_line_end(s);
}

/// The parts of `s` between its newlines.
pub fn pieces(s: &str) -> (r: Vec<String>)
    ensures
        texts(r@) == pieces_of(s@),
        r@.len() > 0,
{
    let chars = to_chars(s);
    let n = chars.len();
    let mut out: Vec<String> = Vec::new();
    let mut start: usize = 0;
    assert(s@.subrange(0, n as int) =~= s@);
    assert(texts(out@) + pieces_of(s@) =~= pieces_of(s@));
    loop
        invariant
            start <= n == chars@.len(),
            chars@ == s@,
            texts(out@) + pieces_of(s@.subrange(start as int, n as int)) == pieces_of(s@),
        decreases n - start,
    {
        let ghost rest = s@.subrange(start as int, n as int);
        proof {
            lemma_line_end(rest);
        }
        let mut end: usize = start;
        while end < n && chars[end] != '\n'
            invariant
                start <= end <= n == chars@.len(),
                chars@ == s@,
                rest == s@.subrange(start as int, n as int),
                end - start <= line_end(rest),
                line_end(rest) < rest.len() ==> rest[line_end(rest)] == '\n',
                0 <= line_end(rest) <= rest.len(),
                forall|i: int| 0 <= i < line_end(rest) ==> rest[i] != '\n',
            decreases n - end,
        {
            assert(rest[end - start] == chars@[end as int]);
            end = end + 1;
        }
        assert(end - start == line_end(rest)) by {
            if end < n {
                assert(rest[end - start] == '\n');
            }
        }
        let ghost so_far = out@;
        out.push(of_chars(&chars, start, end));
        assert(texts(out@) =~= texts(so_far).push(s@.subrange(start as int, end as int)));
        if end >= n {
            assert(texts(out@) =~= texts(so_far) + seq![rest]);
            return out;
        }
        proof {
            let line = rest.subrange(0, end - start);
            assert(line =~= s@.subrange(start as int, end as int));
            let after = rest.subrange(end - start + 1, rest.len() as int);
            assert(after =~= s@.subrange(end + 1, n as int));
            assert(texts(out@) + pieces_of(after) =~= texts(so_far) + (seq![line] + pieces_of(
                after,
            )));
        }
        start = end + 1;
    }
}

/// The ending of a noun that `n` things share.
pub open spec fn plural(n: nat) -> Seq<char> {
    if n == 1 {
        ""@
    } else {
        "s"@
    }
}

pub fn plural_suffix(n: usize) -> (r: &'static str)
    ensures
        r@ == plural(n as nat),
{
    if n == 1 {
        ""
    } else {
        "s"
    }
}

/// `s` with each `part` in it, from the first on, replaced by `with`.
pub open spec fn replaced(s: Seq<char>, part: Seq<char>, with: Seq<char>) -> Seq<char>
    decreases s.len(),
    via replaced_decreases
{
    if part.len() == 0 {
        s
    } else {
        match first_place(s, part, 0) {
            Some(i) => s.take(i) + with + replaced(s.skip(i + part.len()), part, with),
            None => s,
        }
    }
}

#[via_fn]
proof fn replaced_decreases(s: Seq<char>, part: Seq<char>, with: Seq<char>) {
    lemma_first_place(s, part, 0);
}

/// `s` with each `part` in it replaced by `with`.
pub fn replace(s: &str, part: &str, with: &str) -> (r: String)
    requires
        part@.len() > 0,
    ensures
        r@ == replaced(s@, part@, with@),
{
    let mut out = String::new();
    let mut rest = s;
    assert(out@ + replaced(s@, part@, with@) =~= replaced(s@, part@, with@));
    loop
        invariant
            part@.len() > 0,
            out@ + replaced(rest@, part@, with@) == replaced(s@, part@, with@),
        decreases rest@.len(),
    {
        match split_once(rest, part) {
            Some((head, tail)) => {
                proof {
                    lemma_first_place(rest@, part@, 0);
                    let i = first_place(rest@, part@, 0)->0;
                    assert(head@ == rest@.take(i));
                    assert(tail@ == rest@.skip(i + part@.len()));
                    let more = replaced(tail@, part@, with@);
                    assert(out@ + (head@ + with@ + more) =~= out@ + head@ + with@ + more);
                }
                out.append(head);
                out.append(with);
                rest = tail;
            },
            None => {
                out.append(rest);
                return out;
            },
        }
    }
}

/// The end of the first word of `s`.
pub open spec fn word_end(s: Seq<char>) -> int
    decreases s.len(),
{
    if s.len() == 0 || is_space(s[0]) {
        0
    } else {
        1 + word_end(s.drop_first())
    }
}

proof fn lemma_word_end(s: Seq<char>, i: int)
    requires
        0 <= i <= s.len(),
        forall|k: int| 0 <= k < i ==> !is_space(#[trigger] s[k]),
        i == s.len() || is_space(s[i]),
    ensures
        word_end(s) == i,
    decreases s.len(),
{
    if s.len() > 0 && i > 0 {
        assert(!is_space(s[0]));
        let rest = s.drop_first();
        assert forall|k: int| 0 <= k < i - 1 implies !is_space(#[trigger] rest[k]) by {
            assert(rest[k] == s[k + 1]);
        }
        lemma_word_end(rest, i - 1);
    }
}

proof fn lemma_word_end_bound(s: Seq<char>)
    ensures
        0 <= word_end(s) <= s.len(),
        s.len() > 0 && !is_space(s[0]) ==> word_end(s) > 0,
    decreases s.len(),
{
    if s.len() > 0 && !is_space(s[0]) {
        lemma_word_end_bound(s.drop_first());
    }
}

proof fn lemma_trimmed_start(s: Seq<char>)
    ensures
        trimmed_start(s).len() <= s.len(),
        trimmed_start(s).len() > 0 ==> !is_space(trimmed_start(s)[0]),
    decreases s.len(),
{
    if s.len() > 0 && is_space(s[0]) {
        lemma_trimmed_start(s.drop_first());
    }
}

/// The words of `s`: what stands between its white space.
pub open spec fn words_of(s: Seq<char>) -> Seq<Seq<char>>
    decreases s.len(),
    via words_of_decreases
{
    let rest = trimmed_start(s);
    if rest.len() == 0 {
        Seq::empty()
    } else {
        seq![rest.take(word_end(rest))] + words_of(rest.skip(word_end(rest)))
    }
}

#[via_fn]
proof fn words_of_decreases(s: Seq<char>) {
    lemma_trimmed_start(s);
    lemma_word_end_bound(trimmed_start(s));
}

/// A text that begins with a word has it first, and then the words of the rest.
pub proof fn lemma_first_word(s: Seq<char>, n: int)
    requires
        0 < n <= s.len(),
        forall|k: int| 0 <= k < n ==> !is_space(#[trigger] s[k]),
        n == s.len() || is_space(s[n]),
    ensures
        words_of(s) == seq![s.take(n)] + words_of(s.skip(n)),
        words_of(s).len() > 0,
        words_of(s)[0] == s.take(n),
{
    assert(!is_space(s[0]));
    assert(trimmed_start(s) == s);
    lemma_word_end(s, n);
}

/// No word holds white space.
pub proof fn lemma_words_hold_no_space(s: Seq<char>, i: int)
    requires
        0 <= i < words_of(s).len(),
    ensures
        forall|k: int| 0 <= k < words_of(s)[i].len() ==> !is_space(#[trigger] words_of(s)[i][k]),
    decreases s.len(),
{
    let rest = trimmed_start(s);
    lemma_trimmed_start(s);
    lemma_word_end_bound(rest);
    lemma_word_end_word(rest);
    if i > 0 {
        lemma_words_hold_no_space(rest.skip(word_end(rest)), i - 1);
    }
}

proof fn lemma_word_end_word(s: Seq<char>)
    ensures
        forall|k: int| 0 <= k < word_end(s) ==> !is_space(#[trigger] s[k]),
    decreases s.len(),
{
    if s.len() > 0 && !is_space(s[0]) {
        let rest = s.drop_first();
        lemma_word_end_word(rest);
        lemma_word_end_bound(rest);
        assert forall|k: int| 0 <= k < word_end(s) implies !is_space(#[trigger] s[k]) by {
            if k > 0 {
                assert(rest[k - 1] == s[k]);
            }
        }
    }
}

/// The first word of `s`, which begins with one, and the rest.
fn split_word<'a>(s: &'a str) -> (r: (&'a str, &'a str))
    ensures
        r.0@ == s@.take(word_end(s@)),
        r.1@ == s@.skip(word_end(s@)),
{
    let n = s.unicode_len();
    let mut i: usize = 0;
    while i < n && !space(s.get_char(i))
        invariant
            i <= n == s@.len(),
            forall|k: int| 0 <= k < i ==> !is_space(#[trigger] s@[k]),
        decreases n - i,
    {
        i = i + 1;
    }
    proof {
        lemma_word_end(s@, i as int);
    }
    let (word, rest) = (s.substring_char(0, i), s.substring_char(i, n));
    assert(word@ =~= s@.take(i as int));
    assert(rest@ =~= s@.skip(i as int));
    (word, rest)
}

/// The words of `s`.
pub fn words(s: &str) -> (r: Vec<String>)
    ensures
        texts(r@) == words_of(s@),
{
    let mut out: Vec<String> = Vec::new();
    let mut rest = s;
    assert(texts(out@) + words_of(s@) =~= words_of(s@));
    loop
        invariant
            texts(out@) + words_of(rest@) == words_of(s@),
        decreases rest@.len(),
    {
        let trimmed = trim_start(rest);
        proof {
            lemma_trimmed_start(rest@);
            lemma_word_end_bound(trimmed@);
        }
        if trimmed.unicode_len() == 0 {
            assert(texts(out@) =~= words_of(s@));
            return out;
        }
        let ghost had = out@;
        let (word, after) = split_word(trimmed);
        out.push(word.to_owned());
        proof {
            assert(texts(out@) =~= texts(had).push(word@));
            assert(texts(out@) + words_of(after@) =~= texts(had) + (seq![word@] + words_of(
                after@,
            )));
        }
        rest = after;
    }
}

proof fn lemma_line_end_at(line: Seq<char>, rest: Seq<char>)
    requires
        !line.contains('\n'),
    ensures
        line_end(line + seq!['\n'] + rest) == line.len(),
        line_end(line) == line.len(),
    decreases line.len(),
{
    let s = line + seq!['\n'] + rest;
    if line.len() > 0 {
        assert(line.contains(line[0]));
        assert(s[0] == line[0]);
        let less = line.drop_first();
        assert forall|i: int| 0 <= i < less.len() implies less[i] != '\n' by {
            assert(line.contains(line[i + 1]));
        }
        lemma_line_end_at(less, rest);
        assert(s.drop_first() =~= less + seq!['\n'] + rest);
    }
}

/// A line and what follows its line end are read apart; the line end may be `\n` or `\r\n`, and
/// all else that stands on a line is the line's own, blank lines being lines as well.
pub proof fn law_a_line_is_what_stands_before_its_end(line: Seq<char>, rest: Seq<char>)
    requires
        !line.contains('\n'),
        line.len() == 0 || line.last() != '\r',
    ensures
        lines_of(line + seq!['\n'] + rest) == seq![line] + lines_of(rest),
        lines_of(line + seq!['\r', '\n'] + rest) == seq![line] + lines_of(rest),
        lines_of(line) == (if line.len() == 0 {
            Seq::empty()
        } else {
            seq![line]
        }),
{
    let s = line + seq!['\n'] + rest;
    lemma_line_end_at(line, rest);
    assert(s.subrange(0, line.len() as int) =~= line);
    assert(s.subrange(line.len() as int + 1, s.len() as int) =~= rest);
    let ended = line.push('\r');
    assert forall|i: int| 0 <= i < ended.len() implies ended[i] != '\n' by {
        if i < line.len() {
            assert(line.contains(line[i]));
        }
    }
    let t = line + seq!['\r', '\n'] + rest;
    assert(t =~= ended + seq!['\n'] + rest);
    lemma_line_end_at(ended, rest);
    assert(t.subrange(0, ended.len() as int) =~= ended);
    assert(ended.drop_last() =~= line);
    assert(t.subrange(ended.len() as int + 1, t.len() as int) =~= rest);
}

proof fn lemma_joined_first(parts: Seq<Seq<char>>, sep: Seq<char>)
    requires
        parts.len() > 1,
    ensures
        joined(parts, sep) == parts[0] + sep + joined(parts.drop_first(), sep),
    decreases parts.len(),
{
    reveal_with_fuel(joined, 3);
    if parts.len() == 2 {
        assert(parts.drop_last() =~= seq![parts[0]]);
        assert(parts.drop_first() =~= seq![parts[1]]);
    } else {
        lemma_joined_first(parts.drop_last(), sep);
        assert(parts.drop_last().drop_first() =~= parts.drop_first().drop_last());
        assert(parts.drop_first().last() == parts.last());
        assert(joined(parts, sep) =~= parts[0] + sep + joined(parts.drop_first(), sep));
    }
}

/// A text is the lines it is made of with a newline between each two: taken apart into lines and put
/// together again it is the same text, however many blank lines it holds and wherever they stand.
pub proof fn law_the_lines_of_a_text_make_it_up(s: Seq<char>)
    requires
        !s.contains('\r'),
    ensures
        joined(lines_of(s + seq!['\n']), seq!['\n']) == s,
        lines_of(s + seq!['\n']).len() > 0,
    decreases s.len(),
{
    let t = s + seq!['\n'];
    let end = line_end(t);
    lemma_line_end(t);
    assert(t[s.len() as int] == '\n');
    if end > s.len() {
        assert(t[s.len() as int] != '\n');
    }
    let line = s.take(end);
    assert forall|i: int| 0 <= i < line.len() implies line[i] != '\n' && line[i] != '\r' by {
        assert(t[i] != '\n');
        assert(s.contains(s[i]));
    }
    if end == s.len() {
        assert(line =~= s);
        let none: Seq<char> = Seq::empty();
        assert(t =~= line + seq!['\n'] + none);
        law_a_line_is_what_stands_before_its_end(line, none);
        assert(lines_of(t) =~= seq![s]);
    } else {
        let rest = s.skip(end + 1);
        assert(t[end] == s[end]);
        assert forall|i: int| 0 <= i < rest.len() implies rest[i] != '\r' by {
            assert(s.contains(s[end + 1 + i]));
        }
        law_the_lines_of_a_text_make_it_up(rest);
        assert(t =~= line + seq!['\n'] + (rest + seq!['\n']));
        law_a_line_is_what_stands_before_its_end(line, rest + seq!['\n']);
        let more = lines_of(rest + seq!['\n']);
        assert((seq![line] + more).drop_first() =~= more);
        lemma_joined_first(seq![line] + more, seq!['\n']);
        assert(line + seq!['\n'] + rest =~= s);
    }
}

/// Two texts, the first of which ends its last line, have the lines of the one and then those of the
/// other.
pub proof fn law_texts_in_a_row_have_their_lines_in_a_row(a: Seq<char>, b: Seq<char>)
    ensures
        lines_of(a + seq!['\n'] + b) == lines_of(a + seq!['\n']) + lines_of(b),
    decreases a.len(),
{
    let t = a + seq!['\n'];
    let end = line_end(t);
    lemma_line_end(t);
    assert(t[a.len() as int] == '\n');
    if end > a.len() {
        assert(t[a.len() as int] != '\n');
    }
    let line = a.take(end);
    assert forall|i: int| 0 <= i < line.len() implies line[i] != '\n' by {
        assert(t[i] != '\n');
    }
    let whole = t + b;
    let rest = if end == a.len() {
        Seq::empty()
    } else {
        a.skip(end + 1) + seq!['\n']
    };
    assert(end < a.len() ==> a[end] == t[end]);
    assert(t =~= line + seq!['\n'] + rest);
    assert(whole =~= line + seq!['\n'] + (rest + b));
    lemma_line_end_at(line, rest);
    lemma_line_end_at(line, rest + b);
    assert(t.subrange(0, end) =~= line);
    assert(whole.subrange(0, end) =~= line);
    assert(t.subrange(end + 1, t.len() as int) =~= rest);
    assert(whole.subrange(end + 1, whole.len() as int) =~= rest + b);
    if end == a.len() {
        assert(rest + b =~= b);
        assert(lines_of(rest) =~= Seq::empty());
        assert(lines_of(whole) =~= lines_of(t) + lines_of(b));
    } else {
        law_texts_in_a_row_have_their_lines_in_a_row(a.skip(end + 1), b);
        assert(lines_of(whole) =~= lines_of(t) + lines_of(b));
    }
}

/// The line holds nothing but white space.
pub open spec fn is_blank(line: Seq<char>) -> bool {
    forall|i: int| 0 <= i < line.len() ==> is_space(#[trigger] line[i])
}

/// Trimming takes white space off the two ends and nothing else, and all of it.
pub proof fn law_trimming_takes_white_space_alone(s: Seq<char>) -> (place: (int, int))
    ensures
        ({
            let (from, to) = place;
            &&& 0 <= from <= to <= s.len()
            &&& trimmed(s) == s.subrange(from, to)
            &&& forall|i: int| 0 <= i < from || to <= i < s.len() ==> is_space(#[trigger] s[i])
            &&& from < to ==> !is_space(s[from]) && !is_space(s[to - 1])
        }),
{
    let from = lemma_trimmed_start_is(s);
    let rest = s.skip(from);
    let to = lemma_trimmed_end_is(rest);
    assert(rest.take(to) =~= s.subrange(from, from + to));
    assert forall|i: int| 0 <= i < from || from + to <= i < s.len() implies is_space(
        #[trigger] s[i],
    ) by {
        if i >= from {
            assert(is_space(rest[i - from]));
        }
    }
    (from, from + to)
}

proof fn lemma_trimmed_start_is(s: Seq<char>) -> (from: int)
    ensures
        0 <= from <= s.len(),
        trimmed_start(s) == s.skip(from),
        forall|i: int| 0 <= i < from ==> is_space(#[trigger] s[i]),
        from < s.len() ==> !is_space(s[from]),
    decreases s.len(),
{
    if s.len() > 0 && is_space(s[0]) {
        let from = lemma_trimmed_start_is(s.drop_first());
        assert(s.drop_first().skip(from) =~= s.skip(from + 1));
        assert forall|i: int| 0 <= i < from + 1 implies is_space(#[trigger] s[i]) by {
            if i > 0 {
                assert(is_space(s.drop_first()[i - 1]));
            }
        }
        from + 1
    } else {
        assert(s.skip(0) =~= s);
        0
    }
}

proof fn lemma_trimmed_end_is(s: Seq<char>) -> (to: int)
    ensures
        0 <= to <= s.len(),
        trimmed_end(s) == s.take(to),
        forall|i: int| to <= i < s.len() ==> is_space(#[trigger] s[i]),
        to > 0 ==> !is_space(s[to - 1]),
    decreases s.len(),
{
    if s.len() > 0 && is_space(s.last()) {
        let to = lemma_trimmed_end_is(s.drop_last());
        assert(s.drop_last().take(to) =~= s.take(to));
        assert forall|i: int| to <= i < s.len() implies is_space(#[trigger] s[i]) by {
            if i < s.len() - 1 {
                assert(is_space(s.drop_last()[i]));
            }
        }
        to
    } else {
        assert(s.take(s.len() as int) =~= s);
        s.len() as int
    }
}

/// Only white space comes off the front of a text, and all of it.
pub proof fn law_leading_white_space_comes_off(s: Seq<char>) -> (from: int)
    ensures
        0 <= from <= s.len(),
        trimmed_start(s) == s.skip(from),
        forall|i: int| 0 <= i < from ==> is_space(#[trigger] s[i]),
        from < s.len() ==> !is_space(s[from]),
{
    lemma_trimmed_start_is(s)
}

/// Only line ends come off the end of a text, and all of them.
pub proof fn law_only_line_ends_are_chomped(s: Seq<char>)
    ensures
        chomped(s).is_prefix_of(s),
        forall|i: int|
            chomped(s).len() <= i < s.len() ==> (#[trigger] s[i] == '\n' || s[i] == '\r'),
        chomped(s).len() > 0 ==> chomped(s).last() != '\n' && chomped(s).last() != '\r',
    decreases s.len(),
{
    if s.len() > 0 && (s.last() == '\n' || s.last() == '\r') {
        let less = s.drop_last();
        law_only_line_ends_are_chomped(less);
        let k = chomped(less).len() as int;
        assert(s.subrange(0, k) =~= less.subrange(0, k));
        assert forall|i: int| k <= i < s.len() implies (#[trigger] s[i] == '\n' || s[i] == '\r') by {
            if i < less.len() {
                assert(less[i] == s[i]);
            }
        }
    } else {
        assert(s.subrange(0, s.len() as int) =~= s);
    }
}

} // verus!
