//! Patterns and globs, as far as other crates decide what they mean.
use vstd::prelude::*;
use vstd::utf8::{encode_utf8, is_char_boundary};

use crate::text::texts;

verus! {

/// A character that means something other than itself in a pattern.
pub open spec fn is_meta(c: char) -> bool {
    ||| c == '\\'
    ||| c == '.'
    ||| c == '+'
    ||| c == '*'
    ||| c == '?'
    ||| c == '('
    ||| c == ')'
    ||| c == '|'
    ||| c == '['
    ||| c == ']'
    ||| c == '{'
    ||| c == '}'
    ||| c == '^'
    ||| c == '$'
    ||| c == '#'
    ||| c == '&'
    ||| c == '-'
    ||| c == '~'
}

/// `s` as a pattern that matches exactly `s`: a backslash before each such character.
pub open spec fn escaped(s: Seq<char>) -> Seq<char>
    decreases s.len(),
{
    if s.len() == 0 {
        Seq::empty()
    } else {
        let head = escaped(s.drop_last());
        if is_meta(s.last()) {
            head.push('\\').push(s.last())
        } else {
            head.push(s.last())
        }
    }
}

/// `regex::escape`: a backslash goes before each of the eighteen characters that mean something
/// in a pattern, and nothing else changes.
#[verifier::external_body]
pub(crate) fn escape(s: &str) -> (r: String)
    ensures
        r@ == escaped(s@),
{
    regex::escape(s)
}

/// An escaped text without the backslashes that were put in.
pub open spec fn unescaped(s: Seq<char>) -> Seq<char>
    decreases s.len(),
{
    if s.len() == 0 {
        s
    } else if s[0] == '\\' && s.len() > 1 {
        seq![s[1]] + unescaped(s.skip(2))
    } else {
        seq![s[0]] + unescaped(s.drop_first())
    }
}

/// A character as it stands in an escaped text.
pub open spec fn escaped_char(c: char) -> Seq<char> {
    if is_meta(c) {
        seq!['\\', c]
    } else {
        seq![c]
    }
}

proof fn lemma_escaped_first(s: Seq<char>)
    requires
        s.len() > 0,
    ensures
        escaped(s) == escaped_char(s[0]) + escaped(s.drop_first()),
    decreases s.len(),
{
    reveal_with_fuel(escaped, 2);
    if s.len() == 1 {
        assert(s.drop_last() =~= Seq::empty());
        assert(s.drop_first() =~= Seq::empty());
        assert(escaped(s) =~= escaped_char(s[0]) + escaped(s.drop_first()));
    } else {
        lemma_escaped_first(s.drop_last());
        assert(s.drop_last().drop_first() =~= s.drop_first().drop_last());
        assert(s.drop_first().last() == s.last());
        assert(escaped(s) =~= escaped_char(s[0]) + escaped(s.drop_first()));
    }
}

/// Escaping is undone by taking the backslashes out again, so no two texts have one pattern; and a
/// text with nothing to escape stays as it is.
pub proof fn law_escaping_is_undone(s: Seq<char>)
    ensures
        unescaped(escaped(s)) == s,
        (forall|i: int| 0 <= i < s.len() ==> !is_meta(#[trigger] s[i])) ==> escaped(s) == s,
    decreases s.len(),
{
    if s.len() > 0 {
        let rest = s.drop_first();
        law_escaping_is_undone(rest);
        lemma_escaped_first(s);
        let e = escaped(s);
        if is_meta(s[0]) {
            assert(e.skip(2) =~= escaped(rest));
        } else {
            assert(e.drop_first() =~= escaped(rest));
        }
        assert(seq![s[0]] + rest =~= s);
        if forall|i: int| 0 <= i < s.len() ==> !is_meta(#[trigger] s[i]) {
            assert forall|i: int| 0 <= i < rest.len() implies !is_meta(#[trigger] rest[i]) by {
                assert(rest[i] == s[i + 1]);
            }
        }
    } else {
        assert(escaped(s) =~= s);
    }
}

/// What is wrong with a pattern, as the `regex` crate tells it; `None` of one it compiles.
pub uninterp spec fn regex_error(pattern: Seq<char>, ignore_case: bool) -> Option<Seq<char>>;

/// `regex::RegexBuilder::build` with case folded or not: the message of its error, which is a
/// function of the two. Which patterns it refuses, and in what words, is left unsaid.
#[verifier::external_body]
pub(crate) fn check_regex(pattern: &str, ignore_case: bool) -> (r: Option<String>)
    ensures
        match r {
            Some(s) => regex_error(pattern@, ignore_case) == Some(s@),
            None => regex_error(pattern@, ignore_case) is None,
        },
{
    let built = regex::RegexBuilder::new(pattern).case_insensitive(ignore_case).build();
    built.err().map(|error| error.to_string())
}

/// Where a pattern that compiles matches in a text, as byte offsets.
pub uninterp spec fn regex_matches(
    pattern: Seq<char>,
    ignore_case: bool,
    text: Seq<char>,
) -> Seq<(usize, usize)>;

/// Offsets of matches in a text with these bytes: each on character boundaries, in order, apart.
pub open spec fn are_offsets(found: Seq<(usize, usize)>, bytes: Seq<u8>) -> bool {
    &&& forall|i: int|
        0 <= i < found.len() ==> {
            &&& (#[trigger] found[i]).0 <= found[i].1 <= bytes.len()
            &&& is_char_boundary(bytes, found[i].0 as int)
            &&& is_char_boundary(bytes, found[i].1 as int)
        }
    &&& forall|i: int, j: int|
        0 <= i < j < found.len() ==> (#[trigger] found[i]).1 <= (#[trigger] found[j]).0
}

/// `regex::Regex::find_iter`, for each of the texts: successive matches that do not overlap, as
/// byte offsets on character boundaries. Where they are is a function of the pattern, the folding
/// and the text, and is otherwise left unsaid. The pattern is compiled once for all the texts.
#[verifier::external_body]
pub(crate) fn find_matches(pattern: &str, ignore_case: bool, texts: &Vec<String>) -> (r: Vec<
    Vec<(usize, usize)>,
>)
    requires
        regex_error(pattern@, ignore_case) is None,
    ensures
        r@.len() == texts@.len(),
        forall|i: int|
            0 <= i < texts@.len() ==> (#[trigger] r@[i])@ == regex_matches(
                pattern@,
                ignore_case,
                texts@[i]@,
            ) && are_offsets(r@[i]@, encode_utf8(texts@[i]@)),
{
    let regex = regex::RegexBuilder::new(pattern).case_insensitive(ignore_case).build().unwrap();
    let offsets = |text: &String| regex.find_iter(text).map(|m| (m.start(), m.end())).collect();
    texts.iter().map(offsets).collect()
}

/// What is wrong with a pattern, as the searcher's own matcher tells it; `None` of one it takes.
pub uninterp spec fn searcher_error(
    pattern: Seq<char>,
    ignore_case: bool,
    word: bool,
) -> Option<Seq<char>>;

/// `grep_regex::RegexMatcherBuilder::build` with case folded or not and with word boundaries or
/// not: the message of its error, which is a function of the three. Which patterns it refuses, and
/// in what words, is left unsaid.
#[verifier::external_body]
pub(crate) fn check_searcher(pattern: &str, ignore_case: bool, word: bool) -> (r: Option<String>)
    ensures
        match r {
            Some(s) => searcher_error(pattern@, ignore_case, word) == Some(s@),
            None => searcher_error(pattern@, ignore_case, word) is None,
        },
{
    let mut builder = grep_regex::RegexMatcherBuilder::new();
    let built = builder.case_insensitive(ignore_case).word(word).build(pattern);
    built.err().map(|error| error.to_string())
}

/// What is wrong with one glob, as the `ignore` crate tells it; `None` of one it takes.
pub uninterp spec fn glob_error(glob: Seq<char>) -> Option<Seq<char>>;

/// `ignore::overrides::OverrideBuilder::add` of one glob: the message of its error, which is a
/// function of the glob. Which globs it refuses, and in what words, is left unsaid.
#[verifier::external_body]
pub(crate) fn check_glob(glob: &str) -> (r: Option<String>)
    ensures
        match r {
            Some(s) => glob_error(glob@) == Some(s@),
            None => glob_error(glob@) is None,
        },
{
    match ignore::overrides::OverrideBuilder::new(".").add(glob) {
        Ok(_) => None,
        Err(ignore::Error::Glob { err, .. }) => Some(err),
        Err(other) => Some(other.to_string()),
    }
}

/// What is wrong with globs that are each taken, once they are put together.
pub uninterp spec fn globs_error(globs: Seq<Seq<char>>) -> Option<Seq<char>>;

/// `ignore::overrides::OverrideBuilder::build` over globs of which each was added: the message of
/// its error, which is a function of the globs. When it fails is left unsaid.
#[verifier::external_body]
pub(crate) fn check_globs(globs: &Vec<String>) -> (r: Option<String>)
    ensures
        match r {
            Some(s) => globs_error(texts(globs@)) == Some(s@),
            None => globs_error(texts(globs@)) is None,
        },
{
    let mut builder = ignore::overrides::OverrideBuilder::new(".");
    globs.iter().for_each(|glob| drop(builder.add(glob)));
    match builder.build() {
        Ok(_) => None,
        Err(ignore::Error::Glob { err, .. }) => Some(err),
        Err(other) => Some(other.to_string()),
    }
}

} // verus!
