//! What a search is asked for, and what is wrong with the asking.
use vstd::prelude::*;

use crate::error::Error;
use crate::pattern::{
    check_glob, check_globs, check_regex, check_searcher, escape, escaped, glob_error, globs_error,
    regex_error, searcher_error,
};
use crate::text;
use crate::find::walk::copy_texts;
use crate::text::{joined, lines_of, texts, trimmed};

verus! {

/// The flags of a search.
#[derive(Debug)]
pub struct FindArgs {
    pub pattern: String,
    pub paths: Vec<String>,
    pub fixed_string: bool,
    pub ignore_case: bool,
    pub word: bool,
    pub files: bool,
    pub count: bool,
    pub hidden: bool,
    pub no_expand: bool,
    pub globs: Vec<String>,
    pub before: Option<usize>,
    pub after: Option<usize>,
    pub context: Option<usize>,
    pub cap: usize,
}

/// The flags every verb has.
#[derive(Debug, Clone, Copy, PartialEq, Eq, Structural)]
pub struct Global {
    pub json: bool,
    pub jsonl: bool,
    pub budget: Option<usize>,
    pub max_bytes: usize,
    pub max_file_bytes: u64,
    pub no_ignore: bool,
    pub allow_outside: bool,
    pub no_check: bool,
    pub quiet: bool,
}

/// The pattern as a regular expression.
pub open spec fn base_of(args: FindArgs) -> Seq<char> {
    if args.fixed_string {
        escaped(args.pattern@)
    } else {
        args.pattern@
    }
}

pub fn base_pattern(args: &FindArgs) -> (r: String)
    ensures
        r@ == base_of(*args),
{
    if args.fixed_string {
        escape(args.pattern.as_str())
    } else {
        args.pattern.clone()
    }
}

/// The pattern that finds the matches in a line: a word search has its half boundaries spelled
/// out.
pub open spec fn spans_of(args: FindArgs) -> Seq<char> {
    if args.word {
        "\\b{start-half}(?:"@ + base_of(args) + ")\\b{end-half}"@
    } else {
        base_of(args)
    }
}

pub fn spans_pattern(args: &FindArgs) -> (r: String)
    ensures
        r@ == spans_of(*args),
{
    let base = base_pattern(args);
    if args.word {
        "\\b{start-half}(?:".to_owned().concat(base.as_str()).concat(")\\b{end-half}")
    } else {
        base
    }
}

/// The last line, up to the `n`-th, that tells an error.
pub open spec fn error_line(lines: Seq<Seq<char>>, n: int) -> Option<Seq<char>>
    decreases n,
{
    if n <= 0 {
        None
    } else if "error: "@.is_prefix_of(trimmed(lines[n - 1])) {
        Some(trimmed(lines[n - 1]).skip("error: "@.len() as int))
    } else {
        error_line(lines, n - 1)
    }
}

/// One line for an error that may be a diagram of several: the one that tells it, else the first.
pub open spec fn summary_text(error: Seq<char>) -> Seq<char> {
    let lines = lines_of(error);
    match error_line(lines, lines.len() as int) {
        Some(said) => said,
        None => if lines.len() > 0 {
            lines[0]
        } else {
            ""@
        },
    }
}

/// A regex error's own text is a four-line diagram; stderr carries only its `error:` line.
pub fn summary_of(error: &str) -> (r: String)
    ensures
        r@ == summary_text(error@),
{
    let lines = text::lines(error);
    let ghost model = lines_of(error@);
    let mut n: usize = lines.len();
    while n > 0
        invariant
            n <= lines@.len(),
            texts(lines@) == model,
            model == lines_of(error@),
            error_line(model, model.len() as int) == error_line(model, n as int),
        decreases n,
    {
        assert(texts(lines@)[n - 1] == lines@[n - 1]@);
        let line = text::trim(lines[n - 1].as_str());
        if let Some(said) = text::strip_prefix(line, "error: ") {
            assert(line@.skip("error: "@.len() as int) =~= said@);
            assert("error: "@.is_prefix_of(line@)) by {
                assert(line@.take("error: "@.len() as int) =~= "error: "@);
            }
            return said.to_owned();
        }
        n = n - 1;
    }
    if lines.len() > 0 {
        assert(texts(lines@)[0] == lines@[0]@);
        lines[0].clone()
    } else {
        "".to_owned()
    }
}

/// `pattern` is refused, and why in one line.
pub open spec fn is_invalid(error: Error, pattern: Seq<char>, message: Seq<char>) -> bool {
    error matches Error::InvalidPattern { pattern: p, message: m } && p@ == pattern && m@ == message
}

pub fn invalid_pattern(pattern: &str, error: &str) -> (r: Error)
    ensures
        is_invalid(r, pattern@, summary_text(error@)),
{
    Error::InvalidPattern { pattern: pattern.to_owned(), message: summary_of(error) }
}

/// The refusal of a pattern, given what the two regex engines make of it: the searcher's own comes
/// first.
pub open spec fn pattern_refusal(
    pattern: Seq<char>,
    searcher: Option<Seq<char>>,
    spans: Option<Seq<char>>,
) -> Option<(Seq<char>, Seq<char>)> {
    match searcher {
        Some(said) => Some((pattern, summary_text(said))),
        None => match spans {
            Some(said) => Some((pattern, summary_text(said))),
            None => None,
        },
    }
}

/// What is wrong with the globs: the first that is, or all of them together.
pub open spec fn glob_refusal(globs: Seq<String>, n: int) -> Option<(Seq<char>, Seq<char>)>
    decreases n,
{
    if n <= 0 {
        None
    } else {
        match glob_refusal(globs, n - 1) {
            Some(refusal) => Some(refusal),
            None => match glob_error(globs[n - 1]@) {
                Some(said) => Some((globs[n - 1]@, said)),
                None => None,
            },
        }
    }
}

/// What is wrong with the globs of a search; a search may have none.
pub open spec fn globs_refusal(globs: Seq<String>) -> Option<(Seq<char>, Seq<char>)> {
    if globs.len() == 0 {
        None
    } else {
        match glob_refusal(globs, globs.len() as int) {
            Some(refusal) => Some(refusal),
            None => match globs_error(texts(globs)) {
                Some(said) => Some((joined(texts(globs), ", "@), said)),
                None => None,
            },
        }
    }
}

pub open spec fn tells_refusal(
    error: Option<Error>,
    refusal: Option<(Seq<char>, Seq<char>)>,
) -> bool {
    match refusal {
        Some((pattern, message)) => error matches Some(e) && is_invalid(e, pattern, message),
        None => error is None,
    }
}

/// The refusal of a pattern that the two engines make these errors of.
pub fn refuse_pattern(pattern: &str, searcher: Option<String>, spans: Option<String>) -> (r: Option<
    Error,
>)
    ensures
        tells_refusal(
            r,
            pattern_refusal(
                pattern@,
                match searcher {
                    Some(s) => Some(s@),
                    None => None,
                },
                match spans {
                    Some(s) => Some(s@),
                    None => None,
                },
            ),
        ),
{
    match searcher {
        Some(said) => Some(invalid_pattern(pattern, said.as_str())),
        None => match spans {
            Some(said) => Some(invalid_pattern(pattern, said.as_str())),
            None => None,
        },
    }
}

/// Compiled twice: once for the search, once for the match offsets in a line. Both have to take
/// the pattern.
pub fn check_pattern(args: &FindArgs) -> (r: Option<Error>)
    ensures
        tells_refusal(
            r,
            pattern_refusal(
                args.pattern@,
                searcher_error(base_of(*args), args.ignore_case, args.word),
                regex_error(spans_of(*args), args.ignore_case),
            ),
        ),
{
    let searcher = check_searcher(base_pattern(args).as_str(), args.ignore_case, args.word);
    let spans = check_regex(spans_pattern(args).as_str(), args.ignore_case);
    refuse_pattern(args.pattern.as_str(), searcher, spans)
}

pub fn invalid_glob(glob: &str, message: String) -> (r: Error)
    ensures
        is_invalid(r, glob@, message@),
{
    Error::InvalidPattern { pattern: glob.to_owned(), message }
}

/// Relative to the working directory, the frame of every typed root and rendered path.
pub fn build_overrides(globs: &Vec<String>) -> (r: Option<Error>)
    ensures
        tells_refusal(r, globs_refusal(globs@)),
{
    if globs.len() == 0 {
        return None;
    }
    let mut i: usize = 0;
    while i < globs.len()
        invariant
            i <= globs@.len(),
            globs@.len() > 0,
            glob_refusal(globs@, i as int) is None,
        decreases globs@.len() - i,
    {
        if let Some(said) = check_glob(globs[i].as_str()) {
            proof {
                lemma_glob_refusal(globs@, i + 1, globs@.len() as int);
            }
            return Some(invalid_glob(globs[i].as_str(), said));
        }
        i = i + 1;
    }
    match check_globs(globs) {
        Some(said) => Some(invalid_glob(text::join(globs, ", ").as_str(), said)),
        None => None,
    }
}

proof fn lemma_glob_refusal(globs: Seq<String>, i: int, n: int)
    requires
        0 < i <= n,
        glob_refusal(globs, i) is Some,
    ensures
        glob_refusal(globs, n) == glob_refusal(globs, i),
    decreases n,
{
    if i < n {
        lemma_glob_refusal(globs, i, n - 1);
    }
}

/// The roots as they were typed: the working directory where none was.
pub fn typed_roots(args: &FindArgs) -> (r: Vec<String>)
    ensures
        texts(r@) == (if args.paths@.len() == 0 {
            seq!["."@]
        } else {
            texts(args.paths@)
        }),
{
    if args.paths.len() == 0 {
        let mut roots: Vec<String> = Vec::new();
        roots.push(".".to_owned());
        assert(texts(roots@) =~= seq!["."@]);
        return roots;
    }
    copy_texts(&args.paths)
}

/// How many lines of context the searcher hands over, before a hit and after it.
pub fn context_lines(args: &FindArgs) -> (r: (usize, usize))
    ensures
        r.0 == (match args.before {
            Some(before) => before,
            None => match args.context {
                Some(both) => both,
                None => 0,
            },
        }),
        r.1 == (match args.after {
            Some(after) => after,
            None => match args.context {
                Some(both) => both,
                None => 0,
            },
        }),
{
    let both = match args.context {
        Some(both) => both,
        None => 0,
    };
    (
        match args.before {
            Some(before) => before,
            None => both,
        },
        match args.after {
            Some(after) => after,
            None => both,
        },
    )
}

/// A pattern is searched for as it was typed unless it is to be taken literally, and only a search
/// for words asks for more than the pattern.
pub proof fn law_a_pattern_is_searched_for_as_typed(args: FindArgs)
    ensures
        !args.fixed_string ==> base_of(args) == args.pattern@,
        !args.word ==> spans_of(args) == base_of(args),
        args.word ==> exists|head: Seq<char>, tail: Seq<char>| #[trigger]
            (head + base_of(args) + tail) == spans_of(args) && head.len() > 0 && tail.len() > 0,
{
    if args.word {
        let (head, tail) = ("\\b{start-half}(?:"@, ")\\b{end-half}"@);
        reveal_strlit("\\b{start-half}(?:");
        reveal_strlit(")\\b{end-half}");
        assert((head + base_of(args) + tail) == spans_of(args));
        assert(head.len() > 0 && tail.len() > 0);
    }
}

/// Globs are refused exactly where one of them is no glob, and it is the first such that is named; or
/// where each is one and they are none together.
pub proof fn law_the_first_bad_glob_is_named(globs: Seq<String>, n: int)
    requires
        0 <= n <= globs.len(),
    ensures
        glob_refusal(globs, n) is None <==> forall|i: int|
            0 <= i < n ==> glob_error((#[trigger] globs[i])@) is None,
        glob_refusal(globs, n) matches Some((glob, said)) ==> exists|i: int|
            0 <= i < n && (#[trigger] globs[i])@ == glob && glob_error(globs[i]@) == Some(said)
                && forall|j: int| 0 <= j < i ==> glob_error((#[trigger] globs[j])@) is None,
    decreases n,
{
    if n > 0 {
        law_the_first_bad_glob_is_named(globs, n - 1);
        if glob_refusal(globs, n - 1) is None {
            assert(globs[n - 1] == globs[n - 1]);
        }
    }
}

/// A pattern is refused exactly where one of the engines refuses it, and it is the pattern as it was
/// typed that is named; a search is refused for its globs exactly where one of them is bad or they
/// are together.
pub proof fn law_a_search_is_refused_where_an_engine_refuses_it(
    pattern: Seq<char>,
    searcher: Option<Seq<char>>,
    spans: Option<Seq<char>>,
    globs: Seq<String>,
)
    ensures
        pattern_refusal(pattern, searcher, spans) is None <==> searcher is None && spans is None,
        pattern_refusal(pattern, searcher, spans) matches Some((named, _)) ==> named == pattern,
        globs.len() == 0 ==> globs_refusal(globs) is None,
        globs.len() > 0 ==> (globs_refusal(globs) is None <==> globs_error(texts(globs)) is None && (
        forall|i: int| 0 <= i < globs.len() ==> glob_error((#[trigger] globs[i])@) is None)),
{
    lemma_globs_are_good(globs, globs.len() as int);
}

proof fn lemma_globs_are_good(globs: Seq<String>, n: int)
    requires
        0 <= n <= globs.len(),
    ensures
        glob_refusal(globs, n) is None <==> forall|i: int|
            0 <= i < n ==> glob_error((#[trigger] globs[i])@) is None,
    decreases n,
{
    if n > 0 {
        lemma_globs_are_good(globs, n - 1);
    }
}

} // verus!
