//! Commands as a shell reads them, as far as they are looked at here.
use vstd::prelude::*;

use crate::text;
use crate::text::{first_place, texts, trimmed_start, words_of};

verus! {

/// What stands after the last slash of a path.
pub open spec fn tail_of(path: Seq<char>) -> Seq<char>
    decreases path.len(),
{
    if path.len() == 0 || path.last() == '/' {
        Seq::empty()
    } else {
        tail_of(path.drop_last()).push(path.last())
    }
}

/// The last name in a path: slashes and dots at its end name nothing, and a path that ends in a
/// step up has none.
pub open spec fn name_of(path: Seq<char>) -> Option<Seq<char>>
    decreases path.len(),
{
    if path.len() == 0 {
        None
    } else if path.last() == '/' || tail_of(path) == seq!['.'] {
        name_of(path.drop_last())
    } else if tail_of(path) == seq!['.', '.'] {
        None
    } else {
        Some(tail_of(path))
    }
}

/// The path names the program `lets`.
pub open spec fn is_lets(path: Seq<char>) -> bool {
    name_of(path) == Some("lets"@)
}

fn tail(path: &str) -> (r: &str)
    ensures
        r@ == tail_of(path@),
{
    let n = path.unicode_len();
    let mut i: usize = n;
    assert(path@.take(n as int) =~= path@);
    assert(path@.subrange(n as int, n as int) =~= Seq::empty());
    assert(tail_of(path@) =~= tail_of(path@) + Seq::<char>::empty());
    while i > 0 && path.get_char(i - 1) != '/'
        invariant
            i <= n == path@.len(),
            tail_of(path@) == tail_of(path@.take(i as int)) + path@.subrange(i as int, n as int),
        decreases i,
    {
        proof {
            let head = path@.take(i as int);
            assert(head.drop_last() =~= path@.take(i - 1));
            assert(tail_of(head) + path@.subrange(i as int, n as int) =~= tail_of(
                path@.take(i - 1),
            ) + path@.subrange(i - 1, n as int));
        }
        i = i - 1;
    }
    assert(tail_of(path@.take(i as int)) =~= Seq::empty());
    let r = path.substring_char(i, n);
    assert(r@ =~= tail_of(path@));
    r
}

/// The last name in a path.
pub fn path_name(path: &str) -> (r: Option<&str>)
    ensures
        match r {
            Some(name) => name_of(path@) == Some(name@),
            None => name_of(path@) is None,
        },
{
    let mut rest = path;
    loop
        invariant
            name_of(rest@) == name_of(path@),
        decreases rest@.len(),
    {
        let n = rest.unicode_len();
        if n == 0 {
            return None;
        }
        let name = tail(rest);
        let dot = text::same(name, ".");
        proof {
            reveal_strlit(".");
            reveal_strlit("..");
            assert("."@ =~= seq!['.']);
            assert(".."@ =~= seq!['.', '.']);
        }
        if rest.get_char(n - 1) == '/' || dot {
            let less = rest.substring_char(0, n - 1);
            assert(less@ =~= rest@.drop_last());
            rest = less;
        } else if text::same(name, "..") {
            return None;
        } else {
            return Some(name);
        }
    }
}

/// The place of the last dot of a name.
pub open spec fn last_dot(name: Seq<char>, n: int) -> int
    decreases n,
{
    if n <= 0 {
        -1
    } else if name[n - 1] == '.' {
        n - 1
    } else {
        last_dot(name, n - 1)
    }
}

/// What stands after the last dot of a path's name, where something stands before it.
pub open spec fn extension_of(path: Seq<char>) -> Option<Seq<char>> {
    match name_of(path) {
        Some(name) => {
            let dot = last_dot(name, name.len() as int);
            if dot > 0 {
                Some(name.skip(dot + 1))
            } else {
                None
            }
        },
        None => None,
    }
}

pub fn extension(path: &str) -> (r: Option<&str>)
    ensures
        match r {
            Some(ext) => extension_of(path@) == Some(ext@),
            None => extension_of(path@) is None,
        },
{
    match path_name(path) {
        Some(name) => {
            let n = name.unicode_len();
            let mut i: usize = n;
            while i > 0 && name.get_char(i - 1) != '.'
                invariant
                    i <= n == name@.len(),
                    last_dot(name@, n as int) == last_dot(name@, i as int),
                decreases i,
            {
                i = i - 1;
            }
            if i > 1 {
                let ext = name.substring_char(i, n);
                assert(ext@ =~= name@.skip(i as int));
                Some(ext)
            } else {
                None
            }
        },
        None => None,
    }
}

/// Whether the path names the program `lets`.
pub fn names_lets(path: &str) -> (r: bool)
    ensures
        r == is_lets(path@),
{
    match path_name(path) {
        Some(name) => text::same(name, "lets"),
        None => false,
    }
}

/// A place where a command after `cd` begins: the first of the separators.
pub open spec fn earlier(a: Option<(int, int)>, b: Option<(int, int)>) -> Option<(int, int)> {
    match (a, b) {
        (Some(x), Some(y)) => if y.0 < x.0 {
            b
        } else {
            a
        },
        (None, _) => b,
        (_, None) => a,
    }
}

pub open spec fn place_of(rest: Seq<char>, sep: Seq<char>) -> Option<(int, int)> {
    match first_place(rest, sep, 0) {
        Some(at) => Some((at, sep.len() as int)),
        None => None,
    }
}

/// The first separator after `cd`, and its length.
pub open spec fn cd_end(rest: Seq<char>) -> Option<(int, int)> {
    earlier(earlier(place_of(rest, "&&"@), place_of(rest, ";"@)), place_of(rest, "\n"@))
}

/// A command without the `cd` it may begin with.
pub open spec fn without_cd(command: Seq<char>) -> Seq<char> {
    let all = trimmed_start(command);
    if "cd "@.is_prefix_of(all) {
        let rest = all.skip("cd "@.len() as int);
        match cd_end(rest) {
            Some((at, len)) => trimmed_start(rest.skip(at + len)),
            None => all,
        }
    } else {
        all
    }
}

fn place(rest: &str, sep: &str) -> (r: Option<(usize, usize)>)
    ensures
        match r {
            Some((at, len)) => place_of(rest@, sep@) == Some((at as int, len as int)) && at + len
                <= rest@.len(),
            None => place_of(rest@, sep@) is None,
        },
{
    match text::find(rest, sep) {
        Some(at) => Some((at, sep.unicode_len())),
        None => None,
    }
}

fn first_of(a: Option<(usize, usize)>, b: Option<(usize, usize)>) -> (r: Option<(usize, usize)>)
    ensures
        r == a || r == b,
        match r {
            Some((at, len)) => earlier(
                match a {
                    Some((x, y)) => Some((x as int, y as int)),
                    None => None,
                },
                match b {
                    Some((x, y)) => Some((x as int, y as int)),
                    None => None,
                },
            ) == Some((at as int, len as int)),
            None => a is None && b is None,
        },
{
    match (a, b) {
        (Some(x), Some(y)) => if y.0 < x.0 {
            b
        } else {
            a
        },
        (None, _) => b,
        (_, None) => a,
    }
}

pub fn strip_leading_cd(command: &str) -> (r: &str)
    ensures
        r@ == without_cd(command@),
{
    let all = text::trim_start(command);
    let rest = match text::strip_prefix(all, "cd ") {
        Some(rest) => {
            assert(all@.skip("cd "@.len() as int) =~= rest@);
            assert("cd "@.is_prefix_of(all@)) by {
                assert(all@.take("cd "@.len() as int) =~= "cd "@);
            }
            rest
        },
        None => return all,
    };
    let either = first_of(place(rest, "&&"), place(rest, ";"));
    match first_of(either, place(rest, "\n")) {
        Some((at, len)) => {
            let n = rest.unicode_len();
            let after = rest.substring_char(at + len, n);
            assert(after@ =~= rest@.skip(at + len));
            text::trim_start(after)
        },
        None => all,
    }
}

/// A call of `lets` as a command makes it: the verb, and the words after it.
pub open spec fn call_of(command: Seq<char>) -> Option<(Seq<char>, Seq<Seq<char>>)> {
    let words = words_of(without_cd(command));
    if words.len() >= 2 && is_lets(words[0]) && !(words[1].len() > 0 && words[1][0] == '-') {
        Some((words[1], words.skip(2)))
    } else {
        None
    }
}

/// Whether a word is a flag.
pub fn is_flag(word: &str) -> (r: bool)
    ensures
        r == (word@.len() > 0 && word@[0] == '-'),
{
    word.unicode_len() > 0 && word.get_char(0) == '-'
}

pub fn lets_call(command: &str) -> (r: Option<(String, Vec<String>)>)
    ensures
        match r {
            Some((verb, args)) => call_of(command@) == Some((verb@, texts(args@))),
            None => call_of(command@) is None,
        },
{
    let mut words = text::words(strip_leading_cd(command));
    let ghost all = words_of(without_cd(command@));
    assert(texts(words@).len() == words@.len());
    if words.len() < 2 {
        return None;
    }
    assert(texts(words@)[0] == words@[0]@);
    assert(texts(words@)[1] == words@[1]@);
    if !names_lets(words[0].as_str()) || is_flag(words[1].as_str()) {
        return None;
    }
    let args = words.split_off(2);
    assert(texts(args@) =~= all.skip(2));
    let verb = words.remove(1);
    Some((verb, args))
}

/// The command runs `lets` with just these words.
pub open spec fn runs_with(command: Seq<char>, args: Seq<Seq<char>>) -> bool {
    let words = words_of(command);
    words.len() > 0 && is_lets(words[0]) && words.skip(1) == args
}

pub fn runs_lets_with(command: &str, args: &Vec<String>) -> (r: bool)
    ensures
        r == runs_with(command@, texts(args@)),
{
    let words = text::words(command);
    let ghost all = words_of(command@);
    let ghost wanted = texts(args@);
    assert(texts(words@).len() == words@.len());
    if words.len() == 0 {
        return false;
    }
    assert(texts(words@)[0] == words@[0]@);
    if !names_lets(words[0].as_str()) {
        return false;
    }
    if words.len() - 1 != args.len() {
        assert(all.skip(1).len() != wanted.len());
        return false;
    }
    let mut i: usize = 0;
    while i < args.len()
        invariant
            i <= args@.len() == words@.len() - 1,
            all == texts(words@),
            all == words_of(command@),
            wanted == texts(args@),
            forall|k: int| 0 <= k < i ==> all[k + 1] == #[trigger] wanted[k],
        decreases args@.len() - i,
    {
        if !text::same(words[i + 1].as_str(), args[i].as_str()) {
            proof {
                assert(all[i + 1] == words@[i + 1]@);
                assert(wanted[i as int] == args@[i as int]@);
                assert(all.skip(1)[i as int] != wanted[i as int]);
            }
            return false;
        }
        assert(all[i + 1] == words@[i + 1]@);
        assert(wanted[i as int] == args@[i as int]@);
        i = i + 1;
    }
    assert(all.skip(1) =~= wanted);
    true
}

/// A name is no longer than its path.
pub proof fn lemma_name_len(path: Seq<char>)
    ensures
        name_of(path) matches Some(name) ==> name.len() <= path.len(),
    decreases path.len(),
{
    lemma_tail_len(path);
    if path.len() > 0 {
        lemma_name_len(path.drop_last());
    }
}

proof fn lemma_tail_len(path: Seq<char>)
    ensures
        tail_of(path).len() <= path.len(),
    decreases path.len(),
{
    if path.len() > 0 {
        lemma_tail_len(path.drop_last());
    }
}

/// A bare name names itself.
pub proof fn lemma_lets_is_lets()
    ensures
        is_lets("lets"@),
{
    reveal_strlit("lets");
    reveal_with_fuel(tail_of, 6);
    let name = "lets"@;
    assert(name.drop_last().drop_last().drop_last().drop_last() =~= Seq::empty());
    assert(tail_of(name) =~= name);
    assert(name.last() == 's');
    assert(tail_of(name).len() == 4);
}

/// What stands after the last slash holds none, and a slash stands before it if anything does.
pub proof fn law_a_tail_stands_after_the_last_slash(path: Seq<char>)
    ensures
        tail_of(path).is_suffix_of(path),
        !tail_of(path).contains('/'),
        tail_of(path).len() < path.len() ==> path[path.len() - tail_of(path).len() - 1] == '/',
    decreases path.len(),
{
    let tail = tail_of(path);
    if path.len() > 0 && path.last() != '/' {
        let less = path.drop_last();
        law_a_tail_stands_after_the_last_slash(less);
        let before = tail_of(less);
        assert(path.subrange(path.len() - tail.len(), path.len() as int) =~= less.subrange(
            less.len() - before.len(),
            less.len() as int,
        ).push(path.last()));
        if tail.contains('/') {
            let i = choose|i: int| 0 <= i < tail.len() && tail[i] == '/';
            assert(before[i] == '/');
        }
    } else {
        assert(path.subrange(path.len() as int, path.len() as int) =~= tail);
    }
}

proof fn lemma_tail_is(dir: Seq<char>, name: Seq<char>)
    requires
        dir.len() == 0 || dir.last() == '/',
        !name.contains('/'),
    ensures
        tail_of(dir + name) == name,
    decreases name.len(),
{
    let path = dir + name;
    if name.len() > 0 {
        let less = name.drop_last();
        if less.contains('/') {
            let i = choose|i: int| 0 <= i < less.len() && less[i] == '/';
            assert(name[i] == '/');
        }
        lemma_tail_is(dir, less);
        assert(path.drop_last() =~= dir + less);
        assert(name[name.len() - 1] == path.last());
        assert(less.push(name.last()) =~= name);
    } else {
        assert(path =~= dir);
        assert(name =~= Seq::empty());
    }
}

/// A path is named by its last name, wherever it stands; a slash at its end and a dot after it name
/// nothing.
pub proof fn law_a_path_is_named_by_its_last_name(dir: Seq<char>, name: Seq<char>)
    requires
        dir.len() == 0 || dir.last() == '/',
        name.len() > 0,
        !name.contains('/'),
        name != seq!['.'],
        name != seq!['.', '.'],
    ensures
        name_of(dir + name) == Some(name),
        name_of((dir + name).push('/')) == Some(name),
        name_of((dir + name).push('/').push('.')) == Some(name),
{
    let path = dir + name;
    lemma_tail_is(dir, name);
    assert(path.last() == name.last() && name.contains(name.last()));
    assert(path.push('/').drop_last() =~= path);
    let dotted = path.push('/').push('.');
    assert(dotted.drop_last() =~= path.push('/'));
    assert(!seq!['.'].contains('/'));
    lemma_tail_is(path.push('/'), seq!['.']);
    assert(path.push('/') + seq!['.'] =~= dotted);
}

proof fn lemma_last_dot(name: Seq<char>, n: int)
    requires
        0 <= n <= name.len(),
    ensures
        -1 <= last_dot(name, n) < n || n == 0,
        last_dot(name, n) >= -1,
        last_dot(name, n) >= 0 ==> name[last_dot(name, n)] == '.',
        forall|i: int| last_dot(name, n) < i < n ==> name[i] != '.',
    decreases n,
{
    if n > 0 && name[n - 1] != '.' {
        lemma_last_dot(name, n - 1);
    }
}

/// A name with an extension is something, a dot, and the extension, which holds no dot; a name
/// without one has no dot but at its front.
pub proof fn law_an_extension_follows_the_last_dot(path: Seq<char>, name: Seq<char>)
    requires
        name_of(path) == Some(name),
    ensures
        match extension_of(path) {
            Some(ext) => !ext.contains('.') && exists|stem: Seq<char>|
                stem.len() > 0 && name == #[trigger] stem.push('.') + ext,
            None => forall|i: int| 0 < i < name.len() ==> #[trigger] name[i] != '.',
        },
{
    let n = name.len() as int;
    lemma_last_dot(name, n);
    let dot = last_dot(name, n);
    if let Some(ext) = extension_of(path) {
        let stem = name.take(dot);
        assert(name =~= stem.push('.') + ext);
        if ext.contains('.') {
            let i = choose|i: int| 0 <= i < ext.len() && ext[i] == '.';
            assert(name[dot + 1 + i] == '.');
        }
    }
}

proof fn lemma_separator(body: Seq<char>, sep: Seq<char>, n: int)
    requires
        sep.len() > 0,
        0 <= n < body.len(),
        forall|j: int| 0 <= j < n ==> #[trigger] body[j] != sep[0],
    ensures
        text::stands_at(body, sep, n) ==> place_of(body, sep) == Some((n, sep.len() as int)),
        body[n] != sep[0] ==> (place_of(body, sep) matches Some((at, _)) ==> at > n),
{
    text::lemma_first_place(body, sep, 0);
    assert forall|j: int| 0 <= j < n || (j == n && body[n] != sep[0]) implies !#[trigger]
        text::stands_at(body, sep, j) by {
        if text::stands_at(body, sep, j) {
            assert(body.subrange(j, j + sep.len())[0] == body[j]);
        }
    }
}

/// A command that goes to a directory first runs what follows: whatever ends the step, the rest is
/// what is read.
pub proof fn law_what_follows_a_change_of_directory_is_run(
    dir: Seq<char>,
    sep: Seq<char>,
    rest: Seq<char>,
)
    requires
        forall|i: int|
            0 <= i < dir.len() ==> #[trigger] dir[i] != '&' && dir[i] != ';' && dir[i] != '\n',
        sep == "&&"@ || sep == ";"@ || sep == "\n"@,
    ensures
        without_cd("cd "@ + dir + sep + rest) == trimmed_start(rest),
{
    reveal_strlit("cd ");
    reveal_strlit("&&");
    reveal_strlit(";");
    reveal_strlit("\n");
    let command = "cd "@ + dir + sep + rest;
    let from = text::law_leading_white_space_comes_off(command);
    assert(command[0] == 'c');
    assert(from == 0);
    assert(command.skip(0) =~= command);
    assert(command.subrange(0, 3) =~= "cd "@);
    let body = command.skip(3);
    assert(body =~= dir + sep + rest);
    let n = dir.len() as int;
    assert(body[n] == sep[0]);
    assert(body.subrange(n, n + sep.len()) =~= sep);
    assert(text::stands_at(body, sep, n));
    assert forall|j: int| 0 <= j < n implies #[trigger] body[j] != '&' && body[j] != ';' && body[j]
        != '\n' by {
        assert(body[j] == dir[j]);
    }
    lemma_separator(body, "&&"@, n);
    lemma_separator(body, ";"@, n);
    lemma_separator(body, "\n"@, n);
    assert(cd_end(body) == Some((n, sep.len() as int)));
    assert(body.skip(n + sep.len()) =~= rest);
}

/// A command calls `lets` where its first word names the program and its second is no flag; the verb
/// and the words after it are what was typed.
pub proof fn law_a_call_is_the_words_of_its_command(command: Seq<char>)
    ensures
        match call_of(command) {
            Some((verb, args)) => exists|program: Seq<char>|
                words_of(without_cd(command)) == #[trigger] seq![program, verb] + args && name_of(
                    program,
                ) == Some("lets"@) && !(verb.len() > 0 && verb[0] == '-'),
            None => {
                let words = words_of(without_cd(command));
                words.len() < 2 || name_of(words[0]) != Some("lets"@) || (words[1].len() > 0
                    && words[1][0] == '-')
            },
        },
{
    let words = words_of(without_cd(command));
    if let Some((verb, args)) = call_of(command) {
        assert(words =~= seq![words[0], verb] + args);
    }
}

} // verus!
