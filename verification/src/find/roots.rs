//! Where a search starts.
use vstd::prelude::*;

use crate::find::order::{before, is_put_in_order, sort, sorted, Ranked};
use crate::find::path::{
    components, is_same, is_under, law_what_lies_below_is_listed_together, parts_listed, parts_of,
};
use crate::text;
use crate::text::{has_text, texts};

verus! {

fn under(path: &str, root: &str) -> (r: bool)
    ensures
        r == is_under(path@, root@),
{
    let names = components(path);
    let above = components(root);
    let ghost (p, q) = (parts_of(path@), parts_of(root@));
    if above.len() > names.len() {
        assert(q.len() > p.len());
        return false;
    }
    let mut i: usize = 0;
    while i < above.len()
        invariant
            p == parts_listed(names@),
            q == parts_listed(above@),
            p == parts_of(path@),
            q == parts_of(root@),
            above@.len() <= names@.len(),
            i <= above@.len(),
            forall|j: int| 0 <= j < i ==> p[j] == q[j],
        decreases above@.len() - i,
    {
        if !is_same(&names[i], &above[i]) {
            assert(p[i as int] != q[i as int]);
            assert(!q.is_prefix_of(p)) by {
                if q.is_prefix_of(p) {
                    assert(p.take(q.len() as int)[i as int] == q[i as int]);
                }
            }
            return false;
        }
        i = i + 1;
    }
    assert(p.take(q.len() as int) =~= q);
    true
}

/// Of the first `n` roots, those that no kept one contains.
pub open spec fn kept_upto(list: Seq<Ranked>, n: int) -> Seq<Ranked>
    decreases n,
{
    if n <= 0 {
        Seq::empty()
    } else {
        let kept = kept_upto(list, n - 1);
        if kept.len() > 0 && is_under(list[n - 1].path@, kept.last().path@) {
            kept
        } else {
            kept.push(list[n - 1])
        }
    }
}

pub open spec fn typed_of(list: Seq<Ranked>) -> Seq<Seq<char>> {
    list.map_values(|one: Ranked| one.typed@)
}

/// The roots to search: in order, without those that another contains.
pub open spec fn are_roots(roots: Seq<Seq<char>>, guarded: Seq<Ranked>) -> bool {
    exists|list: Seq<Ranked>| #[trigger]
        is_put_in_order(guarded, list) && roots == typed_of(
            kept_upto(list, list.len() as int),
        )
}

/// Drops every root another root contains, or a search of `.` and `src` would count the hits of
/// `src` twice. The typed form survives: a canonical root is absolute, and differs between
/// machines. `guarded` holds each root's canonical path, and how it was typed.
pub fn search_roots(guarded: Vec<Ranked>) -> (r: Vec<String>)
    ensures
        are_roots(texts(r@), guarded@),
{
    let list = sort(guarded);
    let mut roots: Vec<String> = Vec::new();
    let mut last: Option<usize> = None;
    let mut i: usize = 0;
    assert(texts(roots@) =~= typed_of(kept_upto(list@, 0)));
    while i < list.len()
        invariant
            i <= list@.len(),
            texts(roots@) == typed_of(kept_upto(list@, i as int)),
            match last {
                Some(k) => k < list@.len() && kept_upto(list@, i as int).len() > 0 && kept_upto(
                    list@,
                    i as int,
                ).last() == list@[k as int],
                None => kept_upto(list@, i as int).len() == 0,
            },
        decreases list@.len() - i,
    {
        let ghost kept = kept_upto(list@, i as int);
        let inside = match last {
            Some(k) => under(list[i].path.as_str(), list[k].path.as_str()),
            None => false,
        };
        if !inside {
            let ghost had = roots@;
            roots.push(list[i].typed.clone());
            last = Some(i);
            assert(texts(roots@) =~= texts(had).push(list@[i as int].typed@));
            assert(typed_of(kept.push(list@[i as int])) =~= typed_of(kept).push(
                list@[i as int].typed@,
            ));
        }
        i = i + 1;
    }
    roots
}

/// The kept roots stand in the list's order.
proof fn lemma_kept_sorted(list: Seq<Ranked>, n: int)
    requires
        sorted(list),
        0 <= n <= list.len(),
    ensures
        sorted(kept_upto(list, n)),
        forall|i: int|
            0 <= i < kept_upto(list, n).len() ==> exists|k: int|
                0 <= k < n && #[trigger] list[k] == #[trigger] kept_upto(list, n)[i],
        forall|i: int|
            0 <= i < kept_upto(list, n).len() - 1 ==> !is_under(
                kept_upto(list, n)[i + 1].path@,
                (#[trigger] kept_upto(list, n)[i]).path@,
            ),
    decreases n,
{
    if n > 0 {
        lemma_kept_sorted(list, n - 1);
        let kept = kept_upto(list, n - 1);
        let now = kept_upto(list, n);
        if now != kept {
            assert forall|i: int, j: int| 0 <= i < j < now.len() implies before(now[i], now[j]) by {
                if j == kept.len() {
                    let k = choose|k: int| 0 <= k < n - 1 && #[trigger] list[k] == kept[i];
                    assert(before(list[k], list[n - 1]));
                }
            }
            assert forall|i: int| 0 <= i < now.len() implies exists|k: int|
                0 <= k < n && #[trigger] list[k] == #[trigger] now[i] by {
                if i < kept.len() {
                    let k = choose|k: int| 0 <= k < n - 1 && #[trigger] list[k] == kept[i];
                    assert(list[k] == now[i]);
                } else {
                    assert(list[n - 1] == now[i]);
                }
            }
        } else {
            assert forall|i: int| 0 <= i < now.len() implies exists|k: int|
                0 <= k < n && #[trigger] list[k] == #[trigger] now[i] by {
                let k = choose|k: int| 0 <= k < n - 1 && #[trigger] list[k] == kept[i];
                assert(list[k] == now[i]);
            }
        }
    }
}

/// No root that is searched lies below another one, so no hit is counted twice.
pub proof fn law_no_kept_root_contains_another(list: Seq<Ranked>, i: int, j: int)
    requires
        sorted(list),
        forall|k: int| 0 <= k < list.len() ==> (#[trigger] list[k]).rank == 0,
        0 <= i < j < kept_upto(list, list.len() as int).len(),
    ensures
        ({
            let kept = kept_upto(list, list.len() as int);
            !is_under(kept[j].path@, kept[i].path@)
        }),
    decreases j,
{
    let kept = kept_upto(list, list.len() as int);
    lemma_kept_sorted(list, list.len() as int);
    let a = parts_of(kept[i].path@);
    let c = parts_of(kept[j].path@);
    assert(!is_under(kept[i + 1].path@, kept[i].path@));
    if is_under(kept[j].path@, kept[i].path@) && i < j - 1 {
        law_no_kept_root_contains_another(list, i, j - 1);
        let b = parts_of(kept[j - 1].path@);
        let ka = choose|k: int| 0 <= k < list.len() && #[trigger] list[k] == kept[i];
        let kb = choose|k: int| 0 <= k < list.len() && #[trigger] list[k] == kept[j - 1];
        let kc = choose|k: int| 0 <= k < list.len() && #[trigger] list[k] == kept[j];
        assert(list[ka].rank == 0 && list[kb].rank == 0 && list[kc].rank == 0);
        assert(before(kept[i], kept[j - 1]));
        assert(before(kept[j - 1], kept[j]));
        law_what_lies_below_is_listed_together(a, b, c);
    }
}

/// Everything that was asked for is searched: each root is kept or lies below one that is.
pub proof fn law_every_root_is_searched(list: Seq<Ranked>, n: int, k: int)
    requires
        0 <= k < n <= list.len(),
    ensures
        exists|i: int|
            0 <= i < kept_upto(list, n).len() && is_under(
                list[k].path@,
                (#[trigger] kept_upto(list, n)[i]).path@,
            ),
    decreases n,
{
    let kept = kept_upto(list, n - 1);
    let now = kept_upto(list, n);
    if k < n - 1 {
        law_every_root_is_searched(list, n - 1, k);
        let i = choose|i: int|
            0 <= i < kept.len() && is_under(list[k].path@, (#[trigger] kept[i]).path@);
        assert(now[i] == kept[i]);
    } else {
        let last = now.len() - 1;
        assert(is_under(list[k].path@, now[last].path@));
    }
}

/// `root` is a beginning of `path`, name by name.
pub open spec fn begins(path: Seq<String>, root: Seq<String>) -> bool {
    texts(root).is_prefix_of(texts(path))
}

/// The longest of the first `n` roots that `path` begins with, the last of equal ones.
pub open spec fn root_of(path: Seq<String>, roots: Seq<Vec<String>>, n: int) -> Option<int>
    decreases n,
{
    if n <= 0 {
        None
    } else {
        let best = root_of(path, roots, n - 1);
        if !begins(path, roots[n - 1]@) {
            best
        } else if best is Some && roots[best->0]@.len() > roots[n - 1]@.len() {
            best
        } else {
            Some(n - 1)
        }
    }
}

fn starts_names(path: &Vec<String>, root: &Vec<String>) -> (r: bool)
    ensures
        r == begins(path@, root@),
{
    if root.len() > path.len() {
        return false;
    }
    let mut i: usize = 0;
    while i < root.len()
        invariant
            root@.len() <= path@.len(),
            i <= root@.len(),
            forall|j: int| 0 <= j < i ==> (#[trigger] root@[j])@ == path@[j]@,
        decreases root@.len() - i,
    {
        if !text::same(root[i].as_str(), path[i].as_str()) {
            assert(!begins(path@, root@)) by {
                if begins(path@, root@) {
                    assert(texts(root@)[i as int] == texts(path@)[i as int]);
                }
            }
            return false;
        }
        i = i + 1;
    }
    assert(texts(path@).take(root@.len() as int) =~= texts(root@));
    true
}

/// Longest match wins: one typed root can begin another's spelling (`src` and `src/../lib`). Paths
/// are given by the names they are made of.
pub fn root_index(path: &Vec<String>, roots: &Vec<Vec<String>>) -> (r: usize)
    ensures
        r == (match root_of(path@, roots@, roots@.len() as int) {
            Some(i) => i,
            None => 0,
        }),
{
    let mut best: Option<usize> = None;
    let mut i: usize = 0;
    while i < roots.len()
        invariant
            i <= roots@.len(),
            match best {
                Some(b) => b < i && root_of(path@, roots@, i as int) == Some(b as int),
                None => root_of(path@, roots@, i as int) is None,
            },
        decreases roots@.len() - i,
    {
        if starts_names(path, &roots[i]) {
            best = match best {
                Some(b) if roots[b].len() > roots[i].len() => Some(b),
                _ => Some(i),
            };
        }
        i = i + 1;
    }
    match best {
        Some(b) => b,
        None => 0,
    }
}

/// One of the names is `.git`.
pub fn in_git_dir(names: &Vec<String>) -> (r: bool)
    ensures
        r == has_text(names@, ".git"@),
{
    text::holds(names, ".git")
}

/// A path without the empty and the `.` components that it begins with.
pub open spec fn skip_start(path: Seq<char>) -> Seq<char>
    decreases path.len(),
{
    if path.len() == 0 || (path.len() == 1 && path[0] == '.') {
        Seq::empty()
    } else if path[0] == '/' {
        skip_start(path.skip(1))
    } else if path[0] == '.' && path[1] == '/' {
        skip_start(path.skip(2))
    } else {
        path
    }
}

/// A path without the empty and the `.` components that it ends with.
pub open spec fn skip_end(path: Seq<char>) -> Seq<char>
    decreases path.len(),
{
    if path.len() == 0 || (path.len() == 1 && path[0] == '.') {
        Seq::empty()
    } else if path.last() == '/' {
        skip_end(path.drop_last())
    } else if path.last() == '.' && path[path.len() - 2] == '/' {
        skip_end(path.take(path.len() - 2))
    } else {
        path
    }
}

/// A path starts from the current directory and says so.
pub open spec fn starts_here(path: Seq<char>) -> bool {
    path.len() > 0 && path[0] == '.' && (path.len() == 1 || path[1] == '/')
}

/// A path as it is shown: relative to the working directory without saying so.
pub open spec fn shown_path(path: Seq<char>) -> Seq<char> {
    if starts_here(path) {
        skip_end(skip_start(path.skip(1)))
    } else {
        path
    }
}

pub fn display_path(path: &str) -> (r: String)
    ensures
        r@ == shown_path(path@),
{
    let n = path.unicode_len();
    if n == 0 || path.get_char(0) != '.' || (n > 1 && path.get_char(1) != '/') {
        return path.to_owned();
    }
    let ghost all = path@.skip(1);
    let mut from: usize = 1;
    while from < n
        invariant
            1 <= from <= n == path@.len(),
            skip_start(all) == skip_start(path@.skip(from as int)),
        ensures
            from <= n,
            skip_start(all) == path@.skip(from as int),
        decreases n - from,
    {
        let ghost rest = path@.skip(from as int);
        let c = path.get_char(from);
        if c == '/' {
            assert(rest.skip(1) =~= path@.skip(from + 1));
            from = from + 1;
        } else if c == '.' && from + 1 == n {
            assert(rest.len() == 1 && rest[0] == '.');
            assert(path@.skip(n as int) =~= Seq::empty());
            from = n;
        } else if c == '.' && path.get_char(from + 1) == '/' {
            assert(rest.skip(2) =~= path@.skip(from + 2));
            from = from + 2;
        } else {
            assert(rest[0] == c);
            assert(c == '.' ==> rest[1] == path@[from + 1]);
            break;
        }
    }
    let ghost kept = path@.skip(from as int);
    let mut to: usize = n;
    assert(path@.subrange(from as int, to as int) =~= kept);
    while to > from
        invariant
            from <= to <= n == path@.len(),
            skip_end(kept) == skip_end(path@.subrange(from as int, to as int)),
        ensures
            from <= to <= n,
            skip_end(kept) == path@.subrange(from as int, to as int),
        decreases to,
    {
        let ghost rest = path@.subrange(from as int, to as int);
        let c = path.get_char(to - 1);
        if c == '/' {
            assert(rest.drop_last() =~= path@.subrange(from as int, to - 1));
            to = to - 1;
        } else if c == '.' && from + 1 == to {
            assert(rest.len() == 1 && rest[0] == '.');
            assert(path@.subrange(from as int, from as int) =~= Seq::empty());
            to = from;
        } else if c == '.' && path.get_char(to - 2) == '/' {
            assert(rest.take(rest.len() - 2) =~= path@.subrange(from as int, to - 2));
            to = to - 2;
        } else {
            assert(rest.last() == c);
            assert(c == '.' ==> rest[rest.len() - 2] == path@[to - 2]);
            break;
        }
    }
    path.substring_char(from, to).to_owned()
}

/// A path under the working directory is shown by its names alone, and every other path as it is.
pub proof fn law_a_path_is_shown_by_its_names(path: Seq<char>)
    ensures
        !(path.len() > 0 && path[0] == '.' && (path.len() == 1 || path[1] == '/')) ==> shown_path(
            path,
        ) == path,
        path.len() > 0 && path[0] != '/' && path[0] != '.' && path.last() != '/' && path.last()
            != '.' ==> shown_path(seq!['.', '/'] + path) == path,
{
    let spelled = seq!['.', '/'] + path;
    if path.len() > 0 && path[0] != '/' && path[0] != '.' && path.last() != '/' && path.last()
        != '.' {
        assert(starts_here(spelled));
        assert(spelled.skip(1) =~= seq!['/'] + path);
        assert((seq!['/'] + path).skip(1) =~= path);
        assert(skip_start(path) == path);
        assert(skip_start(seq!['/'] + path) == path);
        assert(skip_end(path) == path);
    }
}

/// A path belongs to the longest of the roots that it begins with.
pub proof fn law_a_path_belongs_to_its_longest_root(
    path: Seq<String>,
    roots: Seq<Vec<String>>,
    n: int,
)
    requires
        0 <= n <= roots.len(),
    ensures
        root_of(path, roots, n) is None <==> forall|i: int|
            0 <= i < n ==> !begins(path, (#[trigger] roots[i])@),
        root_of(path, roots, n) matches Some(best) ==> 0 <= best < n && begins(path, roots[best]@)
            && forall|i: int|
            0 <= i < n && begins(path, (#[trigger] roots[i])@) ==> roots[i]@.len()
                <= roots[best]@.len(),
    decreases n,
{
    if n > 0 {
        law_a_path_belongs_to_its_longest_root(path, roots, n - 1);
        assert(roots[n - 1] == roots[n - 1]);
    }
}

} // verus!
