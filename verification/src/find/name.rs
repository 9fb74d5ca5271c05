//! The name that a node of a syntax tree declares.
use vstd::prelude::*;

use crate::text;

verus! {

/// A node, with those of its children that a name may stand in: the ones in its `name`, `key` and
/// `declarator` fields, and its first child of a kind that ends in `_key`. `text` is what the node
/// covers, where that is a text.
#[derive(Debug)]
pub struct Node {
    pub kind: String,
    pub text: Option<String>,
    pub name: Option<Box<Node>>,
    pub key: Option<Box<Node>>,
    pub declarator: Option<Box<Node>>,
    pub keyed: Option<Box<Node>>,
}

/// The declarator within all declarators.
pub open spec fn innermost_declarator(node: Node) -> Node
    decreases node,
{
    match node.declarator {
        Some(inner) => innermost_declarator(*inner),
        None => node,
    }
}

/// The name within all names.
pub open spec fn innermost_name(node: Node) -> Node
    decreases node,
{
    match node.name {
        Some(inner) => innermost_name(*inner),
        None => node,
    }
}

/// The child that names the node.
pub open spec fn naming(node: Node) -> Option<Node> {
    if let Some(name) = node.name {
        Some(*name)
    } else if let Some(key) = node.key {
        Some(*key)
    } else if let Some(declarator) = node.declarator {
        Some(innermost_declarator(*declarator))
    } else if let Some(keyed) = node.keyed {
        Some(*keyed)
    } else {
        None
    }
}

/// `s` without the quotes at its two ends.
pub open spec fn without_quotes_before(s: Seq<char>) -> Seq<char>
    decreases s.len(),
{
    if s.len() > 0 && s[0] == '"' {
        without_quotes_before(s.drop_first())
    } else {
        s
    }
}

pub open spec fn without_quotes_after(s: Seq<char>) -> Seq<char>
    decreases s.len(),
{
    if s.len() > 0 && s.last() == '"' {
        without_quotes_after(s.drop_last())
    } else {
        s
    }
}

/// The name that the node declares.
pub open spec fn name_declared(node: Node) -> Option<Seq<char>> {
    match naming(node) {
        Some(child) => {
            let named = innermost_name(child);
            match named.text {
                Some(text) => Some(
                    if named.kind@ == "string"@ {
                        without_quotes_after(without_quotes_before(text@))
                    } else {
                        text@
                    },
                ),
                None => None,
            }
        },
        None => None,
    }
}

fn last_declarator<'a>(node: &'a Node) -> (r: &'a Node)
    ensures
        *r == innermost_declarator(*node),
    decreases node,
{
    match &node.declarator {
        Some(inner) => last_declarator(&**inner),
        None => node,
    }
}

fn last_name<'a>(node: &'a Node) -> (r: &'a Node)
    ensures
        *r == innermost_name(*node),
    decreases node,
{
    match &node.name {
        Some(inner) => last_name(&**inner),
        None => node,
    }
}

fn trim_quotes<'a>(s: &'a str) -> (r: &'a str)
    ensures
        r@ == without_quotes_after(without_quotes_before(s@)),
{
    let mut rest = s;
    while rest.unicode_len() > 0 && rest.get_char(0) == '"'
        invariant
            without_quotes_before(rest@) == without_quotes_before(s@),
        decreases rest@.len(),
    {
        let n = rest.unicode_len();
        let less = rest.substring_char(1, n);
        assert(less@ =~= rest@.drop_first());
        rest = less;
    }
    let ghost start = rest@;
    while rest.unicode_len() > 0 && rest.get_char(rest.unicode_len() - 1) == '"'
        invariant
            without_quotes_after(rest@) == without_quotes_after(start),
            rest@.len() <= usize::MAX,
        decreases rest@.len(),
    {
        let n = rest.unicode_len();
        let less = rest.substring_char(0, n - 1);
        assert(less@ =~= rest@.drop_last());
        rest = less;
    }
    rest
}

/// The name that the node declares, where it declares one.
pub fn declared_name(node: &Node) -> (r: Option<String>)
    ensures
        match r {
            Some(name) => name_declared(*node) == Some(name@),
            None => name_declared(*node) is None,
        },
{
    let child: &Node = match (&node.name, &node.key, &node.declarator, &node.keyed) {
        (Some(name), _, _, _) => &**name,
        (None, Some(key), _, _) => &**key,
        (None, None, Some(declarator), _) => last_declarator(&**declarator),
        (None, None, None, Some(keyed)) => &**keyed,
        (None, None, None, None) => return None,
    };
    let named = last_name(child);
    match &named.text {
        Some(text) => {
            if text::same(named.kind.as_str(), "string") {
                Some(trim_quotes(text.as_str()).to_owned())
            } else {
                Some(text.clone())
            }
        },
        None => None,
    }
}

/// Only quotes come off the two ends of a name, and all of them.
pub proof fn law_only_quotes_come_off_a_name(s: Seq<char>) -> (place: (int, int))
    ensures
        ({
            let (from, to) = place;
            &&& 0 <= from <= to <= s.len()
            &&& without_quotes_after(without_quotes_before(s)) == s.subrange(from, to)
            &&& forall|i: int| 0 <= i < from || to <= i < s.len() ==> #[trigger] s[i] == '"'
            &&& from < to ==> s[from] != '"' && s[to - 1] != '"'
        }),
{
    let from = lemma_quotes_before(s);
    let rest = s.skip(from);
    let to = lemma_quotes_after(rest);
    assert(rest.take(to) =~= s.subrange(from, from + to));
    assert forall|i: int| 0 <= i < from || from + to <= i < s.len() implies #[trigger] s[i]
        == '"' by {
        if i >= from {
            assert(rest[i - from] == '"');
        }
    }
    (from, from + to)
}

proof fn lemma_quotes_before(s: Seq<char>) -> (from: int)
    ensures
        0 <= from <= s.len(),
        without_quotes_before(s) == s.skip(from),
        forall|i: int| 0 <= i < from ==> #[trigger] s[i] == '"',
        from < s.len() ==> s[from] != '"',
    decreases s.len(),
{
    if s.len() > 0 && s[0] == '"' {
        let less = s.drop_first();
        let from = lemma_quotes_before(less);
        assert(less.skip(from) =~= s.skip(from + 1));
        assert forall|i: int| 0 <= i < from + 1 implies #[trigger] s[i] == '"' by {
            if i > 0 {
                assert(less[i - 1] == '"');
            }
        }
        from + 1
    } else {
        assert(s.skip(0) =~= s);
        0
    }
}

proof fn lemma_quotes_after(s: Seq<char>) -> (to: int)
    ensures
        0 <= to <= s.len(),
        without_quotes_after(s) == s.take(to),
        forall|i: int| to <= i < s.len() ==> #[trigger] s[i] == '"',
        to > 0 ==> s[to - 1] != '"',
    decreases s.len(),
{
    if s.len() > 0 && s.last() == '"' {
        let less = s.drop_last();
        let to = lemma_quotes_after(less);
        assert(less.take(to) =~= s.take(to));
        assert forall|i: int| to <= i < s.len() implies #[trigger] s[i] == '"' by {
            if i < s.len() - 1 {
                assert(less[i] == '"');
            }
        }
        to
    } else {
        assert(s.take(s.len() as int) =~= s);
        s.len() as int
    }
}

/// A node is named by its name, whatever else it has; by its key where it has no name; and so on. A
/// name that is no string is taken as it stands.
pub proof fn law_a_node_is_named_by_its_nearest_child(node: Node, child: Node)
    requires
        ({
            ||| node.name == Some(Box::new(child))
            ||| node.name is None && node.key == Some(Box::new(child))
            ||| node.name is None && node.key is None && node.declarator == Some(Box::new(child))
                && child.declarator is None
            ||| node.name is None && node.key is None && node.declarator is None && node.keyed
                == Some(Box::new(child))
        }),
        child.name is None,
        child.kind@ != "string"@,
    ensures
        match child.text {
            Some(said) => name_declared(node) == Some(said@),
            None => name_declared(node) is None,
        },
{
    assert(innermost_name(child) == child);
}

} // verus!
