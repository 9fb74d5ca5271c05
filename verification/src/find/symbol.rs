//! The definition or the section that holds a hit.
use vstd::prelude::*;

use crate::find::args::{spans_of, spans_pattern, FindArgs};
use crate::find::expand::EXPAND_SYMBOL_MAX_LINES;
use crate::pattern::{check_regex, find_matches, regex_error, regex_matches};
use crate::text;
use crate::text::{byte_len, contains_text, is_space, trimmed, trimmed_start};

verus! {

pub open spec fn holds(span: (usize, usize), hit: int) -> bool {
    span.0 <= hit <= span.1
}

/// `a` comes before `b`: it is shorter, or as long and starts earlier.
pub open spec fn is_smaller(a: (usize, usize), b: (usize, usize)) -> bool {
    a.1 - a.0 < b.1 - b.0 || (a.1 - a.0 == b.1 - b.0 && a.0 <= b.0)
}

/// `found` is the smallest of the spans that hold the hit, where one does.
pub open spec fn is_smallest(
    found: Option<(usize, usize)>,
    spans: Seq<(usize, usize)>,
    hit: int,
) -> bool {
    match found {
        Some(span) => {
            &&& spans.contains(span)
            &&& holds(span, hit)
            &&& forall|i: int|
                0 <= i < spans.len() && holds(#[trigger] spans[i], hit) ==> is_smaller(
                    span,
                    spans[i],
                )
        },
        None => forall|i: int| 0 <= i < spans.len() ==> !holds(#[trigger] spans[i], hit),
    }
}

/// One of the spans holds the hit.
pub open spec fn some_holds(spans: Seq<(usize, usize)>, hit: int) -> bool {
    exists|i: int| 0 <= i < spans.len() && holds(#[trigger] spans[i], hit)
}

pub fn smallest(spans: &Vec<(usize, usize)>, hit: usize) -> (r: Option<(usize, usize)>)
    ensures
        is_smallest(r, spans@, hit as int),
        r is Some <==> some_holds(spans@, hit as int),
{
    let mut best: Option<(usize, usize)> = None;
    let mut i: usize = 0;
    while i < spans.len()
        invariant
            i <= spans@.len(),
            match best {
                Some(span) => {
                    &&& spans@.contains(span)
                    &&& some_holds(spans@, hit as int)
                    &&& holds(span, hit as int)
                    &&& forall|k: int|
                        0 <= k < i && holds(#[trigger] spans@[k], hit as int) ==> is_smaller(
                            span,
                            spans@[k],
                        )
                },
                None => forall|k: int| 0 <= k < i ==> !holds(#[trigger] spans@[k], hit as int),
            },
        decreases spans@.len() - i,
    {
        let (start, end) = spans[i];
        if start <= hit && hit <= end {
            assert(spans@[i as int] == (start, end));
            assert(spans@.contains((start, end)));
            assert(holds(spans@[i as int], hit as int));
            best = match best {
                Some((a, b)) if b - a < end - start || (b - a == end - start && a <= start) => Some(
                    (a, b),
                ),
                _ => Some((start, end)),
            };
        }
        i = i + 1;
    }
    best
}

/// The names of the nodes that a definition may be, in one grammar or another.
pub open spec fn is_definition_like(kind: Seq<char>) -> bool {
    ||| contains_text(kind, "declaration"@)
    ||| contains_text(kind, "definition"@)
    ||| contains_text(kind, "item"@)
    ||| contains_text(kind, "spec"@)
    ||| contains_text(kind, "pair"@)
    ||| contains_text(kind, "table"@)
    ||| contains_text(kind, "method"@)
    ||| contains_text(kind, "class"@)
    ||| contains_text(kind, "module"@)
}

/// Every symbol query's definition node is named one of these ways.
pub fn definition_like(kind: &str) -> (r: bool)
    ensures
        r == is_definition_like(kind@),
{
    text::contains(kind, "declaration") || text::contains(kind, "definition") || text::contains(
        kind,
        "item",
    ) || text::contains(kind, "spec") || text::contains(kind, "pair") || text::contains(
        kind,
        "table",
    ) || text::contains(kind, "method") || text::contains(kind, "class") || text::contains(
        kind,
        "module",
    )
}

/// The first match, from the one at `i` on, that covers anything.
pub open spec fn first_covering(found: Seq<(usize, usize)>, i: int) -> Option<(usize, usize)>
    decreases found.len() - i,
{
    if i < 0 || i >= found.len() {
        None
    } else if found[i].0 != found[i].1 {
        Some(found[i])
    } else {
        first_covering(found, i + 1)
    }
}

/// Where a hit stands in its line: the first match that covers anything, else all of the line but
/// its indentation.
pub open spec fn place_in(line: Seq<char>, found: Seq<(usize, usize)>) -> (nat, nat) {
    match first_covering(found, 0) {
        Some(place) => (place.0 as nat, place.1 as nat),
        None => ((byte_len(line) - byte_len(trimmed_start(line))) as nat, byte_len(line)),
    }
}

pub fn hit_place(line: &str, found: &Vec<(usize, usize)>) -> (r: (usize, usize))
    ensures
        (r.0 as nat, r.1 as nat) == place_in(line@, found@),
{
    let mut i: usize = 0;
    while i < found.len()
        invariant
            i <= found@.len(),
            first_covering(found@, 0) == first_covering(found@, i as int),
        decreases found@.len() - i,
    {
        if found[i].0 != found[i].1 {
            return found[i];
        }
        i = i + 1;
    }
    let end = text::len(line);
    let rest = text::len(text::trim_start(line));
    proof {
        text::lemma_trimmed_start_bytes(line@);
    }
    (end - rest, end)
}

/// Where the pattern's hit stands in a line that it hits; `None` of a pattern that does not compile.
pub fn place_of(line: &str, args: &FindArgs) -> (r: Option<(usize, usize)>)
    ensures
        match r {
            Some(place) => regex_error(spans_of(*args), args.ignore_case) is None && (
            place.0 as nat,
            place.1 as nat,
            ) == place_in(line@, regex_matches(spans_of(*args), args.ignore_case, line@)),
            None => regex_error(spans_of(*args), args.ignore_case) is Some,
        },
{
    let pattern = spans_pattern(args);
    if check_regex(pattern.as_str(), args.ignore_case).is_some() {
        return None;
    }
    let mut lines: Vec<String> = Vec::new();
    lines.push(line.to_owned());
    let found = find_matches(pattern.as_str(), args.ignore_case, &lines);
    Some(hit_place(line, &found[0]))
}

/// Whether a top-level item may hold a definition that holds the hit: it overlaps the bytes from
/// the start of the hit's line to the end of the item that the hit stands in.
pub fn is_near(start: usize, end: usize, items: usize, at: usize) -> (r: bool)
    ensures
        r == (start <= items && at <= end),
{
    start <= items && at <= end
}

/// A node of the syntax tree that holds the hit: its kind, its rows, and the name it declares.
#[derive(Debug)]
pub struct Ancestor {
    pub kind: String,
    pub rows: usize,
    pub name: Option<String>,
}

/// A definition: its name, its lines, and the byte it ends at.
#[derive(Debug)]
pub struct Defined {
    pub name: String,
    pub line: usize,
    pub end_line: usize,
    pub end: usize,
}

/// The lines of the first `n` definitions that have the name and end within the item.
pub open spec fn named_spans(defined: Seq<Defined>, name: Seq<char>, items: int, n: int) -> Seq<
    (usize, usize),
>
    decreases n,
{
    if n <= 0 {
        Seq::empty()
    } else if defined[n - 1].name@ == name && defined[n - 1].end <= items {
        named_spans(defined, name, items, n - 1).push(
            (defined[n - 1].line, defined[n - 1].end_line),
        )
    } else {
        named_spans(defined, name, items, n - 1)
    }
}

fn spans_named(defined: &Vec<Defined>, name: &str, items: usize) -> (r: Vec<(usize, usize)>)
    ensures
        r@ == named_spans(defined@, name@, items as int, defined@.len() as int),
{
    let mut out: Vec<(usize, usize)> = Vec::new();
    let mut i: usize = 0;
    while i < defined.len()
        invariant
            i <= defined@.len(),
            out@ == named_spans(defined@, name@, items as int, i as int),
        decreases defined@.len() - i,
    {
        if text::same(defined[i].name.as_str(), name) && defined[i].end <= items {
            out.push((defined[i].line, defined[i].end_line));
        }
        i = i + 1;
    }
    out
}

/// `found` is the smallest definition that one of the first `n` ancestors, the innermost first,
/// names and that holds the hit. A node with more rows than a symbol may have only stands inside
/// larger ones, so the search stops there.
pub open spec fn is_definition(
    found: Option<(usize, usize)>,
    ancestors: Seq<Ancestor>,
    defined: Seq<Defined>,
    items: int,
    hit: int,
    n: int,
) -> bool
    decreases n,
{
    if n <= 0 {
        found is None
    } else {
        let node = ancestors[n - 1];
        if node.rows > EXPAND_SYMBOL_MAX_LINES + 1 {
            found is None
        } else if is_definition_like(node.kind@) && node.name is Some {
            let spans = named_spans(defined, node.name->0@, items, defined.len() as int);
            if some_holds(spans, hit) {
                is_smallest(found, spans, hit)
            } else {
                is_definition(found, ancestors, defined, items, hit, n - 1)
            }
        } else {
            is_definition(found, ancestors, defined, items, hit, n - 1)
        }
    }
}

/// The smallest definition that holds the hit. `ancestors` are the nodes that hold it, the root
/// first, `defined` the definitions of the top-level items round it, and `items` where the one that
/// holds the hit ends: a definition that ends past it is no candidate.
pub fn definition(ancestors: &Vec<Ancestor>, defined: &Vec<Defined>, items: usize, hit: usize) -> (r:
    Option<(usize, usize)>)
    ensures
        is_definition(
            r,
            ancestors@,
            defined@,
            items as int,
            hit as int,
            ancestors@.len() as int,
        ),
{
    let mut n: usize = ancestors.len();
    while n > 0
        invariant
            n <= ancestors@.len(),
            forall|found: Option<(usize, usize)>| #[trigger]
                is_definition(found, ancestors@, defined@, items as int, hit as int, n as int)
                    ==> is_definition(
                    found,
                    ancestors@,
                    defined@,
                    items as int,
                    hit as int,
                    ancestors@.len() as int,
                ),
        decreases n,
    {
        let node = &ancestors[n - 1];
        if node.rows > EXPAND_SYMBOL_MAX_LINES + 1 {
            assert(is_definition(
                None,
                ancestors@,
                defined@,
                items as int,
                hit as int,
                n as int,
            ));
            return None;
        }
        if definition_like(node.kind.as_str()) {
            if let Some(name) = &node.name {
                let spans = spans_named(defined, name.as_str(), items);
                let found = smallest(&spans, hit);
                if found.is_some() {
                    assert(is_definition(
                        found,
                        ancestors@,
                        defined@,
                        items as int,
                        hit as int,
                        n as int,
                    ));
                    return found;
                }
            }
        }
        assert forall|found: Option<(usize, usize)>| #[trigger] is_definition(
            found,
            ancestors@,
            defined@,
            items as int,
            hit as int,
            n - 1,
        ) implies is_definition(
            found,
            ancestors@,
            defined@,
            items as int,
            hit as int,
            n as int,
        ) by {}
        n = n - 1;
    }
    assert(is_definition(None, ancestors@, defined@, items as int, hit as int, 0));
    None
}

/// How many `#` a line begins with.
pub open spec fn level_of(line: Seq<char>) -> nat
    decreases line.len(),
{
    if line.len() > 0 && line[0] == '#' {
        1 + level_of(line.drop_first())
    } else {
        0
    }
}

/// The name of the heading that a line is.
pub open spec fn heading_of(line: Seq<char>) -> Option<Seq<char>> {
    let level = level_of(line) as int;
    if 1 <= level <= 6 && level < line.len() && is_space(line[level]) {
        Some(trimmed(line.skip(level)))
    } else {
        None
    }
}

fn heading<'a>(line: &'a str) -> (r: Option<&'a str>)
    ensures
        match r {
            Some(name) => heading_of(line@) == Some(name@),
            None => heading_of(line@) is None,
        },
{
    let n = line.unicode_len();
    let mut level: usize = 0;
    assert(line@.skip(0) =~= line@);
    while level < n && line.get_char(level) == '#'
        invariant
            level <= n == line@.len(),
            level_of(line@) == level + level_of(line@.skip(level as int)),
        decreases n - level,
    {
        assert(line@.skip(level as int).drop_first() =~= line@.skip(level + 1));
        level = level + 1;
    }
    if 1 <= level && level <= 6 && level < n && text::space(line.get_char(level)) {
        let rest = line.substring_char(level, n);
        assert(rest@ =~= line@.skip(level as int));
        Some(text::trim(rest))
    } else {
        None
    }
}

/// A section of a document: its name and its lines.
#[derive(Debug)]
pub struct Section {
    pub name: String,
    pub first: usize,
    pub last: usize,
}

/// The lines of the first `n` sections that have the name.
pub open spec fn section_spans(sections: Seq<Section>, name: Seq<char>, n: int) -> Seq<
    (usize, usize),
>
    decreases n,
{
    if n <= 0 {
        Seq::empty()
    } else if sections[n - 1].name@ == name {
        section_spans(sections, name, n - 1).push((sections[n - 1].first, sections[n - 1].last))
    } else {
        section_spans(sections, name, n - 1)
    }
}

fn spans_of_sections(sections: &Vec<Section>, name: &str) -> (r: Vec<(usize, usize)>)
    ensures
        r@ == section_spans(sections@, name@, sections@.len() as int),
{
    let mut out: Vec<(usize, usize)> = Vec::new();
    let mut i: usize = 0;
    while i < sections.len()
        invariant
            i <= sections@.len(),
            out@ == section_spans(sections@, name@, i as int),
        decreases sections@.len() - i,
    {
        if text::same(sections[i].name.as_str(), name) {
            out.push((sections[i].first, sections[i].last));
        }
        i = i + 1;
    }
    out
}

/// The lines of the sections with the name of the heading that a line is.
pub open spec fn spans_under(line: Seq<char>, sections: Seq<Section>) -> Seq<(usize, usize)> {
    match heading_of(line) {
        Some(name) => section_spans(sections, name, sections.len() as int),
        None => Seq::empty(),
    }
}

/// `found` is the section of the nearest heading, from line `number` up to line `first`, that is
/// one and whose section holds the hit.
pub open spec fn is_section(
    found: Option<(usize, usize)>,
    lines: Seq<Seq<char>>,
    sections: Seq<Section>,
    hit: int,
    first: int,
    number: int,
) -> bool
    decreases number,
{
    if number < first || number <= 0 {
        found is None
    } else {
        let spans = spans_under(lines[number - 1], sections);
        if some_holds(spans, hit) {
            is_smallest(found, spans, hit)
        } else {
            is_section(found, lines, sections, hit, first, number - 1)
        }
    }
}

/// The line from which a heading may still hold the hit in a section of a symbol's length.
pub open spec fn first_heading(hit: int) -> int {
    if hit > EXPAND_SYMBOL_MAX_LINES - 1 {
        hit - (EXPAND_SYMBOL_MAX_LINES - 1)
    } else {
        1
    }
}

/// The nearest heading above the hit that the document also reads as one; a `#` in a fence is not.
pub fn section(lines: &Vec<String>, sections: &Vec<Section>, hit: usize) -> (r: Option<
    (usize, usize),
>)
    requires
        hit <= lines@.len(),
    ensures
        is_section(
            r,
            text::texts(lines@),
            sections@,
            hit as int,
            first_heading(hit as int),
            hit as int,
        ),
{
    let first: usize = if hit > EXPAND_SYMBOL_MAX_LINES - 1 {
        hit - (EXPAND_SYMBOL_MAX_LINES - 1)
    } else {
        1
    };
    let ghost model = text::texts(lines@);
    let mut number: usize = hit;
    while number >= first
        invariant
            1 <= first == first_heading(hit as int),
            number <= hit <= lines@.len(),
            model == text::texts(lines@),
            forall|found: Option<(usize, usize)>| #[trigger]
                is_section(found, model, sections@, hit as int, first as int, number as int)
                    ==> is_section(
                    found,
                    model,
                    sections@,
                    hit as int,
                    first as int,
                    hit as int,
                ),
        decreases number,
    {
        assert(model[number - 1] == lines@[number - 1]@);
        if let Some(name) = heading(lines[number - 1].as_str()) {
            let spans = spans_of_sections(sections, name);
            let found = smallest(&spans, hit);
            if found.is_some() {
                assert(is_section(
                    found,
                    model,
                    sections@,
                    hit as int,
                    first as int,
                    number as int,
                ));
                return found;
            }
        }
        assert forall|found: Option<(usize, usize)>| #[trigger] is_section(
            found,
            model,
            sections@,
            hit as int,
            first as int,
            number - 1,
        ) implies is_section(
            found,
            model,
            sections@,
            hit as int,
            first as int,
            number as int,
        ) by {}
        number = number - 1;
    }
    assert(is_section(None, model, sections@, hit as int, first as int, number as int));
    None
}

/// A hit is placed by the first match that covers anything.
pub proof fn law_a_hit_is_placed_by_its_first_match(found: Seq<(usize, usize)>, i: int)
    requires
        0 <= i,
    ensures
        match first_covering(found, i) {
            Some(place) => exists|k: int|
                i <= k < found.len() && #[trigger] found[k] == place && place.0 != place.1 && forall|
                    j: int,
                |
                    i <= j < k ==> (#[trigger] found[j]).0 == found[j].1,
            None => forall|k: int| i <= k < found.len() ==> (#[trigger] found[k]).0 == found[k].1,
        },
    decreases found.len() - i,
{
    if i < found.len() && found[i].0 == found[i].1 {
        law_a_hit_is_placed_by_its_first_match(found, i + 1);
    }
}

/// The lines are those of a definition that the node names and that ends within the item.
pub open spec fn names_span(
    node: Ancestor,
    defined: Seq<Defined>,
    items: int,
    span: (usize, usize),
) -> bool {
    node.name is Some && exists|d: int|
        0 <= d < defined.len() && (#[trigger] defined[d]).name@ == node.name->0@ && defined[d].end
            <= items && span == (defined[d].line, defined[d].end_line)
}

proof fn lemma_named_spans(defined: Seq<Defined>, name: Seq<char>, items: int, n: int)
    requires
        0 <= n <= defined.len(),
    ensures
        forall|span: (usize, usize)| #[trigger]
            named_spans(defined, name, items, n).contains(span) <==> exists|d: int|
                0 <= d < n && (#[trigger] defined[d]).name@ == name && defined[d].end <= items
                    && span == (defined[d].line, defined[d].end_line),
    decreases n,
{
    if n > 0 {
        lemma_named_spans(defined, name, items, n - 1);
        let had = named_spans(defined, name, items, n - 1);
        let all = named_spans(defined, name, items, n);
        let one = (defined[n - 1].line, defined[n - 1].end_line);
        let more = defined[n - 1].name@ == name && defined[n - 1].end <= items;
        assert forall|span: (usize, usize)| #[trigger] all.contains(span) <==> exists|d: int|
            0 <= d < n && (#[trigger] defined[d]).name@ == name && defined[d].end <= items && span
                == (defined[d].line, defined[d].end_line) by {
            if had.contains(span) {
                let j = choose|j: int| 0 <= j < had.len() && had[j] == span;
                assert(all[j] == span);
            }
            if more {
                assert(all[all.len() - 1] == one);
            }
            if all.contains(span) && !had.contains(span) {
                let j = choose|j: int| 0 <= j < all.len() && all[j] == span;
                if j < had.len() {
                    assert(had[j] == span);
                }
                assert(span == one && defined[n - 1].name@ == name);
            }
        }
    }
}

/// The definition of a hit holds it, and a node round the hit that is small enough names it; where
/// there is none, no such node names one that holds it.
pub proof fn law_a_definition_holds_its_hit(
    found: Option<(usize, usize)>,
    ancestors: Seq<Ancestor>,
    defined: Seq<Defined>,
    items: int,
    hit: int,
    n: int,
)
    requires
        is_definition(found, ancestors, defined, items, hit, n),
        0 <= n <= ancestors.len(),
    ensures
        match found {
            Some(span) => span.0 <= hit <= span.1 && exists|a: int|
                0 <= a < n && names_span(#[trigger] ancestors[a], defined, items, span) && forall|
                    b: int,
                |
                    a <= b < n ==> (#[trigger] ancestors[b]).rows <= EXPAND_SYMBOL_MAX_LINES + 1,
            None => forall|a: int, span: (usize, usize)|
                0 <= a < n && is_definition_like(ancestors[a].kind@) && (forall|b: int|
                    a <= b < n ==> (#[trigger] ancestors[b]).rows <= EXPAND_SYMBOL_MAX_LINES + 1)
                    && #[trigger] names_span(ancestors[a], defined, items, span) ==> !(span.0
                    <= hit <= span.1),
        },
    decreases n,
{
    if n > 0 {
        let node = ancestors[n - 1];
        if node.rows <= EXPAND_SYMBOL_MAX_LINES + 1 {
            if is_definition_like(node.kind@) && node.name is Some {
                let spans = named_spans(defined, node.name->0@, items, defined.len() as int);
                lemma_named_spans(defined, node.name->0@, items, defined.len() as int);
                if some_holds(spans, hit) {
                    let span = found->0;
                    assert(spans.contains(span));
                    assert(names_span(ancestors[n - 1], defined, items, span));
                } else {
                    law_a_definition_holds_its_hit(found, ancestors, defined, items, hit, n - 1);
                    assert forall|span: (usize, usize)| #[trigger]
                        names_span(node, defined, items, span) implies !(span.0 <= hit
                        <= span.1) by {
                        assert(spans.contains(span));
                        let i = choose|i: int| 0 <= i < spans.len() && spans[i] == span;
                        assert(!holds(spans[i], hit));
                    }
                }
            } else {
                law_a_definition_holds_its_hit(found, ancestors, defined, items, hit, n - 1);
            }
        }
    }
}

proof fn lemma_level(line: Seq<char>, level: int)
    requires
        0 <= level < line.len(),
        forall|i: int| 0 <= i < level ==> #[trigger] line[i] == '#',
        line[level] != '#',
    ensures
        level_of(line) == level,
    decreases level,
{
    if level > 0 {
        let less = line.drop_first();
        assert forall|i: int| 0 <= i < level - 1 implies #[trigger] less[i] == '#' by {
            assert(less[i] == line[i + 1]);
        }
        lemma_level(less, level - 1);
    }
}

/// A line of one to six hashes, a blank and a name is a heading of that name, and one with more
/// hashes is none.
pub proof fn law_a_heading_is_hashes_and_a_name(level: nat, blank: char, name: Seq<char>)
    requires
        level > 0,
        is_space(blank),
    ensures
        heading_of(Seq::new(level, |i: int| '#').push(blank) + name) == (if level <= 6 {
            Some(trimmed(name))
        } else {
            None
        }),
{
    let line = Seq::new(level, |i: int| '#').push(blank) + name;
    assert(line[level as int] == blank);
    lemma_level(line, level as int);
    let rest = line.skip(level as int);
    assert(rest[0] == blank);
    assert(rest.drop_first() =~= name);
    assert(trimmed_start(rest) == trimmed_start(name));
}

proof fn lemma_section_spans(sections: Seq<Section>, name: Seq<char>, n: int)
    requires
        0 <= n <= sections.len(),
    ensures
        forall|span: (usize, usize)| #[trigger]
            section_spans(sections, name, n).contains(span) <==> exists|s: int|
                0 <= s < n && (#[trigger] sections[s]).name@ == name && span == (
                sections[s].first,
                sections[s].last,
                ),
    decreases n,
{
    if n > 0 {
        lemma_section_spans(sections, name, n - 1);
        let had = section_spans(sections, name, n - 1);
        let all = section_spans(sections, name, n);
        let one = (sections[n - 1].first, sections[n - 1].last);
        assert forall|span: (usize, usize)| #[trigger] all.contains(span) <==> exists|s: int|
            0 <= s < n && (#[trigger] sections[s]).name@ == name && span == (
            sections[s].first,
            sections[s].last,
            ) by {
            if had.contains(span) {
                let j = choose|j: int| 0 <= j < had.len() && had[j] == span;
                assert(all[j] == span);
            }
            if sections[n - 1].name@ == name {
                assert(all[all.len() - 1] == one);
            }
            if all.contains(span) && !had.contains(span) {
                let j = choose|j: int| 0 <= j < all.len() && all[j] == span;
                if j < had.len() {
                    assert(had[j] == span);
                }
                assert(span == one && sections[n - 1].name@ == name);
            }
        }
    }
}

/// The section has the name of the heading on line `l`.
pub open spec fn heads(
    lines: Seq<Seq<char>>,
    l: int,
    sections: Seq<Section>,
    span: (usize, usize),
) -> bool {
    exists|s: int|
        0 <= s < sections.len() && heading_of(lines[l - 1]) == Some((#[trigger] sections[s]).name@)
            && span == (sections[s].first, sections[s].last)
}

/// The section of a hit holds it and has the name of a heading at or above it; where there is none,
/// no heading in reach names a section that holds it.
pub proof fn law_a_section_holds_its_hit(
    found: Option<(usize, usize)>,
    lines: Seq<Seq<char>>,
    sections: Seq<Section>,
    hit: int,
    first: int,
    number: int,
)
    requires
        is_section(found, lines, sections, hit, first, number),
        1 <= first,
    ensures
        match found {
            Some(span) => span.0 <= hit <= span.1 && exists|l: int|
                first <= l <= number && #[trigger] heads(lines, l, sections, span),
            None => forall|l: int, span: (usize, usize)|
                first <= l <= number && #[trigger] heads(lines, l, sections, span) ==> !(span.0
                    <= hit <= span.1),
        },
    decreases number,
{
    if number >= first && number > 0 {
        let spans = spans_under(lines[number - 1], sections);
        if let Some(name) = heading_of(lines[number - 1]) {
            lemma_section_spans(sections, name, sections.len() as int);
        }
        if some_holds(spans, hit) {
            let span = found->0;
            assert(spans.contains(span));
            assert(heads(lines, number, sections, span));
        } else {
            law_a_section_holds_its_hit(found, lines, sections, hit, first, number - 1);
            assert forall|span: (usize, usize)| #[trigger]
                heads(lines, number, sections, span) implies !(span.0 <= hit <= span.1) by {
                assert(spans.contains(span));
                let i = choose|i: int| 0 <= i < spans.len() && spans[i] == span;
                assert(!holds(spans[i], hit));
            }
        }
    }
}

/// Where no match covers anything, the hit is all of its line but the white space it begins with.
pub proof fn law_an_empty_match_hits_its_whole_line(
    blank: Seq<char>,
    rest: Seq<char>,
    found: Seq<(usize, usize)>,
)
    requires
        text::is_blank(blank),
        rest.len() > 0 && !is_space(rest[0]),
        forall|k: int| 0 <= k < found.len() ==> (#[trigger] found[k]).0 == found[k].1,
    ensures
        place_in(blank + rest, found) == (byte_len(blank), byte_len(blank) + byte_len(rest)),
{
    law_a_hit_is_placed_by_its_first_match(found, 0);
    let line = blank + rest;
    let from = text::law_leading_white_space_comes_off(line);
    if from < blank.len() {
        assert(line[from] == blank[from]);
    } else if from > blank.len() {
        assert(line[blank.len() as int] == rest[0]);
    }
    assert(line.skip(blank.len() as int) =~= rest);
    text::lemma_encode_concat(blank, rest);
}

/// A heading is looked for on the hit's line and on those above it that a symbol may be long.
pub proof fn law_a_heading_is_looked_for_as_far_as_a_symbol_reaches(hit: int, line: int)
    requires
        1 <= line <= hit,
    ensures
        line >= first_heading(hit) <==> hit - line < EXPAND_SYMBOL_MAX_LINES,
{
}

} // verus!
