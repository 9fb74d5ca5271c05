//! A batch of edits as fenced blocks: `@@ file` headers, each over the blocks that follow it.
use vstd::prelude::*;
use vstd::utf8::encode_utf8;

use crate::edit::batch::{
    is_batch, jsonl_asks, jsonl_problems, parse_jsonl,
};
use crate::edit::spec::{asked_all, Asked, AskedOp, EditOp, EditSpec};
use crate::error::{all_usage, is_usage, messages, note, usage, usage_failure, Error};
use crate::output::AnchorSide;
use crate::text;
use crate::text::{
    contains_text, decimal, decimal_of, first_place, is_space, joined,
    law_a_line_is_what_stands_before_its_end, law_texts_in_a_row_have_their_lines_in_a_row,
    law_the_lines_of_a_text_make_it_up, law_trimming_takes_white_space_alone, lemma_first_place, lines_of, split_of, stands_at, texts,
    trimmed, trimmed_end, trimmed_start,
};

verus! {

#[derive(Debug, Clone, Copy, PartialEq, Eq, Structural)]
pub enum Section {
    Outside,
    Old,
    New,
}

/// The side as a header spells it.
pub open spec fn side_text(side: AnchorSide) -> Seq<char> {
    match side {
        AnchorSide::After => "after"@,
        AnchorSide::Before => "before"@,
    }
}

pub fn side_word(side: AnchorSide) -> (r: &'static str)
    ensures
        r@ == side_text(side),
{
    match side {
        AnchorSide::After => "after",
        AnchorSide::Before => "before",
    }
}

/// The file a header names, and its insert anchor when its block inserts.
pub ghost struct Names {
    pub file: Seq<char>,
    pub anchor: Option<(AnchorSide, Seq<char>)>,
}

/// What stands after `@@ ` in a header.
pub open spec fn header_names(rest: Seq<char>) -> Names {
    match split_of(rest, " insert-after "@) {
        Some((file, anchor)) => Names {
            file: trimmed(file),
            anchor: Some((AnchorSide::After, trimmed(anchor))),
        },
        None => match split_of(rest, " insert-before "@) {
            Some((file, anchor)) => Names {
                file: trimmed(file),
                anchor: Some((AnchorSide::Before, trimmed(anchor))),
            },
            None => Names { file: trimmed(rest), anchor: None },
        },
    }
}

/// A header that was read.
#[derive(Debug)]
pub struct Header {
    pub line: usize,
    pub file: String,
    pub anchor: Option<(AnchorSide, String)>,
}

pub open spec fn anchor_named(anchor: Option<(AnchorSide, String)>) -> Option<
    (AnchorSide, Seq<char>),
> {
    match anchor {
        Some((side, at)) => Some((side, at@)),
        None => None,
    }
}

impl Header {
    pub open spec fn names(self) -> Names {
        Names { file: self.file@, anchor: anchor_named(self.anchor) }
    }
}

pub fn fence_header(rest: &str) -> (r: (String, Option<(AnchorSide, String)>))
    ensures
        (Names { file: r.0@, anchor: anchor_named(r.1) }) == header_names(rest@),
{
    if let Some((file, anchor)) = text::split_once(rest, " insert-after ") {
        return (
            text::trim(file).to_owned(),
            Some((AnchorSide::After, text::trim(anchor).to_owned())),
        );
    }
    if let Some((file, anchor)) = text::split_once(rest, " insert-before ") {
        return (
            text::trim(file).to_owned(),
            Some((AnchorSide::Before, text::trim(anchor).to_owned())),
        );
    }
    (text::trim(rest).to_owned(), None)
}

/// What a finished block lacks, if anything: every block has new text, and one that replaces has
/// old text.
pub open spec fn block_problem(
    line: nat,
    names: Names,
    old: Option<Seq<Seq<char>>>,
    new: Option<Seq<Seq<char>>>,
) -> Option<Seq<char>> {
    let head = "line "@ + decimal_of(line) + ": "@ + names.file;
    if new is None {
        Some(head + ": no `======= new` section"@)
    } else if names.anchor is None && old is None {
        Some(head + ": no `<<<<<<< old` section"@)
    } else {
        None
    }
}

/// The edit a whole block asks for.
pub open spec fn block_asks(
    names: Names,
    old: Option<Seq<Seq<char>>>,
    new: Option<Seq<Seq<char>>>,
) -> Asked {
    let new = encode_utf8(joined(new->0, "\n"@));
    Asked {
        raw: names.file,
        op: match names.anchor {
            Some((side, anchor)) => AskedOp::Insert { side, anchor, new },
            None => AskedOp::Replace { old: encode_utf8(joined(old->0, "\n"@)), new, all: false },
        },
        sha: None,
        normalize: false,
        literal: false,
    }
}

pub open spec fn said_lines(lines: Option<Vec<String>>) -> Option<Seq<Seq<char>>> {
    match lines {
        Some(lines) => Some(texts(lines@)),
        None => None,
    }
}

pub fn fenced_spec(
    header_line: usize,
    file: &str,
    anchor: Option<(AnchorSide, String)>,
    old: Option<Vec<String>>,
    new: Option<Vec<String>>,
) -> (r: Result<EditSpec, Error>)
    ensures
        ({
            let names = Names { file: file@, anchor: anchor_named(anchor) };
            let problem = block_problem(
                header_line as nat,
                names,
                said_lines(old),
                said_lines(new),
            );
            match r {
                Ok(spec) => problem is None && spec.asked() == block_asks(
                    names,
                    said_lines(old),
                    said_lines(new),
                ),
                Err(e) => problem is Some && is_usage(e, problem->0),
            }
        }),
{
    let head = "line ".to_owned().concat(decimal(header_line).as_str()).concat(": ").concat(file);
    let new = match new {
        Some(new) => new,
        None => return Err(usage(head.concat(": no `======= new` section"))),
    };
    let new = text::join(&new, "\n").as_str().as_bytes_vec();
    let op = match anchor {
        Some((side, anchor)) => EditOp::Insert { side, anchor, new },
        None => {
            let old = match old {
                Some(old) => old,
                None => return Err(usage(head.concat(": no `<<<<<<< old` section"))),
            };
            EditOp::Replace { old: text::join(&old, "\n").as_str().as_bytes_vec(), new, all: false }
        },
    };
    Ok(
        EditSpec {
            raw: file.to_owned(),
            op,
            if_sha: None,
            normalize: false,
            literal_newlines: false,
        },
    )
}

/// How far the reading of a batch has got.
pub ghost struct Reading {
    /// The header that holds, with the number of its line.
    pub header: Option<(nat, Names)>,
    /// How many blocks it has had.
    pub blocks: nat,
    pub old: Option<Seq<Seq<char>>>,
    pub new: Option<Seq<Seq<char>>>,
    pub section: Section,
    pub asks: Seq<Asked>,
    pub problems: Seq<Seq<char>>,
}

/// Nothing was read.
pub open spec fn unread() -> Reading {
    Reading {
        header: None,
        blocks: 0,
        old: None,
        new: None,
        section: Section::Outside,
        asks: Seq::empty(),
        problems: Seq::empty(),
    }
}

/// The header that holds has a block open, or has had none.
pub open spec fn is_unfinished(r: Reading) -> bool {
    r.header is Some && (r.section != Section::Outside || r.blocks == 0)
}

/// A header holds from its line to the next one.
pub open spec fn read_header(r: Reading, rest: Seq<char>, number: nat) -> Reading {
    Reading {
        header: Some((number, header_names(rest))),
        blocks: 0,
        old: None,
        new: None,
        section: Section::Outside,
        problems: if is_unfinished(r) {
            r.problems.push(
                "line "@ + decimal_of((r.header->0).0)
                    + ": unterminated `@@` block \u{b7} a new one opens at line "@ + decimal_of(
                    number,
                ),
            )
        } else {
            r.problems
        },
        ..r
    }
}

/// An insert block has no old text.
pub open spec fn read_old(r: Reading, number: nat) -> Reading {
    Reading {
        old: Some(Seq::empty()),
        section: Section::Old,
        problems: if r.header is Some && (r.header->0).1.anchor is Some {
            r.problems.push(
                "line "@ + decimal_of(number)
                    + ": `<<<<<<< old` is not allowed in the insert block opened at line "@
                    + decimal_of((r.header->0).0),
            )
        } else {
            r.problems
        },
        ..r
    }
}

/// The header an insert block stands under, as it is repeated.
pub open spec fn insert_header(names: Names) -> Seq<char> {
    "`@@ "@ + names.file + " insert-"@ + side_text((names.anchor->0).0) + " "@ + (names.anchor->0).1
        + "`"@
}

/// Two inserts under one anchor race for "right after it": the second landed adjoins the anchor
/// too, ahead of the first, not after it as written.
pub open spec fn second_insert(names: Names, number: nat) -> Seq<char> {
    "line "@ + decimal_of(number) + ": "@ + insert_header(names)
        + " already opened one insert block \u{b7} a second block under the same header is ambiguous \u{b7} repeat "@
        + insert_header(names) + " before it"@
}

/// A block ends: it is an edit of the file its header names.
pub open spec fn read_end(r: Reading, number: nat) -> Reading {
    match r.header {
        None => Reading {
            section: Section::Outside,
            problems: r.problems.push(
                "line "@ + decimal_of(number) + ": `>>>>>>>` outside a `@@` block"@,
            ),
            ..r
        },
        Some((line, names)) => {
            let problem = block_problem(line, names, r.old, r.new);
            let told = if r.blocks >= 1 && names.anchor is Some {
                r.problems.push(second_insert(names, number))
            } else {
                r.problems
            };
            Reading {
                blocks: r.blocks + 1,
                old: None,
                new: None,
                section: Section::Outside,
                asks: if problem is None {
                    r.asks.push(block_asks(names, r.old, r.new))
                } else {
                    r.asks
                },
                problems: if problem is None {
                    told
                } else {
                    told.push(problem->0)
                },
                ..r
            }
        },
    }
}

/// A line with no meaning of its own: text of the open section, or out of place.
pub open spec fn read_text(r: Reading, line: Seq<char>, number: nat) -> Reading {
    match r.section {
        Section::Old => Reading {
            old: Some(
                (if r.old is Some {
                    r.old->0
                } else {
                    Seq::empty()
                }).push(line),
            ),
            ..r
        },
        Section::New => Reading {
            new: Some(
                (if r.new is Some {
                    r.new->0
                } else {
                    Seq::empty()
                }).push(line),
            ),
            ..r
        },
        Section::Outside => if trimmed(line).len() == 0 {
            r
        } else {
            Reading {
                problems: r.problems.push(
                    "line "@ + decimal_of(number) + ": `"@ + line + "` is outside a `@@` block"@,
                ),
                ..r
            }
        },
    }
}

/// One more line is read.
pub open spec fn read_line(r: Reading, line: Seq<char>, number: nat) -> Reading {
    if "@@ "@.is_prefix_of(line) {
        read_header(r, line.skip("@@ "@.len() as int), number)
    } else if trimmed_end(line) == "<<<<<<< old"@ {
        read_old(r, number)
    } else if trimmed_end(line) == "======= new"@ {
        Reading { new: Some(Seq::empty()), section: Section::New, ..r }
    } else if trimmed_end(line) == ">>>>>>>"@ {
        read_end(r, number)
    } else {
        read_text(r, line, number)
    }
}

/// The first `n` lines are read.
pub open spec fn read_lines(lines: Seq<Seq<char>>, n: int) -> Reading
    decreases n,
{
    if n <= 0 {
        unread()
    } else {
        read_line(read_lines(lines, n - 1), lines[n - 1], n as nat)
    }
}

/// Everything that is wrong with a fenced batch; the last block has to be finished too.
pub open spec fn fence_problems(lines: Seq<Seq<char>>) -> Seq<Seq<char>> {
    let r = read_lines(lines, lines.len() as int);
    if is_unfinished(r) {
        r.problems.push(
            "line "@ + decimal_of((r.header->0).0) + ": unterminated `@@` block"@,
        )
    } else {
        r.problems
    }
}

/// What a fenced batch asks for.
pub open spec fn fence_asks(lines: Seq<Seq<char>>) -> Seq<Asked> {
    read_lines(lines, lines.len() as int).asks
}

/// How far the reading of a batch has got, as it is kept.
struct Fence {
    header: Option<Header>,
    blocks: usize,
    old: Option<Vec<String>>,
    new: Option<Vec<String>>,
    section: Section,
    specs: Vec<EditSpec>,
    errors: Vec<Error>,
}

impl Fence {
    spec fn is(self, r: Reading) -> bool {
        &&& match self.header {
            Some(header) => r.header == Some((header.line as nat, header.names())),
            None => r.header is None,
        }
        &&& self.blocks == r.blocks
        &&& said_lines(self.old) == r.old
        &&& said_lines(self.new) == r.new
        &&& self.section == r.section
        &&& asked_all(self.specs@) == r.asks
        &&& all_usage(self.errors@)
        &&& messages(self.errors@) == r.problems
    }

    fn on_header(&mut self, rest: &str, number: usize, Ghost(r): Ghost<Reading>)
        requires
            old(self).is(r),
        ensures
            final(self).is(read_header(r, rest@, number as nat)),
            final(self).blocks == 0,
    {
        if let Some(header) = &self.header {
            if self.section != Section::Outside || self.blocks == 0 {
                let said = "line ".to_owned().concat(decimal(header.line).as_str()).concat(
                    ": unterminated `@@` block \u{b7} a new one opens at line ",
                ).concat(decimal(number).as_str());
                note(&mut self.errors, said);
            }
        }
        let (file, anchor) = fence_header(rest);
        self.header = Some(Header { line: number, file, anchor });
        self.blocks = 0;
        self.old = None;
        self.new = None;
        self.section = Section::Outside;
    }

    fn on_old(&mut self, number: usize, Ghost(r): Ghost<Reading>)
        requires
            old(self).is(r),
        ensures
            final(self).is(read_old(r, number as nat)),
            final(self).blocks == old(self).blocks,
    {
        if let Some(header) = &self.header {
            if header.anchor.is_some() {
                let said = "line ".to_owned().concat(decimal(number).as_str()).concat(
                    ": `<<<<<<< old` is not allowed in the insert block opened at line ",
                ).concat(decimal(header.line).as_str());
                note(&mut self.errors, said);
            }
        }
        self.old = Some(Vec::new());
        self.section = Section::Old;
        assert(said_lines(self.old)->0 =~= Seq::empty());
    }

    fn on_new(&mut self, Ghost(r): Ghost<Reading>)
        requires
            old(self).is(r),
        ensures
            final(self).is((Reading { new: Some(Seq::empty()), section: Section::New, ..r })),
            final(self).blocks == old(self).blocks,
    {
        self.new = Some(Vec::new());
        self.section = Section::New;
        assert(said_lines(self.new)->0 =~= Seq::empty());
    }

    fn on_end(&mut self, number: usize, Ghost(r): Ghost<Reading>)
        requires
            old(self).is(r),
            old(self).blocks < usize::MAX,
        ensures
            final(self).is(read_end(r, number as nat)),
            final(self).blocks <= old(self).blocks + 1,
    {
        self.section = Section::Outside;
        let (line, file, anchor) = match &self.header {
            None => {
                let said = "line ".to_owned().concat(decimal(number).as_str()).concat(
                    ": `>>>>>>>` outside a `@@` block",
                );
                note(&mut self.errors, said);
                return;
            },
            Some(header) => (
                header.line,
                header.file.clone(),
                match &header.anchor {
                    Some((side, at)) => Some((*side, at.clone())),
                    None => None,
                },
            ),
        };
        let ghost names = (r.header->0).1;
        assert(names.anchor == anchor_named(anchor));
        self.blocks = self.blocks + 1;
        if self.blocks > 1 {
            if let Some((side, at)) = &anchor {
                let header = "`@@ ".to_owned().concat(file.as_str()).concat(" insert-").concat(
                    side_word(*side),
                ).concat(" ").concat(at.as_str()).concat("`");
                let said = "line ".to_owned().concat(decimal(number).as_str()).concat(
                    ": ",
                ).concat(header.as_str()).concat(
                    " already opened one insert block \u{b7} a second block under the same header is ambiguous \u{b7} repeat ",
                ).concat(header.as_str()).concat(" before it");
                assert(said@ == second_insert(names, number as nat));
                note(&mut self.errors, said);
            }
        }
        let ghost told = messages(self.errors@);
        let ghost asked = self.specs@;
        let old = self.old.take();
        let new = self.new.take();
        match fenced_spec(line, file.as_str(), anchor, old, new) {
            Ok(spec) => {
                self.specs.push(spec);
                assert(asked_all(self.specs@) =~= asked_all(asked).push(spec.asked()));
            },
            Err(error) => {
                let ghost before = self.errors@;
                self.errors.push(error);
                assert(messages(self.errors@) =~= told.push(error->Usage_message@));
            },
        }
    }

    fn on_text(&mut self, line: &str, number: usize, Ghost(r): Ghost<Reading>)
        requires
            old(self).is(r),
        ensures
            final(self).is(read_text(r, line@, number as nat)),
            final(self).blocks == old(self).blocks,
    {
        match self.section {
            Section::Old => {
                let mut lines = match self.old.take() {
                    Some(lines) => lines,
                    None => Vec::new(),
                };
                let ghost before = texts(lines@);
                lines.push(line.to_owned());
                assert(texts(lines@) =~= before.push(line@));
                assert(r.old is None ==> before =~= Seq::empty());
                self.old = Some(lines);
            },
            Section::New => {
                let mut lines = match self.new.take() {
                    Some(lines) => lines,
                    None => Vec::new(),
                };
                let ghost before = texts(lines@);
                lines.push(line.to_owned());
                assert(texts(lines@) =~= before.push(line@));
                assert(r.new is None ==> before =~= Seq::empty());
                self.new = Some(lines);
            },
            Section::Outside => {
                if !text::trim(line).is_empty() {
                    let said = "line ".to_owned().concat(decimal(number).as_str()).concat(
                        ": `",
                    ).concat(line).concat("` is outside a `@@` block");
                    note(&mut self.errors, said);
                }
            },
        }
    }

    fn on_line(&mut self, line: &str, number: usize, Ghost(r): Ghost<Reading>)
        requires
            old(self).is(r),
            old(self).blocks < usize::MAX,
        ensures
            final(self).is(read_line(r, line@, number as nat)),
            final(self).blocks <= old(self).blocks + 1,
    {
        if let Some(rest) = text::strip_prefix(line, "@@ ") {
            assert(line@.skip("@@ "@.len() as int) =~= rest@);
            assert("@@ "@.is_prefix_of(line@)) by {
                assert(line@.take("@@ "@.len() as int) =~= "@@ "@);
            }
            self.on_header(rest, number, Ghost(r));
            return;
        }
        let shown = text::trim_end(line);
        if text::same(shown, "<<<<<<< old") {
            self.on_old(number, Ghost(r));
        } else if text::same(shown, "======= new") {
            self.on_new(Ghost(r));
        } else if text::same(shown, ">>>>>>>") {
            self.on_end(number, Ghost(r));
        } else {
            self.on_text(line, number, Ghost(r));
        }
    }
}

/// A header stays active across every block that follows it until the next `@@` line or the end
/// of the input.
pub fn parse_fenced(batch: &str) -> (r: Result<Vec<EditSpec>, Error>)
    ensures
        is_batch(r, fence_problems(lines_of(batch@)), fence_asks(lines_of(batch@))),
{
    let lines = text::lines(batch);
    let ghost model = lines_of(batch@);
    let mut fence = Fence {
        header: None,
        blocks: 0,
        old: None,
        new: None,
        section: Section::Outside,
        specs: Vec::new(),
        errors: Vec::new(),
    };
    let mut i: usize = 0;
    assert(messages(fence.errors@) =~= Seq::empty());
    assert(asked_all(fence.specs@) =~= Seq::empty());
    while i < lines.len()
        invariant
            i <= lines@.len(),
            texts(lines@) == model,
            fence.is(read_lines(model, i as int)),
            fence.blocks <= i,
        decreases lines@.len() - i,
    {
        assert(texts(lines@)[i as int] == lines@[i as int]@);
        fence.on_line(lines[i].as_str(), i + 1, Ghost(read_lines(model, i as int)));
        i = i + 1;
    }
    let ghost end = read_lines(model, model.len() as int);
    let mut errors = fence.errors;
    if let Some(header) = &fence.header {
        if fence.section != Section::Outside || fence.blocks == 0 {
            let said = "line ".to_owned().concat(decimal(header.line).as_str()).concat(
                ": unterminated `@@` block",
            );
            note(&mut errors, said);
        }
    }
    assert(messages(errors@) == fence_problems(model));
    match usage_failure(errors) {
        Some(failure) => Err(failure),
        None => Ok(fence.specs),
    }
}

/// The first line that is not blank, without the white space it begins with.
pub open spec fn first_said(lines: Seq<Seq<char>>) -> Option<Seq<char>>
    decreases lines.len(),
{
    if lines.len() == 0 {
        None
    } else if trimmed_start(lines[0]).len() > 0 {
        Some(trimmed_start(lines[0]))
    } else {
        first_said(lines.drop_first())
    }
}

/// What is wrong with a batch that is in neither form.
pub open spec fn no_form() -> Seq<char> {
    "expected a JSON object (`{`) or a `@@ <path>` block"@
}

/// A batch in either form: the first line that is not blank tells which.
pub fn parse_batch(batch: &str) -> (r: Result<Vec<EditSpec>, Error>)
    ensures
        ({
            let lines = lines_of(batch@);
            match first_said(lines) {
                None => r matches Err(e) && is_usage(e, "no edits"@),
                Some(first) => if "{"@.is_prefix_of(first) {
                    is_batch(
                        r,
                        jsonl_problems(lines, lines.len() as int),
                        jsonl_asks(lines, lines.len() as int),
                    )
                } else if "@@"@.is_prefix_of(first) {
                    is_batch(r, fence_problems(lines), fence_asks(lines))
                } else {
                    r matches Err(e) && is_usage(e, no_form())
                },
            }
        }),
{
    let lines = text::lines(batch);
    let ghost model = lines_of(batch@);
    let mut i: usize = 0;
    assert(model.skip(0) =~= model);
    while i < lines.len()
        invariant
            i <= lines@.len(),
            texts(lines@) == model,
            model == lines_of(batch@),
            first_said(model) == first_said(model.skip(i as int)),
        decreases lines@.len() - i,
    {
        assert(texts(lines@)[i as int] == lines@[i as int]@);
        let first = text::trim_start(lines[i].as_str());
        if !first.is_empty() {
            if text::starts_with(first, "{") {
                return parse_jsonl(batch);
            }
            if text::starts_with(first, "@@") {
                return parse_fenced(batch);
            }
            return Err(
                usage("expected a JSON object (`{`) or a `@@ <path>` block".to_owned()),
            );
        }
        assert(model.skip(i as int).drop_first() =~= model.skip(i + 1));
        i = i + 1;
    }
    Err(usage("no edits".to_owned()))
}

/// A line that opens or ends nothing: within a section it is text of the section.
pub open spec fn is_plain(line: Seq<char>) -> bool {
    &&& !"@@ "@.is_prefix_of(line)
    &&& trimmed_end(line) != "<<<<<<< old"@
    &&& trimmed_end(line) != "======= new"@
    &&& trimmed_end(line) != ">>>>>>>"@
}

/// A block as it is written: the edit it asks for, over the lines of its texts.
pub ghost struct Block {
    pub file: Seq<char>,
    pub anchor: Option<(AnchorSide, Seq<char>)>,
    pub old: Seq<Seq<char>>,
    pub new: Seq<Seq<char>>,
}

impl Block {
    /// The names can be told apart in a header, and the texts from what is written round them.
    pub open spec fn can_be_written(self) -> bool {
        &&& self.file == trimmed(self.file)
        &&& !contains_text(self.file + " "@, " insert-after "@)
        &&& !contains_text(self.file + " "@, " insert-before "@)
        &&& self.anchor matches Some((side, at)) ==> at == trimmed(at) && (side
            == AnchorSide::Before ==> !contains_text(
            self.file + " insert-before "@ + at,
            " insert-after "@,
        ))
        &&& forall|i: int| 0 <= i < self.old.len() ==> is_plain(#[trigger] self.old[i])
        &&& forall|i: int| 0 <= i < self.new.len() ==> is_plain(#[trigger] self.new[i])
    }

    pub open spec fn header(self) -> Seq<char> {
        match self.anchor {
            Some((AnchorSide::After, at)) => "@@ "@ + (self.file + " insert-after "@ + at),
            Some((AnchorSide::Before, at)) => "@@ "@ + (self.file + " insert-before "@ + at),
            None => "@@ "@ + self.file,
        }
    }

    /// The sections of the block. One that inserts has no old text.
    pub open spec fn sections(self) -> Seq<Seq<char>> {
        (if self.anchor is None {
            seq!["<<<<<<< old"@] + self.old
        } else {
            Seq::empty()
        }) + (seq!["======= new"@] + self.new + seq![">>>>>>>"@])
    }

    /// The block, with its header, as lines.
    pub open spec fn written(self) -> Seq<Seq<char>> {
        seq![self.header()] + self.sections()
    }

    /// `spec` is the edit that the block is.
    pub open spec fn asks(self, spec: Asked) -> bool {
        &&& spec.raw == self.file
        &&& match self.anchor {
            None => spec.op == (AskedOp::Replace {
                old: encode_utf8(joined(self.old, "\n"@)),
                new: encode_utf8(joined(self.new, "\n"@)),
                all: false,
            }),
            Some((side, anchor)) => spec.op == (AskedOp::Insert {
                side,
                anchor,
                new: encode_utf8(joined(self.new, "\n"@)),
            }),
        }
        &&& spec.sha is None && !spec.normalize && !spec.literal
    }
}

proof fn lemma_read_prefix(a: Seq<Seq<char>>, b: Seq<Seq<char>>, n: int)
    requires
        n <= a.len(),
    ensures
        read_lines(a + b, n) == read_lines(a, n),
    decreases n,
{
    if n > 0 {
        lemma_read_prefix(a, b, n - 1);
        assert((a + b)[n - 1] == a[n - 1]);
    }
}

proof fn lemma_read_section(lines: Seq<Seq<char>>, k: int, m: int)
    requires
        0 <= k <= k + m <= lines.len(),
        forall|i: int| k <= i < k + m ==> is_plain(#[trigger] lines[i]),
        read_lines(lines, k).section != Section::Outside,
        read_lines(lines, k).section == Section::Old ==> read_lines(lines, k).old is Some,
        read_lines(lines, k).section == Section::New ==> read_lines(lines, k).new is Some,
    ensures
        ({
            let r = read_lines(lines, k);
            let text = lines.subrange(k, k + m);
            read_lines(lines, k + m) == (if r.section == Section::Old {
                Reading { old: Some(r.old->0 + text), ..r }
            } else {
                Reading { new: Some(r.new->0 + text), ..r }
            })
        }),
    decreases m,
{
    let r = read_lines(lines, k);
    if m == 0 {
        let text = lines.subrange(k, k);
        assert(text =~= Seq::empty());
        if r.section == Section::Old {
            assert(r.old->0 + text =~= r.old->0);
        } else {
            assert(r.new->0 + text =~= r.new->0);
        }
    } else {
        lemma_read_section(lines, k, m - 1);
        let line = lines[k + m - 1];
        assert(is_plain(line));
        let so_far = lines.subrange(k, k + m - 1);
        assert(lines.subrange(k, k + m) =~= so_far.push(line));
        if r.section == Section::Old {
            assert((r.old->0 + so_far).push(line) =~= r.old->0 + so_far.push(line));
        } else {
            assert((r.new->0 + so_far).push(line) =~= r.new->0 + so_far.push(line));
        }
    }
}

proof fn lemma_markers()
    ensures
        !"@@ "@.is_prefix_of("<<<<<<< old"@),
        !"@@ "@.is_prefix_of("======= new"@),
        !"@@ "@.is_prefix_of(">>>>>>>"@),
        trimmed_end("<<<<<<< old"@) == "<<<<<<< old"@,
        trimmed_end("======= new"@) == "======= new"@,
        trimmed_end(">>>>>>>"@) == ">>>>>>>"@,
        "<<<<<<< old"@ != "======= new"@,
        "<<<<<<< old"@ != ">>>>>>>"@,
        "======= new"@ != ">>>>>>>"@,
{
    reveal_strlit("@@ ");
    reveal_strlit("<<<<<<< old");
    reveal_strlit("======= new");
    reveal_strlit(">>>>>>>");
    assert("@@ "@[0] == '@' && "<<<<<<< old"@[0] == '<' && "======= new"@[0] == '=' && ">>>>>>>"@[0]
        == '>');
    if "@@ "@.is_prefix_of("<<<<<<< old"@) {
        assert("<<<<<<< old"@.subrange(0, "@@ "@.len() as int)[0] == '@');
    }
    if "@@ "@.is_prefix_of("======= new"@) {
        assert("======= new"@.subrange(0, "@@ "@.len() as int)[0] == '@');
    }
    assert("<<<<<<< old"@.last() == 'd' && "======= new"@.last() == 'w' && ">>>>>>>"@.last() == '>');
}

/// The sections of a block, read where its header holds, come to the edit that the block is.
proof fn lemma_read_sections(above: Seq<Seq<char>>, block: Block, line: nat)
    requires
        block.can_be_written(),
        ({
            let r = read_lines(above, above.len() as int);
            &&& r.header == Some((line, Names { file: block.file, anchor: block.anchor }))
            &&& r.section == Section::Outside
            &&& block.anchor is Some ==> r.blocks == 0 && r.old is None
        }),
    ensures
        ({
            let r = read_lines(above, above.len() as int);
            let all = above + block.sections();
            let s = read_lines(all, all.len() as int);
            &&& s.header == r.header && s.section == Section::Outside && s.blocks == r.blocks + 1
            &&& s.old is None && s.new is None
            &&& s.problems == r.problems
            &&& s.asks.len() == r.asks.len() + 1 && s.asks.drop_last() == r.asks
            &&& block.asks(s.asks.last())
        }),
{
    lemma_markers();
    let r = read_lines(above, above.len() as int);
    let all = above + block.sections();
    let n = above.len() as int;
    let m = block.old.len() as int;
    let head: int = if block.anchor is None {
        1 + m
    } else {
        0
    };
    lemma_read_prefix(above, block.sections(), n);
    if block.anchor is None {
        assert(all[n] == "<<<<<<< old"@);
        assert(read_lines(all, n + 1) == read_old(r, (n + 1) as nat));
        assert forall|i: int| n + 1 <= i < n + 1 + m implies is_plain(#[trigger] all[i]) by {
            assert(all[i] == block.old[i - n - 1]);
        }
        lemma_read_section(all, n + 1, m);
        assert(all.subrange(n + 1, n + 1 + m) =~= block.old);
        assert(Seq::empty() + block.old =~= block.old);
    }
    let k = n + head;
    assert(all[k] == "======= new"@);
    let opened = read_lines(all, k);
    assert(opened.problems == r.problems && opened.asks == r.asks && opened.header == r.header
        && opened.blocks == r.blocks);
    assert(read_lines(all, k + 1) == (Reading {
        new: Some(Seq::empty()),
        section: Section::New,
        ..opened
    }));
    let w = block.new.len() as int;
    assert forall|i: int| k + 1 <= i < k + 1 + w implies is_plain(#[trigger] all[i]) by {
        assert(all[i] == block.new[i - k - 1]);
    }
    lemma_read_section(all, k + 1, w);
    assert(all.subrange(k + 1, k + 1 + w) =~= block.new);
    assert(Seq::empty() + block.new =~= block.new);
    assert(all[k + 1 + w] == ">>>>>>>"@);
    assert(all.len() == k + 1 + w + 1);
    let closed = read_lines(all, k + 1 + w);
    assert(closed.new == Some(block.new));
    let s = read_lines(all, all.len() as int);
    assert(s == read_end(closed, (k + 1 + w + 1) as nat));
    assert(s.asks.drop_last() =~= r.asks);
}

proof fn lemma_split_at(head: Seq<char>, sep: Seq<char>, tail: Seq<char>)
    requires
        sep.len() >= 2,
        sep[0] == ' ',
        forall|i: int| 0 < i < sep.len() - 1 ==> sep[i] != ' ',
        !contains_text(head + " "@, sep),
        sep.last() == ' ',
    ensures
        split_of(head + sep + tail, sep) == Some((head, tail)),
        split_of(head, sep) is None,
{
    reveal_strlit(" ");
    let all = head + sep + tail;
    let n = head.len() as int;
    lemma_first_place(all, sep, 0);
    assert(all.subrange(n, n + sep.len()) =~= sep);
    assert(stands_at(all, sep, n));
    let i = first_place(all, sep, 0)->0;
    if i < n {
        let padded = head + " "@;
        if i + sep.len() <= n + 1 {
            assert(padded.subrange(i, i + sep.len()) =~= all.subrange(i, i + sep.len())) by {
                assert(all[n] == sep[0]);
            }
            assert(stands_at(padded, sep, i));
        } else {
            assert(all.subrange(i, i + sep.len())[n - i] == all[n]);
            assert(sep[n - i] == sep[0]);
        }
    }
    assert(all.take(n) =~= head);
    assert(all.skip(n + sep.len()) =~= tail);
    lemma_first_place(head, sep, 0);
    if let Some(j) = first_place(head, sep, 0) {
        let padded = head + " "@;
        assert(padded.subrange(j, j + sep.len()) =~= head.subrange(j, j + sep.len()));
        assert(stands_at(padded, sep, j));
    }
}

/// A header's names are read back from it.
proof fn lemma_header_names(block: Block)
    requires
        block.can_be_written(),
    ensures
        "@@ "@.is_prefix_of(block.header()),
        header_names(block.header().skip("@@ "@.len() as int)) == (Names {
            file: block.file,
            anchor: block.anchor,
        }),
{
    let rest = match block.anchor {
        Some((AnchorSide::After, at)) => block.file + " insert-after "@ + at,
        Some((AnchorSide::Before, at)) => block.file + " insert-before "@ + at,
        None => block.file,
    };
    assert(block.header() == "@@ "@ + rest);
    assert(block.header().skip("@@ "@.len() as int) =~= rest);
    assert(block.header().take("@@ "@.len() as int) =~= "@@ "@);
    reveal_strlit(" insert-after ");
    reveal_strlit(" insert-before ");
    let (after, ahead) = (" insert-after "@, " insert-before "@);
    match block.anchor {
        Some((AnchorSide::After, at)) => {
            lemma_split_at(block.file, after, at);
        },
        Some((AnchorSide::Before, at)) => {
            lemma_split_at(block.file, ahead, at);
            lemma_first_place(rest, after, 0);
        },
        None => {
            lemma_split_at(block.file, after, Seq::empty());
            lemma_split_at(block.file, ahead, Seq::empty());
        },
    }
}

/// A block put at the end of a batch adds the edit it is, and changes nothing of what the batch asks
/// for: its file, its anchor, and its texts with every line of them, blank ones too.
pub proof fn law_a_block_adds_its_edit(above: Seq<Seq<char>>, block: Block)
    requires
        fence_problems(above).len() == 0,
        block.can_be_written(),
    ensures
        fence_problems(above + block.written()).len() == 0,
        ({
            let (had, has) = (fence_asks(above), fence_asks(above + block.written()));
            has.len() == had.len() + 1 && has.drop_last() == had && block.asks(has.last())
        }),
{
    let n = above.len() as int;
    let r = read_lines(above, n);
    let top = seq![block.header()];
    let opened = above + top;
    lemma_header_names(block);
    lemma_read_prefix(above, top, n);
    assert(opened[n] == block.header());
    assert(read_lines(opened, n + 1) == read_header(
        r,
        block.header().skip("@@ "@.len() as int),
        (n + 1) as nat,
    ));
    lemma_read_sections(opened, block, (n + 1) as nat);
    assert(above + block.written() =~= opened + block.sections());
}

/// A header stays active: a block with no header of its own is one more edit of the file that the
/// block above it replaces text in.
pub proof fn law_a_header_holds_for_the_blocks_that_follow(
    above: Seq<Seq<char>>,
    first: Block,
    second: Block,
)
    requires
        fence_problems(above).len() == 0,
        first.can_be_written() && second.can_be_written(),
        first.anchor is None && second.anchor is None && first.file == second.file,
    ensures
        ({
            let all = above + first.written() + second.sections();
            let has = fence_asks(all);
            &&& fence_problems(all).len() == 0
            &&& has.len() == fence_asks(above).len() + 2
            &&& has.take(has.len() - 2) == fence_asks(above)
            &&& first.asks(has[has.len() - 2])
            &&& second.asks(has.last())
        }),
{
    let n = above.len() as int;
    let r = read_lines(above, n);
    let top = seq![first.header()];
    let opened = above + top;
    lemma_header_names(first);
    lemma_read_prefix(above, top, n);
    assert(opened[n] == first.header());
    lemma_read_sections(opened, first, (n + 1) as nat);
    let one = opened + first.sections();
    assert(above + first.written() =~= one);
    lemma_read_sections(one, second, (n + 1) as nat);
    let has = fence_asks(one + second.sections());
    assert(has.drop_last() == fence_asks(one));
    assert(has[has.len() - 2] == has.drop_last().last());
    assert(has.take(has.len() - 2) =~= has.drop_last().drop_last());
}

/// The text of a block that replaces `old` by `new`.
pub open spec fn replacing(file: Seq<char>, old: Seq<char>, new: Seq<char>) -> Seq<char> {
    "@@ "@ + file + "\n<<<<<<< old\n"@ + old + "\n======= new\n"@ + new + "\n>>>>>>>\n"@
}

/// A replacement written as a block is read back as it was written: whatever the two texts are, as
/// long as none of their lines reads as part of the block's own frame, the edit replaces exactly the
/// one by exactly the other, once, in the file that the header names.
pub proof fn law_a_replacement_is_read_back(
    r: Result<Vec<EditSpec>, Error>,
    file: Seq<char>,
    old: Seq<char>,
    new: Seq<char>,
)
    requires
        is_batch(
            r,
            fence_problems(lines_of(replacing(file, old, new))),
            fence_asks(lines_of(replacing(file, old, new))),
        ),
        file == trimmed(file),
        !file.contains('\n') && !file.contains('\r') && !old.contains('\r') && !new.contains('\r'),
        !contains_text(file + " "@, " insert-after "@),
        !contains_text(file + " "@, " insert-before "@),
        forall|i: int|
            0 <= i < lines_of(old + seq!['\n']).len() ==> is_plain(
                #[trigger] lines_of(old + seq!['\n'])[i],
            ),
        forall|i: int|
            0 <= i < lines_of(new + seq!['\n']).len() ==> is_plain(
                #[trigger] lines_of(new + seq!['\n'])[i],
            ),
    ensures
        r matches Ok(specs) && specs@.len() == 1 && specs@[0].raw@ == file && (
        specs@[0].op matches EditOp::Replace { old: o, new: w, all: false } && o@ == encode_utf8(old)
            && w@ == encode_utf8(new)) && specs@[0].if_sha is None && !specs@[0].normalize
            && !specs@[0].literal_newlines,
{
    let nl = seq!['\n'];
    let block = Block {
        file,
        anchor: None,
        old: lines_of(old + nl),
        new: lines_of(new + nl),
    };
    reveal_strlit("\n");
    assert("\n"@ =~= nl);
    law_the_lines_of_a_text_make_it_up(old);
    law_the_lines_of_a_text_make_it_up(new);
    lemma_written(file, old, new);
    let none: Seq<Seq<char>> = Seq::empty();
    assert(fence_problems(none).len() == 0);
    law_a_block_adds_its_edit(none, block);
    assert(none + block.written() =~= lines_of(replacing(file, old, new)));
    let asks = fence_asks(lines_of(replacing(file, old, new)));
    assert(asks.len() == 1);
    let specs = r->Ok_0;
    assert(asked_all(specs@).len() == specs@.len());
    assert(asked_all(specs@)[0] == specs@[0].asked());
    assert(asks.last() == asks[0]);
}

proof fn lemma_written(file: Seq<char>, old: Seq<char>, new: Seq<char>)
    requires
        !file.contains('\n') && !file.contains('\r'),
    ensures
        lines_of(replacing(file, old, new)) == seq![("@@ "@ + file), "<<<<<<< old"@] + lines_of(
            old + seq!['\n'],
        ) + seq!["======= new"@] + lines_of(new + seq!['\n']) + seq![">>>>>>>"@],
{
    let nl = seq!['\n'];
    let top = "@@ "@ + file;
    reveal_strlit("@@ ");
    reveal_strlit("<<<<<<< old");
    reveal_strlit("======= new");
    reveal_strlit(">>>>>>>");
    reveal_strlit("\n<<<<<<< old\n");
    reveal_strlit("\n======= new\n");
    reveal_strlit("\n>>>>>>>\n");
    assert("\n<<<<<<< old\n"@ =~= nl + "<<<<<<< old"@ + nl);
    assert("\n======= new\n"@ =~= nl + "======= new"@ + nl);
    assert("\n>>>>>>>\n"@ =~= nl + ">>>>>>>"@ + nl);
    assert forall|i: int| 0 <= i < top.len() implies top[i] != '\n' && top[i] != '\r' by {
        if i >= 3 {
            assert(file.contains(file[i - 3]));
        }
    }
    let none: Seq<char> = Seq::empty();
    let d = ">>>>>>>"@ + nl + none;
    law_a_line_is_what_stands_before_its_end(">>>>>>>"@, none);
    assert(lines_of(none) =~= Seq::empty());
    let c = new + nl + d;
    law_texts_in_a_row_have_their_lines_in_a_row(new, d);
    let b = "======= new"@ + nl + c;
    law_a_line_is_what_stands_before_its_end("======= new"@, c);
    let a = old + nl + b;
    law_texts_in_a_row_have_their_lines_in_a_row(old, b);
    let o = "<<<<<<< old"@ + nl + a;
    law_a_line_is_what_stands_before_its_end("<<<<<<< old"@, a);
    law_a_line_is_what_stands_before_its_end(top, o);
    assert(replacing(file, old, new) =~= top + nl + o);
    assert(lines_of(replacing(file, old, new)) =~= seq![top, "<<<<<<< old"@] + lines_of(old + nl)
        + seq!["======= new"@] + lines_of(new + nl) + seq![">>>>>>>"@]);
}

/// A header with no whole block under it is refused, wherever the batch breaks off.
pub proof fn law_a_block_that_is_not_ended_is_refused(
    above: Seq<Seq<char>>,
    header: Seq<char>,
    rest: Seq<Seq<char>>,
)
    requires
        "@@ "@.is_prefix_of(header),
        forall|i: int|
            0 <= i < rest.len() ==> !"@@ "@.is_prefix_of(#[trigger] rest[i]) && trimmed_end(rest[i])
                != ">>>>>>>"@,
    ensures
        fence_problems(above + seq![header] + rest).len() > 0,
{
    let all = above + seq![header] + rest;
    let n = above.len() as int;
    assert(all[n] == header);
    lemma_stays_open(all, n + 1, all.len() as int);
}

proof fn lemma_stays_open(lines: Seq<Seq<char>>, k: int, n: int)
    requires
        0 < k <= n <= lines.len(),
        "@@ "@.is_prefix_of(lines[k - 1]),
        forall|i: int|
            k <= i < n ==> !"@@ "@.is_prefix_of(#[trigger] lines[i]) && trimmed_end(lines[i])
                != ">>>>>>>"@,
    ensures
        read_lines(lines, n).header is Some,
        read_lines(lines, n).blocks == 0,
    decreases n,
{
    if k < n {
        lemma_stays_open(lines, k, n - 1);
    }
}

/// What stands between blocks and is not blank is refused, not passed over; a blank line there means
/// nothing.
pub proof fn law_nothing_is_said_between_blocks(
    above: Seq<Seq<char>>,
    block: Block,
    line: Seq<char>,
)
    requires
        fence_problems(above).len() == 0,
        block.can_be_written(),
        is_plain(line),
    ensures
        ({
            let all = above + block.written();
            let more = fence_problems(all + seq![line]);
            &&& more.len() == 0 <==> (forall|i: int|
                0 <= i < line.len() ==> is_space(#[trigger] line[i]))
            &&& fence_asks(all + seq![line]) == fence_asks(all)
        }),
{
    let n = above.len() as int;
    let opened = above + seq![block.header()];
    lemma_header_names(block);
    lemma_read_prefix(above, seq![block.header()], n);
    assert(opened[n] == block.header());
    lemma_read_sections(opened, block, (n + 1) as nat);
    let all = above + block.written();
    assert(all =~= opened + block.sections());
    let m = all.len() as int;
    lemma_read_prefix(all, seq![line], m);
    assert((all + seq![line])[m] == line);
    let (from, to) = law_trimming_takes_white_space_alone(line);
    law_a_block_adds_its_edit(above, block);
}

} // verus!
