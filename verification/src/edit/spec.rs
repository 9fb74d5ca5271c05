//! What one edit asks for, and what carrying it out leaves behind.
use vstd::prelude::*;

use crate::edit::bytes::Span;
use crate::output::{AnchorSide, EditKind, Marker, Sha12};

verus! {

/// One edit as it was asked for. `raw` is its target as typed.
#[derive(Debug)]
pub struct EditSpec {
    pub raw: String,
    pub op: EditOp,
    pub if_sha: Option<Sha12>,
    pub normalize: bool,
    pub literal_newlines: bool,
}

#[derive(Debug)]
#[allow(inconsistent_fields)]
pub enum EditOp {
    Replace { old: Vec<u8>, new: Vec<u8>, all: bool },
    ReplaceRange { expect: Option<String>, expect_all: Option<String>, new: Vec<u8> },
    Insert { side: AnchorSide, anchor: String, new: Vec<u8> },
}

/// What an edit is to do, as a value.
pub ghost enum AskedOp {
    Replace { old: Seq<u8>, new: Seq<u8>, all: bool },
    ReplaceRange { expect: Option<Seq<char>>, expect_all: Option<Seq<char>>, new: Seq<u8> },
    Insert { side: AnchorSide, anchor: Seq<char>, new: Seq<u8> },
}

/// What an edit asks for, as a value.
pub ghost struct Asked {
    pub raw: Seq<char>,
    pub op: AskedOp,
    pub sha: Option<Seq<char>>,
    pub normalize: bool,
    pub literal: bool,
}

pub open spec fn said(text: Option<String>) -> Option<Seq<char>> {
    match text {
        Some(s) => Some(s@),
        None => None,
    }
}

impl EditOp {
    pub open spec fn asked(self) -> AskedOp {
        match self {
            EditOp::Replace { old, new, all } => AskedOp::Replace { old: old@, new: new@, all },
            EditOp::ReplaceRange { expect, expect_all, new } => AskedOp::ReplaceRange {
                expect: said(expect),
                expect_all: said(expect_all),
                new: new@,
            },
            EditOp::Insert { side, anchor, new } => AskedOp::Insert {
                side,
                anchor: anchor@,
                new: new@,
            },
        }
    }
}

impl EditSpec {
    pub open spec fn asked(self) -> Asked {
        Asked {
            raw: self.raw@,
            op: self.op.asked(),
            sha: match self.if_sha {
                Some(sha) => Some(sha.hex@),
                None => None,
            },
            normalize: self.normalize,
            literal: self.literal_newlines,
        }
    }
}

/// What a list of edits asks for.
pub open spec fn asked_all(specs: Seq<EditSpec>) -> Seq<Asked> {
    specs.map_values(|spec: EditSpec| spec.asked())
}

/// Which part of its file a target names.
#[derive(Debug)]
pub enum Kind {
    Whole,
    Line(usize),
    Range(usize, usize),
    Regex { pattern: String, occurrence: usize },
    Symbol(Vec<String>),
}

impl Kind {
    /// A range is written from its first line to its last.
    pub open spec fn in_order(self) -> bool {
        self matches Kind::Range(first, last) ==> first <= last
    }
}

/// A definition that a `#symbol` target may mean: its lines, its bytes, and whether where it ends
/// is a guess.
#[derive(Debug)]
pub struct SymbolMatch {
    pub line: usize,
    pub end_line: usize,
    pub start: usize,
    pub end: usize,
    pub end_guessed: bool,
    pub text: String,
}

/// What looking a target's pattern or symbol up in the file came to. `hint` is the pattern to try
/// where a file has no grammar: a miss does not prove the name absent there.
#[derive(Debug)]
pub enum Lookup {
    Unasked,
    BadPattern,
    NoLine,
    Line(usize),
    Symbols { found: Vec<SymbolMatch>, hint: Option<String> },
}

impl Lookup {
    /// What was found lies in a file of `len` bytes, and lines count from `1`.
    pub open spec fn within(self, len: nat) -> bool {
        match self {
            Lookup::Line(line) => line >= 1,
            Lookup::Symbols { found, .. } => forall|i: int|
                0 <= i < found@.len() ==> (#[trigger] found@[i]).start <= found@[i].end <= len
                    && 1 <= found@[i].line && 1 <= found@[i].end_line,
            _ => true,
        }
    }
}

/// `edits` pairs each replaced span with its replacement's length, which a check compares.
#[derive(Debug)]
pub struct Applied {
    pub after: Vec<u8>,
    pub edits: Vec<(Span, usize)>,
    pub kind: EditKind,
    pub match_kind: String,
    pub changed: Vec<(usize, usize)>,
    pub marker: Marker,
    pub normalized: bool,
    pub crlf: bool,
    pub span_guessed: bool,
}

} // verus!
