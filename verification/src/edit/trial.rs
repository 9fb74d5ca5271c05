//! The edits of one file, tried one after the other on what the one before left.
use vstd::prelude::*;

use crate::edit::apply::{goes_on, read_failure, Checked, Group, Plan};
use crate::edit::bytes::{replacement_of, Span};
use crate::edit::prepare::{
    are_changed, are_edit_notes, can_hold, conclude, is_concluded, is_folded, is_prepared,
    is_stashed, is_stepped, noted_after, planned, prepare, step, Prepared,
};
use crate::edit::replace::{moved_spans, Fold, Found};
use crate::edit::spec::{Applied, EditOp, EditSpec, Kind, Lookup};
use crate::edit::splice::spliced;
use crate::error::{is_not_found, not_found, Error};
use crate::output::{EditResult, Omission, Sha12};

verus! {

/// How far the edit at hand is.
#[derive(Debug)]
#[allow(inconsistent_fields)]
pub enum Stage {
    /// No edit is at hand.
    Idle,
    /// The bytes that it starts from are known.
    Started,
    /// Its needle is searched for within `scope`.
    Searching { scope: Span, guessed: bool },
    /// It is made, in memory.
    Made(Applied),
}

/// A file whose edits are tried: the plan so far, and the bytes that the edit at hand starts from,
/// with their hash.
#[derive(Debug)]
pub struct Trial {
    pub path: String,
    pub folded: Option<Plan>,
    pub before: Vec<u8>,
    pub sha: Sha12,
    pub stage: Stage,
}

/// What the disk said of a file: its bytes and their hash, or why they are not to be had. Where an
/// edit names a hash, bytes with another are such a reason.
pub type Read = Result<(Vec<u8>, Sha12), Error>;

/// An edit needs the disk where it is the file's first, or names the hash of the file on it.
pub open spec fn needs_disk(folded: Option<Plan>, spec: EditSpec) -> bool {
    folded is None || spec.if_sha is Some
}

/// The bytes that an edit starts from, with their hash: what the edit before it left, or, of the
/// first edit, what is on the disk. A hash that an edit names is held against the disk either way.
pub open spec fn is_start(
    r: Result<(), Error>,
    folded: Option<Plan>,
    spec: EditSpec,
    read: Option<Read>,
    meant: Option<String>,
    before: Seq<u8>,
    sha: Seq<char>,
) -> bool {
    match folded {
        Some(plan) => if spec.if_sha is Some && read->0 is Err {
            r == Err::<(), Error>(read->0->Err_0)
        } else {
            r is Ok && plan.goes_on_from(before, sha)
        },
        None => match read->0 {
            Ok((bytes, hash)) => r is Ok && before == bytes@ && sha == hash.hex@,
            Err(error) => r matches Err(failure) && if (error matches Error::Io { missing, .. }
                && missing) && meant is Some {
                failure matches Error::MistypedTarget { target, meant: m } && target@ == spec.raw@
                    && m == meant->0
            } else {
                failure == error
            },
        },
    }
}

impl Trial {
    /// The edit at hand starts from what the one before it left.
    pub open spec fn wf(self) -> bool {
        self.folded matches Some(plan) ==> if self.stage is Idle {
            plan.is_chained()
        } else {
            plan.goes_on_from(self.before@, self.sha.hex@)
        }
    }

    /// All but the stage is as it was.
    pub open spec fn is_same_but_stage(self, other: Trial) -> bool {
        &&& self.path == other.path
        &&& self.folded == other.folded
        &&& self.before == other.before
        &&& self.sha == other.sha
    }

    pub fn new(path: String) -> (r: Trial)
        ensures
            r.wf(),
            r.path == path,
            r.folded is None,
            r.stage is Idle,
    {
        Trial {
            path,
            folded: None,
            before: Vec::new(),
            sha: Sha12 { hex: "".to_owned() },
            stage: Stage::Idle,
        }
    }

    /// How many edits are tried.
    pub open spec fn tried_count(self) -> nat {
        match self.folded {
            Some(plan) => plan.detail@.len(),
            None => 0,
        }
    }

    /// The next edit to try, by its place in the batch.
    pub fn next(&self, group: &Group) -> (r: Option<usize>)
        ensures
            r == (if self.tried_count() < group.members@.len() {
                Some(group.members@[self.tried_count() as int])
            } else {
                None
            }),
    {
        let tried = match &self.folded {
            Some(plan) => plan.detail.len(),
            None => 0,
        };
        if tried < group.members.len() {
            Some(group.members[tried])
        } else {
            None
        }
    }

    /// Whether the edit needs the disk.
    pub fn reads(&self, spec: &EditSpec) -> (r: bool)
        ensures
            r == needs_disk(self.folded, *spec),
    {
        self.folded.is_none() || spec.if_sha.is_some()
    }

    /// Takes up an edit. `read` is what the disk said, where the edit needs it, and `meant` the
    /// target that a mistyped one stands for.
    pub fn start(&mut self, spec: &EditSpec, read: Option<Read>, meant: Option<String>) -> (r: Result<
        (),
        Error,
    >)
        requires
            old(self).wf(),
            old(self).stage is Idle,
            needs_disk(old(self).folded, *spec) ==> read is Some,
        ensures
            final(self).wf(),
            final(self).path == old(self).path,
            final(self).folded == old(self).folded,
            final(self).stage == (if r is Ok {
                Stage::Started
            } else {
                Stage::Idle
            }),
            is_start(
                r,
                old(self).folded,
                *spec,
                read,
                meant,
                final(self).before@,
                final(self).sha.hex@,
            ),
    {
        match &self.folded {
            Some(plan) => {
                if spec.if_sha.is_some() {
                    if let Some(Err(error)) = read {
                        return Err(error);
                    }
                }
                let left = plan.after.clone();
                assert(left@ =~= plan.after@);
                let last = plan.detail.len() - 1;
                let sha = Sha12 { hex: plan.detail[last].sha.after.hex.clone() };
                self.before = left;
                self.sha = sha;
            },
            None => match read {
                Some(Ok((bytes, sha))) => {
                    self.before = bytes;
                    self.sha = sha;
                },
                Some(Err(error)) => {
                    return Err(read_failure(spec.raw.as_str(), error, meant));
                },
                None => {
                    return Err(not_found(self.path.as_str(), "an edit".to_owned()));
                },
            },
        }
        self.stage = Stage::Started;
        Ok(())
    }

    /// Makes the edit, or says what to search for, and where, before it can be made.
    pub fn prepare(&mut self, spec: &EditSpec, file: &str, kind: &Kind, lookup: &Lookup) -> (r: Result<
        Option<(Span, Vec<u8>)>,
        Error,
    >)
        requires
            old(self).wf(),
            old(self).stage is Started,
            kind.in_order(),
            lookup.within(old(self).before@.len()),
            can_hold(*spec, old(self).before@),
        ensures
            final(self).wf(),
            final(self).is_same_but_stage(*old(self)),
            match r {
                Err(error) => final(self).stage is Started && is_prepared(
                    Err(error),
                    *spec,
                    old(self).path@,
                    file@,
                    *kind,
                    old(self).before@,
                    old(self).folded is Some,
                    *lookup,
                ),
                Ok(Some((scope, needle))) => final(self).stage matches Stage::Searching {
                    scope: s,
                    guessed,
                } && s == scope && is_prepared(
                    Ok(Prepared::Search { scope, guessed, needle }),
                    *spec,
                    old(self).path@,
                    file@,
                    *kind,
                    old(self).before@,
                    old(self).folded is Some,
                    *lookup,
                ),
                Ok(None) => final(self).stage matches Stage::Made(applied) && is_prepared(
                    Ok(Prepared::Done(applied)),
                    *spec,
                    old(self).path@,
                    file@,
                    *kind,
                    old(self).before@,
                    old(self).folded is Some,
                    *lookup,
                ),
            },
    {
        let carried = self.folded.is_some();
        match prepare(spec, self.path.as_str(), file, kind, &self.before, carried, lookup) {
            Err(error) => Err(error),
            Ok(Prepared::Search { scope, guessed, needle }) => {
                self.stage = Stage::Searching { scope, guessed };
                Ok(Some((scope, needle)))
            },
            Ok(Prepared::Done(applied)) => {
                self.stage = Stage::Made(applied);
                Ok(None)
            },
        }
    }

    /// Makes the edit, once the search for its needle came to `found`.
    pub fn conclude(&mut self, spec: &EditSpec, found: Found, folding: &Fold) -> (r: Result<(), Error>)
        requires
            old(self).wf(),
            spec.op is Replace,
            old(self).stage is Searching,
            old(self).stage->scope.within(old(self).before@.len()),
            found.within(
                old(self).before@.subrange(
                    old(self).stage->scope.start as int,
                    old(self).stage->scope.end as int,
                ),
            ),
            old(self).before@.len() < usize::MAX,
            spec.op matches EditOp::Replace { new, .. } ==> spliced(
                old(self).before@,
                moved_spans(found.located(), old(self).stage->scope.start),
                replacement_of(new@, old(self).before@, spec.literal_newlines),
            ).len() < usize::MAX,
        ensures
            final(self).wf(),
            final(self).is_same_but_stage(*old(self)),
            match r {
                Ok(()) => final(self).stage is Made,
                Err(_) => final(self).stage == old(self).stage,
            },
            is_concluded(
                match r {
                    Ok(()) => Ok(final(self).stage->Made_0),
                    Err(error) => Err(error),
                },
                *spec,
                old(self).path@,
                old(self).before@,
                old(self).folded is Some,
                old(self).stage->scope,
                old(self).stage->guessed,
                found,
                *folding,
            ),
    {
        let carried = self.folded.is_some();
        let (scope, guessed) = match &self.stage {
            Stage::Searching { scope, guessed } => (*scope, *guessed),
            _ => (Span { start: 0, end: 0 }, false),
        };
        let path = self.path.as_str();
        match conclude(spec, path, &self.before, carried, scope, guessed, found, folding) {
            Ok(applied) => {
                self.stage = Stage::Made(applied);
                Ok(())
            },
            Err(error) => Err(error),
        }
    }

    /// The edit that is made.
    pub fn made(&self) -> (r: Option<&Applied>)
        ensures
            match r {
                Some(applied) => self.stage == Stage::Made(*applied),
                None => !(self.stage is Made),
            },
    {
        match &self.stage {
            Stage::Made(applied) => Some(applied),
            _ => None,
        }
    }

    /// `next` holds the plan with the edit that is made added to it.
    pub open spec fn is_grown(self, after_sha: Seq<char>, next: Trial) -> bool {
        &&& next.stage is Idle
        &&& next.path == self.path
        &&& next.folded matches Some(plan) && {
            let result = plan.detail@.last();
            &&& plan.is_chained()
            &&& is_folded(plan, self.folded, self.path@, self.before, self.stage->Made_0, result)
            &&& result.sha.before.hex@ == self.sha.hex@
            &&& result.sha.after.hex@ == after_sha
        }
    }

    /// Adds the edit that is made to the plan, unless it broke the file, in which case it is kept
    /// as `stash` and the batch fails. `after_sha` is the hash of the bytes it left.
    pub fn tried(
        self,
        checked: &Checked,
        after_sha: Sha12,
        omitted: &mut Vec<Omission>,
        stash: &mut Option<EditResult>,
    ) -> (r: Result<Trial, Error>)
        requires
            self.wf(),
            self.stage is Made,
            are_changed(self.stage->Made_0),
        ensures
            are_edit_notes(
                old(omitted)@,
                final(omitted)@,
                self.path@,
                self.stage->Made_0,
                *checked,
            ),
            r matches Ok(next) ==> next.wf() && self.is_grown(after_sha.hex@, next),
            is_stepped(
                match r {
                    Ok(next) => Ok(next.folded->0),
                    Err(error) => Err(error),
                },
                self.folded,
                self.path@,
                self.before,
                self.stage->Made_0,
                *checked,
                self.sha.hex@,
                after_sha.hex@,
                noted_after(
                    old(omitted)@,
                    final(omitted)@,
                    self.path@,
                    self.stage->Made_0,
                    *checked,
                ),
            ),
            is_stashed(
                match r {
                    Ok(next) => Ok(next.folded->0),
                    Err(error) => Err(error),
                },
                *old(stash),
                *final(stash),
                self.path@,
                self.stage->Made_0,
                *checked,
                self.sha.hex@,
                after_sha.hex@,
                noted_after(
                    old(omitted)@,
                    final(omitted)@,
                    self.path@,
                    self.stage->Made_0,
                    *checked,
                ),
            ),
    {
        let Trial { path, folded, before, sha, stage } = self;
        match stage {
            Stage::Made(applied) => match step(
                folded,
                path.as_str(),
                before,
                applied,
                checked,
                sha,
                after_sha,
                omitted,
                stash,
            ) {
                Ok(plan) => Ok(
                    Trial {
                        path,
                        folded: Some(plan),
                        before: Vec::new(),
                        sha: Sha12 { hex: "".to_owned() },
                        stage: Stage::Idle,
                    },
                ),
                Err(error) => Err(error),
            },
            _ => Err(not_found(path.as_str(), "an edit".to_owned())),
        }
    }

    /// The file's plan, once all of its edits are tried: there is one where there was an edit.
    pub fn planned(self) -> (r: Result<Plan, Error>)
        ensures
            match self.folded {
                Some(plan) => r == Ok::<Plan, Error>(plan),
                None => r matches Err(error) && is_not_found(error, self.path@, "an edit"@),
            },
    {
        planned(self.folded, self.path.as_str())
    }
}

/// Edit `k` was made as `made[k]`, took the plan in `idle[k]` to the one in `idle[k + 1]`, and left
/// bytes with the hash `shas[k]`.
pub open spec fn is_turn(
    idle: Seq<Trial>,
    made: Seq<Trial>,
    shas: Seq<Seq<char>>,
    k: int,
) -> bool {
    &&& made[k].wf()
    &&& made[k].stage is Made
    &&& made[k].folded == idle[k].folded
    &&& made[k].is_grown(shas[k], idle[k + 1])
}

/// The edits of a file were tried one after the other.
pub open spec fn is_tried_in_turn(
    idle: Seq<Trial>,
    made: Seq<Trial>,
    shas: Seq<Seq<char>>,
) -> bool {
    &&& made.len() > 0
    &&& idle.len() == made.len() + 1
    &&& shas.len() == made.len()
    &&& idle[0].folded is None
    &&& forall|k: int| 0 <= k < made.len() ==> #[trigger] is_turn(idle, made, shas, k)
}

/// Edit `k` started from the bytes that the one before it made.
pub open spec fn starts_from_last(made: Seq<Trial>, k: int) -> bool {
    made[k].before@ == made[k - 1].stage->Made_0.after@
}

/// Several edits of one file are one change of it. The first starts from the file as it was read
/// and each other from the bytes that the one before it made, the plan takes the file from the
/// first bytes to the last, and the hashes that are told say the same.
pub proof fn law_each_edit_starts_from_what_the_one_before_left(
    idle: Seq<Trial>,
    made: Seq<Trial>,
    shas: Seq<Seq<char>>,
)
    requires
        is_tried_in_turn(idle, made, shas),
    ensures
        idle.last().folded matches Some(plan) && {
            let n = made.len() as int;
            &&& plan.before == made[0].before
            &&& forall|k: int| 0 < k < n ==> #[trigger] starts_from_last(made, k)
            &&& plan.after@ == made[n - 1].stage->Made_0.after@
            &&& plan.detail@.len() == n
            &&& plan.detail@[0].sha.before.hex@ == made[0].sha.hex@
            &&& forall|k: int| 0 < k < n ==> #[trigger] goes_on(plan.detail@, k)
            &&& forall|k: int| 0 <= k < n ==> (#[trigger] plan.detail@[k]).sha.after.hex@ == shas[k]
        },
    decreases made.len(),
{
    let n = made.len() as int;
    assert(is_turn(idle, made, shas, n - 1));
    let plan = idle.last().folded->0;
    if n > 1 {
        let (i, m, s) = (idle.drop_last(), made.drop_last(), shas.drop_last());
        assert forall|k: int| 0 <= k < m.len() implies #[trigger] is_turn(i, m, s, k) by {
            assert(is_turn(idle, made, shas, k));
            assert(i[k] == idle[k] && i[k + 1] == idle[k + 1] && m[k] == made[k] && s[k] == shas[k]);
        }
        law_each_edit_starts_from_what_the_one_before_left(i, m, s);
        let had = i.last().folded->0;
        assert(i.last() == idle[n - 1]);
        assert(plan.detail@ == had.detail@.push(plan.detail@.last()));
        assert forall|k: int| 0 < k < n implies #[trigger] starts_from_last(made, k) by {
            if k < n - 1 {
                assert(starts_from_last(m, k));
                assert(m[k] == made[k] && m[k - 1] == made[k - 1]);
            } else {
                assert(m[k - 1] == made[k - 1]);
            }
        }
        assert forall|k: int| 0 <= k < n implies (#[trigger] plan.detail@[k]).sha.after.hex@
            == shas[k] by {
            if k < n - 1 {
                assert(plan.detail@[k] == had.detail@[k]);
                assert(s[k] == shas[k]);
            }
        }
    }
}

} // verus!
