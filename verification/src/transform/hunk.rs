//! How the lines of a document move while operations rewrite it, one after the other.
use vstd::prelude::*;

use crate::text;
use crate::text::{lines_of, texts};

verus! {

/// A line on its way through the operations. `Written` carries the original line it stands in for;
/// a removed line stays as `Gone`, shown just above the line that now sits where it was.
#[derive(Debug)]
pub enum Row {
    Kept(String),
    Written(Option<String>),
    Gone(String),
}

impl Row {
    /// The row is a line of the document as it is now.
    pub open spec fn lives(self) -> bool {
        self !is Gone
    }
}

/// The lines of the document as it is now.
pub open spec fn living(rows: Seq<Row>) -> Seq<Row>
    decreases rows.len(),
{
    if rows.len() == 0 {
        Seq::empty()
    } else if rows.last().lives() {
        living(rows.drop_last()).push(rows.last())
    } else {
        living(rows.drop_last())
    }
}

/// The lines that are gone.
pub open spec fn gone(rows: Seq<Row>) -> Seq<Row>
    decreases rows.len(),
{
    if rows.len() == 0 {
        Seq::empty()
    } else if rows.last().lives() {
        gone(rows.drop_last())
    } else {
        gone(rows.drop_last()).push(rows.last())
    }
}

/// The lines of the file that a row stands for: none, where an operation added it.
pub open spec fn origin(row: Row) -> Seq<String> {
    match row {
        Row::Kept(was) => seq![was],
        Row::Written(Some(was)) => seq![was],
        Row::Written(None) => Seq::empty(),
        Row::Gone(was) => seq![was],
    }
}

/// The lines of the file that the rows stand for.
pub open spec fn origins(rows: Seq<Row>) -> Seq<String>
    decreases rows.len(),
{
    if rows.len() == 0 {
        Seq::empty()
    } else {
        origins(rows.drop_last()) + origin(rows.last())
    }
}

/// One run of lines that differs: an editor rewrites one entry, so that is where its bytes differ.
#[derive(Debug, Clone, Copy, PartialEq, Eq, Structural)]
pub struct Hunk {
    pub start: usize,
    pub removed: usize,
    pub added: usize,
}

impl Hunk {
    /// The run is the shortest outside which the lines agree: as many as can be at the start, and
    /// of the rest as many as can be at the end.
    pub open spec fn is_between(self, before: Seq<Seq<char>>, after: Seq<Seq<char>>) -> bool {
        let shorter = if before.len() <= after.len() {
            before.len() as int
        } else {
            after.len() as int
        };
        let end = before.len() - self.start - self.removed;
        &&& 0 <= self.start <= shorter
        &&& 0 <= end <= shorter - self.start
        &&& end == after.len() - self.start - self.added
        &&& forall|i: int| 0 <= i < self.start ==> before[i] == after[i]
        &&& self.start == shorter || before[self.start as int] != after[self.start as int]
        &&& forall|i: int|
            0 <= i < end ==> #[trigger] before[before.len() - 1 - i] == after[after.len() - 1 - i]
        &&& end == shorter - self.start || before[before.len() - 1 - end] != after[after.len() - 1
            - end]
    }

    pub fn between(before: &str, after: &str) -> (r: Hunk)
        ensures
            r.is_between(lines_of(before@), lines_of(after@)),
    {
        let old_lines = text::lines(before);
        let new_lines = text::lines(after);
        let ghost b = lines_of(before@);
        let ghost a = lines_of(after@);
        assert(texts(old_lines@).len() == old_lines@.len());
        assert(texts(new_lines@).len() == new_lines@.len());
        let shorter = if old_lines.len() <= new_lines.len() {
            old_lines.len()
        } else {
            new_lines.len()
        };
        let (n, m) = (old_lines.len(), new_lines.len());
        let mut start: usize = 0;
        while start < shorter && text::same(old_lines[start].as_str(), new_lines[start].as_str())
            invariant
                start <= shorter,
                shorter <= n == old_lines@.len() == b.len(),
                shorter <= m == new_lines@.len() == a.len(),
                texts(old_lines@) == b,
                texts(new_lines@) == a,
                forall|i: int| 0 <= i < start ==> b[i] == a[i],
            decreases shorter - start,
        {
            assert(texts(old_lines@)[start as int] == old_lines@[start as int]@);
            assert(texts(new_lines@)[start as int] == new_lines@[start as int]@);
            start = start + 1;
        }
        proof {
            if start < shorter {
                assert(texts(old_lines@)[start as int] == old_lines@[start as int]@);
                assert(texts(new_lines@)[start as int] == new_lines@[start as int]@);
            }
        }
        let mut end: usize = 0;
        while end < shorter - start && text::same(
            old_lines[n - 1 - end].as_str(),
            new_lines[m - 1 - end].as_str(),
        )
            invariant
                start <= shorter,
                end <= shorter - start,
                shorter <= n == old_lines@.len() == b.len(),
                shorter <= m == new_lines@.len() == a.len(),
                texts(old_lines@) == b,
                texts(new_lines@) == a,
                forall|i: int| 0 <= i < end ==> #[trigger] b[n - 1 - i] == a[m - 1 - i],
            decreases shorter - end,
        {
            assert(texts(old_lines@)[n - 1 - end] == old_lines@[n - 1 - end]@);
            assert(texts(new_lines@)[m - 1 - end] == new_lines@[m - 1 - end]@);
            end = end + 1;
        }
        proof {
            if end < shorter - start {
                assert(texts(old_lines@)[n - 1 - end] == old_lines@[n - 1 - end]@);
                assert(texts(new_lines@)[m - 1 - end] == new_lines@[m - 1 - end]@);
            }
        }
        Hunk { start, removed: n - start - end, added: m - start - end }
    }

    /// Where a line of the document before this run sits after it, counted from one. A line that
    /// the run removed moves to where the removed lines are shown.
    pub open spec fn followed(self, line: int) -> int {
        let index = line - 1;
        if index < self.start {
            line
        } else if index >= self.start + self.removed {
            line + self.added - self.removed
        } else if index - self.start < self.added {
            line
        } else {
            self.start + self.added + 1
        }
    }

    pub fn follow(self, line: usize) -> (r: usize)
        requires
            line >= 1,
            self.start + self.removed <= usize::MAX,
            line + self.added <= usize::MAX,
            self.start + self.added < usize::MAX,
        ensures
            r == self.followed(line as int),
    {
        let index = line - 1;
        if index < self.start {
            line
        } else if index >= self.start + self.removed {
            line + self.added - self.removed
        } else if index - self.start < self.added {
            line
        } else {
            self.start + self.added + 1
        }
    }
}

/// A line outside the run keeps its text: what it said before is what is said where it went.
pub proof fn law_a_followed_line_keeps_its_text(
    hunk: Hunk,
    before: Seq<Seq<char>>,
    after: Seq<Seq<char>>,
    line: int,
)
    requires
        hunk.is_between(before, after),
        1 <= line <= before.len(),
        line <= hunk.start || line > hunk.start + hunk.removed,
    ensures
        1 <= hunk.followed(line) <= after.len(),
        before[line - 1] == after[hunk.followed(line) - 1],
{
    if line > hunk.start + hunk.removed {
        let i = before.len() - line;
        assert(before[before.len() - 1 - i] == after[after.len() - 1 - i]);
    }
}

/// No line is shown past the document's end and one more, where lines removed from its end are.
pub proof fn law_a_followed_line_stays_in_the_document(
    hunk: Hunk,
    before: Seq<Seq<char>>,
    after: Seq<Seq<char>>,
    line: int,
)
    requires
        hunk.is_between(before, after),
        1 <= line <= before.len() + 1,
    ensures
        1 <= hunk.followed(line) <= after.len() + 1,
{
}

/// The place of the `k`-th living row from the `i`-th row on, or the end of the rows.
pub open spec fn living_at(rows: Seq<Row>, i: int, k: int) -> int
    decreases rows.len() - i,
{
    if i >= rows.len() {
        rows.len() as int
    } else if rows[i].lives() {
        if k <= 0 {
            i
        } else {
            living_at(rows, i + 1, k - 1)
        }
    } else {
        living_at(rows, i + 1, k)
    }
}

/// The end of the shortest run of rows from the `i`-th on with `n` living ones.
pub open spec fn run_end(rows: Seq<Row>, i: int, n: int) -> int
    decreases rows.len() - i,
{
    if n <= 0 || i >= rows.len() {
        i
    } else if rows[i].lives() {
        run_end(rows, i + 1, n - 1)
    } else {
        run_end(rows, i + 1, n)
    }
}

/// A written row in the place of one that was taken, if any was.
pub open spec fn rewritten(taken: Seq<Row>, i: int) -> Row {
    if i < taken.len() {
        match taken[i] {
            Row::Kept(was) => Row::Written(Some(was)),
            Row::Written(was) => Row::Written(was),
            Row::Gone(_) => Row::Written(None),
        }
    } else {
        Row::Written(None)
    }
}

/// The first `n` written rows.
pub open spec fn written_upto(taken: Seq<Row>, n: int) -> Seq<Row>
    decreases n,
{
    if n <= 0 {
        Seq::empty()
    } else {
        written_upto(taken, n - 1).push(rewritten(taken, n - 1))
    }
}

/// Of the first `n` rows taken, those past the first `added`, gone: a line that only an earlier
/// operation had added vanishes unnamed, since the file never held it.
pub open spec fn gone_upto(taken: Seq<Row>, added: int, n: int) -> Seq<Row>
    decreases n,
{
    if n <= added || n <= 0 {
        Seq::empty()
    } else {
        let so_far = gone_upto(taken, added, n - 1);
        match taken[n - 1] {
            Row::Kept(was) => so_far.push(Row::Gone(was)),
            Row::Written(Some(was)) => so_far.push(Row::Gone(was)),
            _ => so_far,
        }
    }
}

/// What stands in the place of a run of rows: the lines already gone, the lines written, and those
/// that are gone now.
pub open spec fn replaced(run: Seq<Row>, added: int) -> Seq<Row> {
    let taken = living(run);
    gone(run) + written_upto(taken, added) + gone_upto(taken, added, taken.len() as int)
}

impl Hunk {
    /// The rows after the run is rewritten: a removed and an added line pair up as a rewrite.
    pub open spec fn spliced(self, rows: Seq<Row>) -> Seq<Row> {
        let from = living_at(rows, 0, self.start as int);
        let to = run_end(rows, from, self.removed as int);
        rows.take(from) + replaced(rows.subrange(from, to), self.added as int) + rows.skip(to)
    }
}

proof fn lemma_living_at(rows: Seq<Row>, i: int, k: int)
    requires
        0 <= i <= rows.len(),
    ensures
        i <= living_at(rows, i, k) <= rows.len(),
    decreases rows.len() - i,
{
    if i < rows.len() {
        if rows[i].lives() {
            if k > 0 {
                lemma_living_at(rows, i + 1, k - 1);
            }
        } else {
            lemma_living_at(rows, i + 1, k);
        }
    }
}

proof fn lemma_run_end(rows: Seq<Row>, i: int, n: int)
    requires
        0 <= i <= rows.len(),
    ensures
        i <= run_end(rows, i, n) <= rows.len(),
    decreases rows.len() - i,
{
    if n > 0 && i < rows.len() {
        if rows[i].lives() {
            lemma_run_end(rows, i + 1, n - 1);
        } else {
            lemma_run_end(rows, i + 1, n);
        }
    }
}

proof fn lemma_living_concat(a: Seq<Row>, b: Seq<Row>)
    ensures
        living(a + b) == living(a) + living(b),
        gone(a + b) == gone(a) + gone(b),
        origins(a + b) == origins(a) + origins(b),
    decreases b.len(),
{
    if b.len() == 0 {
        assert(a + b =~= a);
        assert(living(a) + living(b) =~= living(a));
        assert(gone(a) + gone(b) =~= gone(a));
        assert(origins(a) + origins(b) =~= origins(a));
    } else {
        lemma_living_concat(a, b.drop_last());
        assert((a + b).drop_last() =~= a + b.drop_last());
        assert((a + b).last() == b.last());
        assert(living(a + b) =~= living(a) + living(b));
        assert(gone(a + b) =~= gone(a) + gone(b));
        assert(origins(a + b) =~= origins(a) + origins(b));
    }
}

/// Before the `k`-th living row stand `k` living rows, where there are that many.
proof fn lemma_living_before(rows: Seq<Row>, i: int, k: int)
    requires
        0 <= i <= rows.len(),
        0 <= k <= living(rows.skip(i)).len(),
    ensures
        living(rows.subrange(i, living_at(rows, i, k))).len() == k,
    decreases rows.len() - i,
{
    lemma_living_at(rows, i, k);
    if i < rows.len() {
        let head = rows.subrange(i, i + 1);
        assert(rows.skip(i) =~= head + rows.skip(i + 1));
        lemma_living_concat(head, rows.skip(i + 1));
        assert(head.drop_last() =~= Seq::empty());
        assert(head.last() == rows[i]);
        reveal_with_fuel(living, 2);
        if rows[i].lives() {
            if k > 0 {
                lemma_living_before(rows, i + 1, k - 1);
                let end = living_at(rows, i + 1, k - 1);
                lemma_living_at(rows, i + 1, k - 1);
                assert(rows.subrange(i, end) =~= head + rows.subrange(i + 1, end));
                lemma_living_concat(head, rows.subrange(i + 1, end));
            } else {
                assert(rows.subrange(i, i) =~= Seq::empty());
            }
        } else {
            lemma_living_before(rows, i + 1, k);
            let end = living_at(rows, i + 1, k);
            lemma_living_at(rows, i + 1, k);
            assert(rows.subrange(i, end) =~= head + rows.subrange(i + 1, end));
            lemma_living_concat(head, rows.subrange(i + 1, end));
        }
    } else {
        assert(rows.skip(i) =~= Seq::empty());
        assert(rows.subrange(i, i) =~= Seq::empty());
    }
}

/// A run has as many living rows as were asked for, where there are that many.
proof fn lemma_run_living(rows: Seq<Row>, i: int, n: int)
    requires
        0 <= i <= rows.len(),
        0 <= n <= living(rows.skip(i)).len(),
    ensures
        living(rows.subrange(i, run_end(rows, i, n))).len() == n,
    decreases rows.len() - i,
{
    lemma_run_end(rows, i, n);
    if n > 0 && i < rows.len() {
        let head = rows.subrange(i, i + 1);
        assert(rows.skip(i) =~= head + rows.skip(i + 1));
        lemma_living_concat(head, rows.skip(i + 1));
        assert(head.drop_last() =~= Seq::empty());
        assert(head.last() == rows[i]);
        reveal_with_fuel(living, 2);
        let left = if rows[i].lives() {
            n - 1
        } else {
            n
        };
        lemma_run_living(rows, i + 1, left);
        let end = run_end(rows, i + 1, left);
        lemma_run_end(rows, i + 1, left);
        assert(rows.subrange(i, end) =~= head + rows.subrange(i + 1, end));
        lemma_living_concat(head, rows.subrange(i + 1, end));
    } else {
        assert(rows.subrange(i, i) =~= Seq::empty());
        if i == rows.len() {
            assert(rows.skip(i) =~= Seq::empty());
        }
    }
}

proof fn lemma_written(taken: Seq<Row>, n: int)
    requires
        0 <= n,
    ensures
        written_upto(taken, n).len() == n,
        living(written_upto(taken, n)) == written_upto(taken, n),
        forall|i: int| 0 <= i < n ==> #[trigger] written_upto(taken, n)[i] == rewritten(taken, i),
    decreases n,
{
    if n > 0 {
        lemma_written(taken, n - 1);
        let so_far = written_upto(taken, n - 1);
        assert(so_far.push(rewritten(taken, n - 1)).drop_last() =~= so_far);
    }
}

proof fn lemma_gone_now(taken: Seq<Row>, added: int, n: int)
    ensures
        living(gone_upto(taken, added, n)) == Seq::<Row>::empty(),
    decreases n,
{
    if n > added && n > 0 {
        lemma_gone_now(taken, added, n - 1);
        let so_far = gone_upto(taken, added, n - 1);
        let after = gone_upto(taken, added, n);
        if after.len() > so_far.len() {
            assert(after.drop_last() =~= so_far);
        }
    }
}

proof fn lemma_gone_dead(run: Seq<Row>)
    ensures
        living(gone(run)) == Seq::<Row>::empty(),
        forall|i: int| 0 <= i < living(run).len() ==> (#[trigger] living(run)[i]).lives(),
    decreases run.len(),
{
    if run.len() > 0 {
        lemma_gone_dead(run.drop_last());
        if !run.last().lives() {
            let so_far = gone(run.drop_last());
            assert(so_far.push(run.last()).drop_last() =~= so_far);
        }
        let before = living(run.drop_last());
        assert forall|i: int| 0 <= i < living(run).len() implies (
        #[trigger] living(run)[i]).lives() by {
            if i < before.len() {
                assert(living(run)[i] == before[i]);
            }
        }
    }
}

proof fn lemma_replaced_living(run: Seq<Row>, added: int)
    requires
        0 <= added,
    ensures
        living(replaced(run, added)) == written_upto(living(run), added),
{
    let taken = living(run);
    lemma_gone_dead(run);
    lemma_written(taken, added);
    lemma_gone_now(taken, added, taken.len() as int);
    lemma_living_concat(gone(run), written_upto(taken, added));
    lemma_living_concat(
        gone(run) + written_upto(taken, added),
        gone_upto(taken, added, taken.len() as int),
    );
    assert(living(replaced(run, added)) =~= written_upto(taken, added));
}

/// The rows are those of the document: one living row for each of its lines, and a kept one says
/// what its line says.
pub open spec fn are_rows_of(rows: Seq<Row>, lines: Seq<Seq<char>>) -> bool {
    &&& living(rows).len() == lines.len()
    &&& forall|i: int|
        0 <= i < lines.len() ==> ((#[trigger] living(rows)[i]) matches Row::Kept(was) ==> was@
            == lines[i])
}

/// Where the run of rows that a hunk rewrites begins and ends.
spec fn run_of(hunk: Hunk, rows: Seq<Row>) -> (int, int) {
    let from = living_at(rows, 0, hunk.start as int);
    (from, run_end(rows, from, hunk.removed as int))
}

proof fn lemma_run_start(rows: Seq<Row>, k: int)
    requires
        0 <= k <= living(rows).len(),
    ensures
        ({
            let from = living_at(rows, 0, k);
            &&& 0 <= from <= rows.len()
            &&& living(rows.take(from)).len() == k
            &&& living(rows) == living(rows.take(from)) + living(rows.skip(from))
        }),
{
    let from = living_at(rows, 0, k);
    assert(rows.skip(0) =~= rows);
    lemma_living_at(rows, 0, k);
    lemma_living_before(rows, 0, k);
    assert(rows.subrange(0, from) =~= rows.take(from));
    assert(rows =~= rows.take(from) + rows.skip(from));
    lemma_living_concat(rows.take(from), rows.skip(from));
}

proof fn lemma_run_stop(rows: Seq<Row>, from: int, n: int)
    requires
        0 <= from <= rows.len(),
        0 <= n <= living(rows.skip(from)).len(),
    ensures
        ({
            let to = run_end(rows, from, n);
            &&& from <= to <= rows.len()
            &&& living(rows.subrange(from, to)).len() == n
            &&& living(rows.skip(from)) == living(rows.subrange(from, to)) + living(rows.skip(to))
        }),
{
    let to = run_end(rows, from, n);
    lemma_run_end(rows, from, n);
    lemma_run_living(rows, from, n);
    let run = rows.subrange(from, to);
    assert(rows.skip(from) =~= run + rows.skip(to));
    lemma_living_concat(run, rows.skip(to));
}

proof fn lemma_run_of(hunk: Hunk, rows: Seq<Row>)
    requires
        hunk.start + hunk.removed <= living(rows).len(),
    ensures
        ({
            let (from, to) = run_of(hunk, rows);
            let taken = living(rows.subrange(from, to));
            &&& 0 <= from <= to <= rows.len()
            &&& taken.len() == hunk.removed
            &&& living(rows.take(from)).len() == hunk.start
            &&& living(rows) == living(rows.take(from)) + taken + living(rows.skip(to))
        }),
{
    let from = living_at(rows, 0, hunk.start as int);
    lemma_run_start(rows, hunk.start as int);
    let to = run_end(rows, from, hunk.removed as int);
    lemma_run_stop(rows, from, hunk.removed as int);
    let (x, y, z) = (
        living(rows.take(from)),
        living(rows.subrange(from, to)),
        living(rows.skip(to)),
    );
    assert(x + (y + z) =~= x + y + z);
}

proof fn lemma_spliced_living(hunk: Hunk, rows: Seq<Row>)
    requires
        hunk.start + hunk.removed <= living(rows).len(),
    ensures
        ({
            let (from, to) = run_of(hunk, rows);
            living(hunk.spliced(rows)) == living(rows.take(from)) + written_upto(
                living(rows.subrange(from, to)),
                hunk.added as int,
            ) + living(rows.skip(to))
        }),
{
    lemma_run_of(hunk, rows);
    let (from, to) = run_of(hunk, rows);
    let run = rows.subrange(from, to);
    lemma_replaced_living(run, hunk.added as int);
    let middle = replaced(run, hunk.added as int);
    lemma_living_concat(rows.take(from), middle);
    lemma_living_concat(rows.take(from) + middle, rows.skip(to));
}

/// The rows stay those of the document, whatever it is rewritten to: a kept row always says what
/// its line says.
pub proof fn law_the_rows_stay_those_of_the_document(
    hunk: Hunk,
    rows: Seq<Row>,
    before: Seq<Seq<char>>,
    after: Seq<Seq<char>>,
)
    requires
        hunk.is_between(before, after),
        are_rows_of(rows, before),
    ensures
        are_rows_of(hunk.spliced(rows), after),
{
    lemma_run_of(hunk, rows);
    lemma_spliced_living(hunk, rows);
    let (from, to) = run_of(hunk, rows);
    let taken = living(rows.subrange(from, to));
    lemma_written(taken, hunk.added as int);
    let now = living(hunk.spliced(rows));
    assert(now.len() == after.len());
    assert forall|i: int| 0 <= i < after.len() implies ((#[trigger] now[i]) matches Row::Kept(was)
        ==> was@ == after[i]) by {
        if i < hunk.start {
            assert(now[i] == living(rows)[i]);
        } else if i < hunk.start + hunk.added {
            assert(now[i] == rewritten(taken, i - hunk.start));
        } else {
            let j = i - hunk.added + hunk.removed;
            assert(now[i] == living(rows)[j]);
            let k = after.len() - 1 - i;
            assert(before[before.len() - 1 - k] == after[after.len() - 1 - k]);
        }
    }
}

proof fn lemma_parted(run: Seq<Row>)
    ensures
        (origins(gone(run)) + origins(living(run))).to_multiset() == origins(run).to_multiset(),
    decreases run.len(),
{
    broadcast use vstd::seq_lib::group_to_multiset_ensures;

    if run.len() > 0 {
        lemma_parted(run.drop_last());
        let (g, l, o) = (
            origins(gone(run.drop_last())),
            origins(living(run.drop_last())),
            origins(run.drop_last()),
        );
        let last = origin(run.last());
        vstd::seq_lib::lemma_multiset_commutative(o, last);
        if run.last().lives() {
            let so_far = living(run.drop_last());
            assert(so_far.push(run.last()).drop_last() =~= so_far);
            assert(origins(living(run)) =~= l + last);
            assert(origins(gone(run)) + origins(living(run)) =~= (g + l) + last);
            vstd::seq_lib::lemma_multiset_commutative(g + l, last);
        } else {
            let so_far = gone(run.drop_last());
            assert(so_far.push(run.last()).drop_last() =~= so_far);
            assert(origins(gone(run)) =~= g + last);
            vstd::seq_lib::lemma_multiset_commutative(g + last, l);
            vstd::seq_lib::lemma_multiset_commutative(g, last);
            vstd::seq_lib::lemma_multiset_commutative(g, l);
            assert((origins(gone(run)) + origins(living(run))).to_multiset() =~= origins(
                run,
            ).to_multiset());
        }
    }
}

proof fn lemma_rewritten_origins(taken: Seq<Row>, added: int, n: int)
    requires
        0 <= added,
        0 <= n <= taken.len(),
        forall|i: int| 0 <= i < taken.len() ==> (#[trigger] taken[i]).lives(),
    ensures
        n <= added ==> origins(written_upto(taken, n)) == origins(taken.take(n)),
        n > added ==> origins(written_upto(taken, added)) + origins(gone_upto(taken, added, n))
            == origins(taken.take(n)),
    decreases n,
{
    if n > 0 {
        lemma_rewritten_origins(taken, added, n - 1);
        assert(taken.take(n).drop_last() =~= taken.take(n - 1));
        assert(taken.take(n).last() == taken[n - 1]);
        assert(taken[n - 1].lives());
        if n <= added {
            let so_far = written_upto(taken, n - 1);
            let next = rewritten(taken, n - 1);
            assert(so_far.push(next).drop_last() =~= so_far);
            assert(so_far.push(next).last() == next);
        } else {
            let so_far = gone_upto(taken, added, n - 1);
            let now = gone_upto(taken, added, n);
            if n - 1 <= added {
                assert(so_far =~= Seq::empty());
                assert(added == n - 1);
            }
            if now.len() > so_far.len() {
                assert(now.drop_last() =~= so_far);
            }
            assert(origins(now) =~= origins(so_far) + origin(taken[n - 1]));
            assert(origins(written_upto(taken, added)) + origins(now) =~= (origins(
                written_upto(taken, added),
            ) + origins(so_far)) + origin(taken[n - 1]));
            if n - 1 <= added {
                assert(origins(written_upto(taken, added)) + origins(so_far) =~= origins(
                    written_upto(taken, added),
                ));
            }
        }
    } else {
        assert(taken.take(0) =~= Seq::empty());
    }
}

proof fn lemma_added_past(taken: Seq<Row>, n: int)
    requires
        n >= taken.len(),
    ensures
        origins(written_upto(taken, n)) == origins(written_upto(taken, taken.len() as int)),
    decreases n,
{
    if n > taken.len() {
        lemma_added_past(taken, n - 1);
        let so_far = written_upto(taken, n - 1);
        let next = rewritten(taken, n - 1);
        assert(so_far.push(next).drop_last() =~= so_far);
        assert(so_far.push(next).last() == next);
        assert(origins(so_far) + origin(next) =~= origins(so_far));
    }
}

/// However often lines are rewritten and removed, every line of the file stays named, once.
pub proof fn law_no_line_of_the_file_is_lost(hunk: Hunk, rows: Seq<Row>)
    requires
        hunk.start + hunk.removed <= living(rows).len(),
    ensures
        origins(hunk.spliced(rows)).to_multiset() == origins(rows).to_multiset(),
{
    lemma_run_of(hunk, rows);
    let (from, to) = run_of(hunk, rows);
    let run = rows.subrange(from, to);
    let taken = living(run);
    let added = hunk.added as int;
    let n = taken.len() as int;
    let middle = replaced(run, added);
    lemma_gone_dead(run);
    lemma_rewritten_origins(taken, added, n);
    assert(taken.take(n) =~= taken);
    let (w, g) = (written_upto(taken, added), gone_upto(taken, added, n));
    assert(origins(w) + origins(g) == origins(taken)) by {
        if n <= added {
            lemma_added_past(taken, added);
            assert(g =~= Seq::empty());
            assert(origins(w) + origins(g) =~= origins(w));
        }
    }
    lemma_living_concat(gone(run), w);
    lemma_living_concat(gone(run) + w, g);
    assert(origins(middle) =~= origins(gone(run)) + origins(taken));
    lemma_parted(run);
    let (head, tail) = (rows.take(from), rows.skip(to));
    assert(rows =~= head + run + tail);
    lemma_living_concat(head, run);
    lemma_living_concat(head + run, tail);
    lemma_living_concat(head, middle);
    lemma_living_concat(head + middle, tail);
    vstd::seq_lib::lemma_multiset_commutative(origins(head), origins(run));
    vstd::seq_lib::lemma_multiset_commutative(origins(head) + origins(run), origins(tail));
    vstd::seq_lib::lemma_multiset_commutative(origins(head), origins(middle));
    vstd::seq_lib::lemma_multiset_commutative(origins(head) + origins(middle), origins(tail));
}

fn is_living(row: &Row) -> (r: bool)
    ensures
        r == row.lives(),
{
    match row {
        Row::Gone(_) => false,
        _ => true,
    }
}

/// The rows of a run that are gone already, and those that live.
fn part(run: Vec<Row>) -> (r: (Vec<Row>, Vec<Row>))
    ensures
        r.0@ == gone(run@),
        r.1@ == living(run@),
{
    let ghost all = run@;
    let mut rest = run;
    let mut dead: Vec<Row> = Vec::new();
    let mut taken: Vec<Row> = Vec::new();
    let count = rest.len();
    let mut i: usize = 0;
    assert(rest@ =~= all.skip(0));
    assert(all.take(0) =~= Seq::empty());
    while i < count
        invariant
            i <= count == all.len(),
            rest@ == all.skip(i as int),
            dead@ == gone(all.take(i as int)),
            taken@ == living(all.take(i as int)),
        decreases count - i,
    {
        let row = rest.remove(0);
        assert(row == all[i as int]);
        assert(rest@ =~= all.skip(i + 1));
        assert(all.take(i + 1).drop_last() =~= all.take(i as int));
        if is_living(&row) {
            taken.push(row);
        } else {
            dead.push(row);
        }
        i = i + 1;
    }
    assert(all.take(i as int) =~= all);
    (dead, taken)
}

/// What stands in the place of a run.
fn replace(run: Vec<Row>, added: usize) -> (r: Vec<Row>)
    ensures
        r@ == replaced(run@, added as int),
{
    let (mut segment, taken) = part(run);
    let ghost dead = segment@;
    let ghost all = taken@;
    proof {
        lemma_gone_dead(run@);
    }
    let mut rest = taken;
    let count = rest.len();
    let mut pair: usize = 0;
    assert(rest@ =~= all.skip(0));
    assert(segment@ =~= dead + written_upto(all, 0));
    while pair < added
        invariant
            pair <= added,
            count == all.len(),
            rest@ == all.skip(if pair < count {
                pair as int
            } else {
                count as int
            }),
            segment@ == dead + written_upto(all, pair as int),
            forall|i: int| 0 <= i < all.len() ==> (#[trigger] all[i]).lives(),
        decreases added - pair,
    {
        let ghost so_far = segment@;
        let row = if rest.len() > 0 {
            let was = rest.remove(0);
            assert(was == all[pair as int]);
            match was {
                Row::Kept(was) => Row::Written(Some(was)),
                Row::Written(was) => Row::Written(was),
                Row::Gone(_) => Row::Written(None),
            }
        } else {
            Row::Written(None)
        };
        assert(row == rewritten(all, pair as int));
        segment.push(row);
        pair = pair + 1;
        assert(segment@ =~= dead + written_upto(all, pair as int));
        assert(rest@ =~= all.skip(if pair < count {
            pair as int
        } else {
            count as int
        }));
    }
    let ghost written = segment@;
    let mut at: usize = if added < count {
        added
    } else {
        count
    };
    assert(segment@ =~= written + gone_upto(all, added as int, at as int));
    while at < count
        invariant
            at <= count == all.len(),
            added <= at || at == count,
            rest@ == all.skip(at as int),
            segment@ == written + gone_upto(all, added as int, at as int),
            forall|i: int| 0 <= i < all.len() ==> (#[trigger] all[i]).lives(),
        decreases count - at,
    {
        let row = rest.remove(0);
        assert(row == all[at as int]);
        match row {
            Row::Kept(was) => segment.push(Row::Gone(was)),
            Row::Written(Some(was)) => segment.push(Row::Gone(was)),
            _ => {},
        }
        at = at + 1;
        assert(segment@ =~= written + gone_upto(all, added as int, at as int));
        assert(rest@ =~= all.skip(at as int));
    }
    segment
}

impl Hunk {
    /// Rewrites the run of rows.
    pub fn splice(self, rows: &mut Vec<Row>)
        requires
            self.start + self.removed <= living(old(rows)@).len(),
        ensures
            final(rows)@ == self.spliced(old(rows)@),
    {
        let ghost all = rows@;
        proof {
            lemma_run_of(self, all);
        }
        let mut from: usize = 0;
        let mut left: usize = self.start;
        while from < rows.len() && !(is_living(&rows[from]) && left == 0)
            invariant
                from <= rows@.len(),
                rows@ == all,
                living_at(all, from as int, left as int) == living_at(all, 0, self.start as int),
            decreases rows@.len() - from,
        {
            if is_living(&rows[from]) {
                left = left - 1;
            }
            from = from + 1;
        }
        let mut to: usize = from;
        let mut left: usize = self.removed;
        while left > 0 && to < rows.len()
            invariant
                from <= to <= rows@.len(),
                rows@ == all,
                run_end(all, to as int, left as int) == run_end(
                    all,
                    from as int,
                    self.removed as int,
                ),
            decreases rows@.len() - to,
        {
            if is_living(&rows[to]) {
                left = left - 1;
            }
            to = to + 1;
        }
        let mut run = rows.split_off(from);
        let mut tail = run.split_off(to - from);
        assert(run@ =~= all.subrange(from as int, to as int));
        assert(tail@ =~= all.skip(to as int));
        assert(rows@ =~= all.take(from as int));
        let mut segment = replace(run, self.added);
        rows.append(&mut segment);
        rows.append(&mut tail);
        assert(rows@ =~= self.spliced(all));
    }
}

/// Outside its hunk a document stays as it was, and a hunk begins with a line that differs where it
/// has lines on both sides.
pub proof fn law_a_hunk_holds_every_difference(
    hunk: Hunk,
    before: Seq<Seq<char>>,
    after: Seq<Seq<char>>,
)
    requires
        hunk.is_between(before, after),
    ensures
        hunk.start + hunk.removed <= before.len(),
        hunk.start + hunk.added <= after.len(),
        before.take(hunk.start as int) == after.take(hunk.start as int),
        before.skip(hunk.start + hunk.removed) == after.skip(hunk.start + hunk.added),
        hunk.removed > 0 && hunk.added > 0 ==> before[hunk.start as int] != after[hunk.start as int],
        before == after ==> hunk.removed == 0 && hunk.added == 0,
{
    assert(before.take(hunk.start as int) =~= after.take(hunk.start as int));
    let (b, a) = (before.skip(hunk.start + hunk.removed), after.skip(hunk.start + hunk.added));
    assert forall|i: int| 0 <= i < b.len() implies b[i] == a[i] by {
        let j = b.len() - 1 - i;
        assert(before[before.len() - 1 - j] == after[after.len() - 1 - j]);
    }
    assert(b =~= a);
}

} // verus!
