//! Counting what the transcripts of past sessions hold.
//!
//! Only counts and verb names can reach the report, so no text of a transcript can leak: that is
//! the shape of the report, not a filter.
use vstd::prelude::*;

use crate::hooks::{claude_dir, path_under, under};
use crate::json::{field, field_of, Json};
use crate::output::{Body, Outcome, Response, StatsReport};
use crate::shell::{call_of, is_flag, lets_call};
use crate::stats::counts::{counts_of, Uses};
use crate::stats::scan::{
    all_fits, files_scanned, scan_begun, scan_dir, scan_of, Chosen, Transcript,
};
use crate::text;
use crate::text::{byte_len, joined, lines_of, texts};

pub mod counts;
pub mod scan;

verus! {

/// What was counted, as a value.
pub ghost struct Counted {
    pub bash_calls: nat,
    pub lets_calls: Map<Seq<char>, nat>,
    pub hook_blocks: nat,
    pub blocks_followed: nat,
    pub calls_saved: nat,
    pub read_calls: nat,
    pub read_bytes: nat,
}

/// Where the reading of a session stands: the calls without a result, the verb that a block asked
/// for, and what was counted.
pub ghost struct Session {
    pub pending: Map<Seq<char>, Seq<char>>,
    pub expected: Option<Seq<char>>,
    pub counted: Counted,
}

/// The counts can be held.
pub open spec fn fits(counted: Counted) -> bool {
    &&& counted.bash_calls <= usize::MAX
    &&& counted.hook_blocks <= usize::MAX
    &&& counted.blocks_followed <= usize::MAX
    &&& counted.calls_saved <= usize::MAX
    &&& counted.read_calls <= usize::MAX
    &&& counted.read_bytes <= u64::MAX
    &&& forall|verb: Seq<char>|
        counted.lets_calls.dom().contains(verb) ==> #[trigger] counted.lets_calls[verb]
            <= usize::MAX
}

/// The field `name` of a value that is an object.
pub open spec fn get_of(value: Json, name: Seq<char>) -> Option<Json> {
    match value {
        Json::Object(fields) => field_of(fields@, name),
        _ => None,
    }
}

/// The text in the field `name`.
pub open spec fn text_get(value: Json, name: Seq<char>) -> Option<Seq<char>> {
    match get_of(value, name) {
        Some(Json::Text(s)) => Some(s@),
        _ => None,
    }
}

fn get<'a>(value: &'a Json, name: &str) -> (r: Option<&'a Json>)
    ensures
        match r {
            Some(found) => get_of(*value, name@) == Some(*found),
            None => get_of(*value, name@) is None,
        },
{
    match value {
        Json::Object(fields) => field(fields, name),
        _ => None,
    }
}

fn get_text<'a>(value: &'a Json, name: &str) -> (r: Option<&'a str>)
    ensures
        match r {
            Some(s) => text_get(*value, name@) == Some(s@),
            None => text_get(*value, name@) is None,
        },
{
    match get(value, name) {
        Some(Json::Text(s)) => Some(s.as_str()),
        _ => None,
    }
}

/// The items of a message.
pub open spec fn items_of(value: Json) -> Seq<Json> {
    match get_of(value, "message"@) {
        Some(message) => match get_of(message, "content"@) {
            Some(Json::List(items)) => items@,
            _ => Seq::empty(),
        },
        None => Seq::empty(),
    }
}

fn content_items<'a>(value: &'a Json) -> (r: Option<&'a Vec<Json>>)
    ensures
        match r {
            Some(items) => items@ == items_of(*value),
            None => items_of(*value).len() == 0,
        },
{
    match get(value, "message") {
        Some(message) => match get(message, "content") {
            Some(Json::List(items)) => Some(items),
            _ => None,
        },
        None => None,
    }
}

/// How many words stand before the first flag.
pub open spec fn bare_words(args: Seq<Seq<char>>, i: int) -> nat
    decreases args.len() - i,
{
    if i < 0 || i >= args.len() || (args[i].len() > 0 && args[i][0] == '-') {
        0
    } else {
        1 + bare_words(args, i + 1)
    }
}

/// How many targets a call names: the first bare word of `find` is its pattern.
pub open spec fn targets_of(verb: Seq<char>, args: Seq<Seq<char>>) -> nat {
    let bare = bare_words(args, 0);
    if verb == "find"@ && bare > 0 {
        (bare - 1) as nat
    } else {
        bare
    }
}

pub fn bare_target_count(verb: &str, args: &Vec<String>) -> (r: usize)
    ensures
        r == targets_of(verb@, texts(args@)),
{
    let ghost all = texts(args@);
    let mut i: usize = 0;
    while i < args.len() && !is_flag(args[i].as_str())
        invariant
            i <= args@.len(),
            all == texts(args@),
            i + bare_words(all, i as int) == bare_words(all, 0),
        decreases args@.len() - i,
    {
        assert(all[i as int] == args@[i as int]@);
        i = i + 1;
    }
    proof {
        if i < args@.len() {
            assert(all[i as int] == args@[i as int]@);
        }
    }
    if text::same(verb, "find") && i > 0 {
        i - 1
    } else {
        i
    }
}

/// What a call of `lets` adds to the counts.
pub open spec fn with_call(counted: Counted, verb: Seq<char>, args: Seq<Seq<char>>) -> Counted {
    let targets = targets_of(verb, args);
    Counted {
        lets_calls: counted.lets_calls.insert(verb, count_in(counted.lets_calls, verb) + 1),
        calls_saved: counted.calls_saved + (if targets >= 2 {
            (targets - 1) as nat
        } else {
            0
        }),
        ..counted
    }
}

pub open spec fn count_in(counts: Map<Seq<char>, nat>, verb: Seq<char>) -> nat {
    if counts.dom().contains(verb) {
        counts[verb]
    } else {
        0
    }
}

/// The command of a call of `Bash`.
pub open spec fn command_of(item: Json, name: Seq<char>) -> Option<Seq<char>> {
    if name == "Bash"@ {
        match get_of(item, "input"@) {
            Some(input) => text_get(input, "command"@),
            None => None,
        }
    } else {
        None
    }
}

/// The call of `lets` that an item makes.
pub open spec fn item_call(item: Json, name: Seq<char>) -> Option<(Seq<char>, Seq<Seq<char>>)> {
    match command_of(item, name) {
        Some(command) => call_of(command),
        None => None,
    }
}

/// A tool is called. Only the first call after a block decides whether it was followed: a later
/// retry is the agent's own.
pub open spec fn called(session: Session, item: Json) -> Session {
    match (text_get(item, "type"@), text_get(item, "id"@), text_get(item, "name"@)) {
        (Some(kind), Some(id), Some(name)) => if kind == "tool_use"@ {
            let call = item_call(item, name);
            let followed = session.expected is Some && call is Some && (call->0).0
                == session.expected->0;
            let first = if followed {
                Counted {
                    blocks_followed: session.counted.blocks_followed + 1,
                    ..session.counted
                }
            } else {
                session.counted
            };
            let second = if name == "Bash"@ {
                Counted { bash_calls: first.bash_calls + 1, ..first }
            } else {
                first
            };
            Session {
                pending: session.pending.insert(id, name),
                expected: None,
                counted: match call {
                    Some((verb, args)) => with_call(second, verb, args),
                    None => second,
                },
            }
        } else {
            session
        },
        _ => session,
    }
}

/// The first `n` items of what the assistant says.
pub open spec fn called_upto(session: Session, items: Seq<Json>, n: int) -> Session
    decreases n,
{
    if n <= 0 {
        session
    } else {
        called(called_upto(session, items, n - 1), items[n - 1])
    }
}

/// The texts among the first `n` blocks.
pub open spec fn block_texts(items: Seq<Json>, n: int) -> Seq<Seq<char>>
    decreases n,
{
    if n <= 0 {
        Seq::empty()
    } else if text_get(items[n - 1], "type"@) == Some("text"@) && text_get(
        items[n - 1],
        "text"@,
    ) is Some {
        block_texts(items, n - 1).push(text_get(items[n - 1], "text"@)->0)
    } else {
        block_texts(items, n - 1)
    }
}

/// The text of a result: a block's is a plain string, another's a list of text blocks.
pub open spec fn result_text(content: Option<Json>) -> Seq<char> {
    match content {
        Some(Json::Text(s)) => s@,
        Some(Json::List(items)) => joined(block_texts(items@, items@.len() as int), "\n"@),
        _ => ""@,
    }
}

fn text_of(content: Option<&Json>) -> (r: String)
    ensures
        r@ == result_text(
            match content {
                Some(content) => Some(*content),
                None => None,
            },
        ),
{
    match content {
        Some(Json::Text(s)) => s.clone(),
        Some(Json::List(items)) => {
            let mut parts: Vec<String> = Vec::new();
            let mut i: usize = 0;
            assert(texts(parts@) =~= Seq::empty());
            while i < items.len()
                invariant
                    i <= items@.len(),
                    texts(parts@) == block_texts(items@, i as int),
                decreases items@.len() - i,
            {
                let ghost had = parts@;
                let is_text = match get_text(&items[i], "type") {
                    Some(kind) => text::same(kind, "text"),
                    None => false,
                };
                if is_text {
                    if let Some(said) = get_text(&items[i], "text") {
                        parts.push(said.to_owned());
                        assert(texts(parts@) =~= texts(had).push(said@));
                    }
                }
                i = i + 1;
            }
            text::join(&parts, "\n")
        },
        _ => "".to_owned(),
    }
}

/// What follows `run: ` on the first line that begins so.
pub open spec fn run_line(lines: Seq<Seq<char>>, i: int) -> Option<Seq<char>>
    decreases lines.len() - i,
{
    if i < 0 || i >= lines.len() {
        None
    } else if "run: "@.is_prefix_of(lines[i]) {
        Some(lines[i].skip("run: "@.len() as int))
    } else {
        run_line(lines, i + 1)
    }
}

fn find_run_line(said: &str) -> (r: Option<String>)
    ensures
        match r {
            Some(run) => run_line(lines_of(said@), 0) == Some(run@),
            None => run_line(lines_of(said@), 0) is None,
        },
{
    let lines = text::lines(said);
    let ghost all = lines_of(said@);
    let mut i: usize = 0;
    assert(texts(lines@).len() == lines@.len());
    while i < lines.len()
        invariant
            i <= lines@.len() == all.len(),
            texts(lines@) == all,
            all == lines_of(said@),
            run_line(all, 0) == run_line(all, i as int),
        decreases lines@.len() - i,
    {
        assert(texts(lines@)[i as int] == lines@[i as int]@);
        let line = lines[i].as_str();
        if let Some(rest) = text::strip_prefix(line, "run: ") {
            assert(line@.skip("run: "@.len() as int) =~= rest@);
            assert("run: "@.is_prefix_of(line@));
            return Some(rest.to_owned());
        }
        i = i + 1;
    }
    None
}

/// A tool answers.
pub open spec fn answered(session: Session, item: Json) -> Session {
    match (text_get(item, "type"@), text_get(item, "tool_use_id"@)) {
        (Some(kind), Some(id)) => if kind == "tool_result"@ && session.pending.dom().contains(id) {
            let name = session.pending[id];
            let left = Session { pending: session.pending.remove(id), ..session };
            let said = result_text(get_of(item, "content"@));
            if name == "Bash"@ {
                if get_of(item, "is_error"@) == Some(Json::Bool(true)) {
                    match run_line(lines_of(said), 0) {
                        Some(run) => Session {
                            expected: match call_of(run) {
                                Some((verb, _)) => Some(verb),
                                None => None,
                            },
                            counted: Counted {
                                hook_blocks: session.counted.hook_blocks + 1,
                                ..session.counted
                            },
                            ..left
                        },
                        None => left,
                    }
                } else {
                    left
                }
            } else if name == "Read"@ {
                Session {
                    counted: Counted {
                        read_calls: session.counted.read_calls + 1,
                        read_bytes: session.counted.read_bytes + byte_len(said),
                        ..session.counted
                    },
                    ..left
                }
            } else {
                left
            }
        } else {
            session
        },
        _ => session,
    }
}

/// The first `n` items of what the tools answer.
pub open spec fn answered_upto(session: Session, items: Seq<Json>, n: int) -> Session
    decreases n,
{
    if n <= 0 {
        session
    } else {
        answered(answered_upto(session, items, n - 1), items[n - 1])
    }
}

/// One line of a transcript.
pub open spec fn told(session: Session, value: Json) -> Session {
    let items = items_of(value);
    match text_get(value, "type"@) {
        Some(kind) => if kind == "assistant"@ {
            called_upto(session, items, items.len() as int)
        } else if kind == "user"@ {
            answered_upto(session, items, items.len() as int)
        } else {
            session
        },
        None => session,
    }
}

/// No count ever shrinks.
pub open spec fn grows(before: Counted, after: Counted) -> bool {
    &&& before.bash_calls <= after.bash_calls
    &&& before.hook_blocks <= after.hook_blocks
    &&& before.blocks_followed <= after.blocks_followed
    &&& before.calls_saved <= after.calls_saved
    &&& before.read_calls <= after.read_calls
    &&& before.read_bytes <= after.read_bytes
    &&& forall|verb: Seq<char>| #[trigger]
        before.lets_calls.dom().contains(verb) ==> after.lets_calls.dom().contains(verb)
            && before.lets_calls[verb] <= after.lets_calls[verb]
}

pub proof fn lemma_grows_trans(a: Counted, b: Counted, c: Counted)
    requires
        grows(a, b),
        grows(b, c),
    ensures
        grows(a, c),
{
    assert forall|verb: Seq<char>| #[trigger] a.lets_calls.dom().contains(verb) implies c.lets_calls.dom()
        .contains(verb) && a.lets_calls[verb] <= c.lets_calls[verb] by {
        assert(b.lets_calls.dom().contains(verb));
    }
}

pub proof fn lemma_grows_fits(a: Counted, b: Counted)
    requires
        grows(a, b),
        fits(b),
    ensures
        fits(a),
{
    assert forall|verb: Seq<char>| a.lets_calls.dom().contains(verb) implies
        #[trigger] a.lets_calls[verb] <= usize::MAX by {
        assert(a.lets_calls[verb] <= b.lets_calls[verb]);
    }
}

proof fn lemma_called_grows(session: Session, item: Json)
    ensures
        grows(session.counted, called(session, item).counted),
{
}

proof fn lemma_called_upto(session: Session, items: Seq<Json>, m: int, n: int)
    requires
        0 <= m <= n,
    ensures
        grows(
            called_upto(session, items, m).counted,
            called_upto(session, items, n).counted,
        ),
    decreases n,
{
    if m < n {
        lemma_called_upto(session, items, m, n - 1);
        let before = called_upto(session, items, n - 1);
        lemma_called_grows(before, items[n - 1]);
        lemma_grows_trans(
            called_upto(session, items, m).counted,
            before.counted,
            called_upto(session, items, n).counted,
        );
    }
}

proof fn lemma_answered_upto(session: Session, items: Seq<Json>, m: int, n: int)
    requires
        0 <= m <= n,
    ensures
        grows(
            answered_upto(session, items, m).counted,
            answered_upto(session, items, n).counted,
        ),
    decreases n,
{
    if m < n {
        lemma_answered_upto(session, items, m, n - 1);
        let before = answered_upto(session, items, n - 1);
        lemma_grows_trans(
            answered_upto(session, items, m).counted,
            before.counted,
            answered_upto(session, items, n).counted,
        );
    }
}

/// However a session goes on, what was counted stays counted.
pub proof fn law_no_count_shrinks(session: Session, value: Json)
    ensures
        grows(session.counted, told(session, value).counted),
{
    let items = items_of(value);
    lemma_called_upto(session, items, 0, items.len() as int);
    lemma_answered_upto(session, items, 0, items.len() as int);
}

/// Only a block can be followed: with none waiting, no call counts as following one.
pub proof fn law_only_a_block_is_followed(session: Session, item: Json)
    requires
        session.expected is None,
    ensures
        called(session, item).counted.blocks_followed == session.counted.blocks_followed,
{
}

/// A session that is being read.
pub struct Reading {
    pub pending: Uses,
    pub expected: Option<String>,
}

/// What the report and the reading say together.
pub open spec fn session_of(reading: Reading, report: StatsReport) -> Session {
    Session {
        pending: reading.pending@,
        expected: match reading.expected {
            Some(verb) => Some(verb@),
            None => None,
        },
        counted: counted_of(report),
    }
}

pub open spec fn counted_of(report: StatsReport) -> Counted {
    Counted {
        bash_calls: report.bash_calls as nat,
        lets_calls: counts_of(report.lets_calls@),
        hook_blocks: report.hook_blocks as nat,
        blocks_followed: report.blocks_followed as nat,
        calls_saved: report.calls_saved as nat,
        read_calls: report.read_calls as nat,
        read_bytes: report.read_bytes as nat,
    }
}

/// What a transcript does not change: how many sessions there are and what was skipped.
pub open spec fn same_frame(before: StatsReport, after: StatsReport) -> bool {
    before.sessions == after.sessions && before.skipped == after.skipped
}

/// One more, where that can be held.
fn raise(count: usize) -> (r: Option<usize>)
    ensures
        match r {
            Some(more) => more == count + 1,
            None => count == usize::MAX,
        },
{
    count.checked_add(1)
}

fn count_call(report: &mut StatsReport, verb: &str, args: &Vec<String>) -> (held: bool)
    requires
        counts::are_listed(old(report).lets_calls@),
    ensures
        counts::are_listed(final(report).lets_calls@),
        ({
            let end = with_call(counted_of(*old(report)), verb@, texts(args@));
            &&& held ==> counted_of(*final(report)) == end
            &&& !held ==> !fits(end)
            &&& same_frame(*old(report), *final(report))
        }),
{
    let ghost before = counted_of(*report);
    let ghost end = with_call(before, verb@, texts(args@));
    if !counts::add_one(&mut report.lets_calls, verb) {
        proof {
            assert(end.lets_calls.dom().contains(verb@));
            assert(end.lets_calls[verb@] > usize::MAX);
        }
        return false;
    }
    let targets = bare_target_count(verb, args);
    if targets >= 2 {
        match report.calls_saved.checked_add(targets - 1) {
            Some(saved) => {
                report.calls_saved = saved;
            },
            None => return false,
        }
    }
    assert(counted_of(*report) == end);
    true
}

fn take_call(item: &Json, reading: &mut Reading, report: &mut StatsReport) -> (held: bool)
    requires
        counts::are_listed(old(report).lets_calls@),
    ensures
        counts::are_listed(final(report).lets_calls@),
        ({
            let end = called(session_of(*old(reading), *old(report)), *item);
            &&& held ==> session_of(*final(reading), *final(report)) == end
            &&& !held ==> !fits(end.counted)
            &&& same_frame(*old(report), *final(report))
        }),
{
    let ghost start = session_of(*reading, *report);
    let ghost end = called(start, *item);
    let is_use = match get_text(item, "type") {
        Some(kind) => text::same(kind, "tool_use"),
        None => false,
    };
    if !is_use {
        return true;
    }
    let id = match get_text(item, "id") {
        Some(id) => id,
        None => return true,
    };
    let name = match get_text(item, "name") {
        Some(name) => name,
        None => return true,
    };
    let is_bash = text::same(name, "Bash");
    let call = if is_bash {
        match get(item, "input") {
            Some(input) => match get_text(input, "command") {
                Some(command) => lets_call(command),
                None => None,
            },
            None => None,
        }
    } else {
        None
    };
    let expected = reading.expected.take();
    let followed = match (&expected, &call) {
        (Some(verb), Some((called, _))) => text::same(verb.as_str(), called.as_str()),
        _ => false,
    };
    if followed {
        match raise(report.blocks_followed) {
            Some(more) => {
                report.blocks_followed = more;
            },
            None => return false,
        }
    }
    if is_bash {
        match raise(report.bash_calls) {
            Some(more) => {
                report.bash_calls = more;
            },
            None => return false,
        }
        if let Some((verb, args)) = &call {
            if !count_call(report, verb.as_str(), args) {
                return false;
            }
        }
    }
    reading.pending.put(id.to_owned(), name.to_owned());
    assert(session_of(*reading, *report) == end);
    true
}

fn handle_assistant(value: &Json, reading: &mut Reading, report: &mut StatsReport) -> (held: bool)
    requires
        counts::are_listed(old(report).lets_calls@),
    ensures
        counts::are_listed(final(report).lets_calls@),
        ({
            let items = items_of(*value);
            let end = called_upto(
                session_of(*old(reading), *old(report)),
                items,
                items.len() as int,
            );
            &&& held ==> session_of(*final(reading), *final(report)) == end
            &&& !held ==> !fits(end.counted)
            &&& same_frame(*old(report), *final(report))
        }),
{
    let ghost start = session_of(*reading, *report);
    let ghost all = items_of(*value);
    let ghost first = *report;
    let items = match content_items(value) {
        Some(items) => items,
        None => return true,
    };
    let mut i: usize = 0;
    while i < items.len()
        invariant
            i <= items@.len(),
            items@ == all,
            counts::are_listed(report.lets_calls@),
            start == session_of(*old(reading), *old(report)),
            first == *old(report),
            all == items_of(*value),
            same_frame(first, *report),
            session_of(*reading, *report) == called_upto(start, all, i as int),
        decreases items@.len() - i,
    {
        if !take_call(&items[i], reading, report) {
            proof {
                lemma_called_upto(start, all, i + 1, all.len() as int);
                if fits(called_upto(start, all, all.len() as int).counted) {
                    lemma_grows_fits(
                        called_upto(start, all, i + 1).counted,
                        called_upto(start, all, all.len() as int).counted,
                    );
                }
            }
            return false;
        }
        i = i + 1;
    }
    true
}

fn take_answer(item: &Json, reading: &mut Reading, report: &mut StatsReport) -> (held: bool)
    requires
        counts::are_listed(old(report).lets_calls@),
    ensures
        counts::are_listed(final(report).lets_calls@),
        ({
            let end = answered(session_of(*old(reading), *old(report)), *item);
            &&& held ==> session_of(*final(reading), *final(report)) == end
            &&& !held ==> !fits(end.counted)
            &&& same_frame(*old(report), *final(report))
        }),
{
    let ghost start = session_of(*reading, *report);
    let ghost end = answered(start, *item);
    let is_result = match get_text(item, "type") {
        Some(kind) => text::same(kind, "tool_result"),
        None => false,
    };
    if !is_result {
        return true;
    }
    let id = match get_text(item, "tool_use_id") {
        Some(id) => id,
        None => return true,
    };
    let name = match reading.pending.take(id) {
        Some(name) => name,
        None => {
            assert(reading.pending@ =~= start.pending);
            return true;
        },
    };
    let is_error = match get(item, "is_error") {
        Some(Json::Bool(b)) => *b,
        _ => false,
    };
    let said = text_of(get(item, "content"));
    if text::same(name.as_str(), "Bash") {
        if is_error {
            if let Some(run) = find_run_line(said.as_str()) {
                match raise(report.hook_blocks) {
                    Some(more) => {
                        report.hook_blocks = more;
                    },
                    None => return false,
                }
                reading.expected = match lets_call(run.as_str()) {
                    Some((verb, _)) => Some(verb),
                    None => None,
                };
            }
        }
    } else if text::same(name.as_str(), "Read") {
        match raise(report.read_calls) {
            Some(more) => {
                report.read_calls = more;
            },
            None => return false,
        }
        match report.read_bytes.checked_add(text::len(said.as_str()) as u64) {
            Some(more) => {
                report.read_bytes = more;
            },
            None => return false,
        }
    }
    assert(session_of(*reading, *report) == end);
    true
}

fn handle_user(value: &Json, reading: &mut Reading, report: &mut StatsReport) -> (held: bool)
    requires
        counts::are_listed(old(report).lets_calls@),
    ensures
        counts::are_listed(final(report).lets_calls@),
        ({
            let items = items_of(*value);
            let end = answered_upto(
                session_of(*old(reading), *old(report)),
                items,
                items.len() as int,
            );
            &&& held ==> session_of(*final(reading), *final(report)) == end
            &&& !held ==> !fits(end.counted)
            &&& same_frame(*old(report), *final(report))
        }),
{
    let ghost start = session_of(*reading, *report);
    let ghost all = items_of(*value);
    let ghost first = *report;
    let items = match content_items(value) {
        Some(items) => items,
        None => return true,
    };
    let mut i: usize = 0;
    while i < items.len()
        invariant
            i <= items@.len(),
            items@ == all,
            counts::are_listed(report.lets_calls@),
            start == session_of(*old(reading), *old(report)),
            first == *old(report),
            all == items_of(*value),
            same_frame(first, *report),
            session_of(*reading, *report) == answered_upto(start, all, i as int),
        decreases items@.len() - i,
    {
        if !take_answer(&items[i], reading, report) {
            proof {
                lemma_answered_upto(start, all, i + 1, all.len() as int);
                if fits(answered_upto(start, all, all.len() as int).counted) {
                    lemma_grows_fits(
                        answered_upto(start, all, i + 1).counted,
                        answered_upto(start, all, all.len() as int).counted,
                    );
                }
            }
            return false;
        }
        i = i + 1;
    }
    true
}

/// One value of a transcript; `false` where a count would grow past what can be held.
pub fn take_value(value: &Json, reading: &mut Reading, report: &mut StatsReport) -> (held: bool)
    requires
        counts::are_listed(old(report).lets_calls@),
    ensures
        counts::are_listed(final(report).lets_calls@),
        ({
            let end = told(session_of(*old(reading), *old(report)), *value);
            &&& held ==> session_of(*final(reading), *final(report)) == end
            &&& !held ==> !fits(end.counted)
            &&& same_frame(*old(report), *final(report))
        }),
{
    let kind = match get_text(value, "type") {
        Some(kind) => kind,
        None => return true,
    };
    proof {
        reveal_strlit("assistant");
        reveal_strlit("user");
        assert("assistant"@.len() == 9 && "user"@.len() == 4);
    }
    if text::same(kind, "assistant") {
        handle_assistant(value, reading, report)
    } else if text::same(kind, "user") {
        handle_user(value, reading, report)
    } else {
        true
    }
}

/// Where transcripts are kept, in the directory of the settings, which is the one of that name in
/// the user's.
pub fn default_dir(home: &str, name: &str) -> (r: String)
    ensures
        r@ == under(under(home@, name@), "projects"@),
{
    path_under(claude_dir(home, name).as_str(), "projects")
}

/// The answer to `lets stats`: what the transcripts that the walk chose hold. `files` are those
/// transcripts, each as it was read, `None` where it could not be opened. A directory that is not
/// there is a walk that met nothing. There is no answer where a count would grow past what can be
/// held.
pub fn run(walk: &Chosen, files: &Vec<Option<Transcript>>) -> (r: Option<Outcome>)
    ensures
        ({
            let end = files_scanned(
                scan_begun(walk.walk_errors as nat, walk.unreadable_files as nat),
                files@,
                files@.len() as int,
            );
            match r {
                Some(outcome) => {
                    &&& outcome.error is None
                    &&& outcome.response.body is Stats
                    &&& counts::are_listed(outcome.response.body->Stats_0.lets_calls@)
                    &&& scan_of(outcome.response.body->Stats_0) == end
                    &&& (Response {
                        body: Body::Empty,
                        ..outcome.response
                    }).is_empty_for("stats"@)
                },
                None => !all_fits(end),
            }
        }),
{
    match scan_dir(walk, files) {
        Some(report) => {
            let mut response = Response::empty("stats");
            response.body = Body::Stats(report);
            Some(Outcome::ok(response))
        },
        None => None,
    }
}

/// The words before the first flag are the bare ones.
pub proof fn law_bare_words_stand_before_the_first_flag(args: Seq<Seq<char>>, i: int)
    requires
        0 <= i <= args.len(),
    ensures
        i + bare_words(args, i) <= args.len(),
        forall|k: int|
            i <= k < i + bare_words(args, i) ==> !((#[trigger] args[k]).len() > 0 && args[k][0]
                == '-'),
        i + bare_words(args, i) < args.len() ==> args[i + bare_words(args, i)].len() > 0 && args[i
            + bare_words(args, i)][0] == '-',
    decreases args.len() - i,
{
    if i < args.len() && !(args[i].len() > 0 && args[i][0] == '-') {
        law_bare_words_stand_before_the_first_flag(args, i + 1);
    }
}

/// An item calls a tool of that name.
pub open spec fn calls_tool(item: Json, name: Seq<char>) -> bool {
    text_get(item, "type"@) == Some("tool_use"@) && text_get(item, "id"@) is Some && text_get(
        item,
        "name"@,
    ) == Some(name)
}

/// An item runs `lets` with that verb.
pub open spec fn calls_verb(item: Json, verb: Seq<char>) -> bool {
    calls_tool(item, "Bash"@) && (get_of(item, "input"@) matches Some(input) && (text_get(
        input,
        "command"@,
    ) matches Some(command) && (call_of(command) matches Some((called, _)) && called == verb)))
}

/// Every command that is run counts once, every call of `lets` once for its verb, and nothing else
/// does: reads and blocks are counted by what answers them.
pub proof fn law_each_call_is_counted_once(
    session: Session,
    items: Seq<Json>,
    verb: Seq<char>,
    n: int,
)
    requires
        0 <= n <= items.len(),
    ensures
        ({
            let (was, now) = (session.counted, called_upto(session, items, n).counted);
            &&& now.bash_calls == was.bash_calls + items.take(n).filter(
                |item: Json| calls_tool(item, "Bash"@),
            ).len()
            &&& count_in(now.lets_calls, verb) == count_in(was.lets_calls, verb) + items.take(
                n,
            ).filter(|item: Json| calls_verb(item, verb)).len()
            &&& now.hook_blocks == was.hook_blocks
            &&& now.read_calls == was.read_calls
            &&& now.read_bytes == was.read_bytes
        }),
    decreases n,
{
    reveal(Seq::filter);
    if n > 0 {
        law_each_call_is_counted_once(session, items, verb, n - 1);
        assert(items.take(n).drop_last() =~= items.take(n - 1));
        assert(items.take(n).last() == items[n - 1]);
    }
}

/// A call saves as many others as it names targets beyond the first.
pub proof fn law_a_call_saves_one_for_each_further_target(
    counted: Counted,
    verb: Seq<char>,
    args: Seq<Seq<char>>,
)
    requires
        forall|k: int| 0 <= k < args.len() ==> !((#[trigger] args[k]).len() > 0 && args[k][0] == '-'),
    ensures
        ({
            let saved = with_call(counted, verb, args).calls_saved - counted.calls_saved;
            let targets = if verb == "find"@ {
                args.len() - 1
            } else {
                args.len() as int
            };
            saved == (if targets > 1 {
                targets - 1
            } else {
                0
            })
        }),
{
    law_bare_words_stand_before_the_first_flag(args, 0);
    let bare = bare_words(args, 0) as int;
    if bare < args.len() {
        assert(args[0 + bare].len() > 0 && args[0 + bare][0] == '-');
    }
}

/// A call is answered once: a second answer to it changes nothing.
pub proof fn law_a_call_is_answered_once(session: Session, item: Json)
    ensures
        answered(answered(session, item), item) == answered(session, item),
{
}

/// A read counts as many bytes as it handed out, and an answer to another tool counts none.
pub proof fn law_a_read_counts_its_bytes(session: Session, item: Json, id: Seq<char>)
    requires
        text_get(item, "type"@) == Some("tool_result"@),
        text_get(item, "tool_use_id"@) == Some(id),
        session.pending.dom().contains(id),
    ensures
        ({
            let now = answered(session, item);
            let said = result_text(get_of(item, "content"@));
            &&& !now.pending.dom().contains(id)
            &&& now.counted.read_calls == session.counted.read_calls + (if session.pending[id]
                == "Read"@ {
                1int
            } else {
                0
            })
            &&& now.counted.read_bytes == session.counted.read_bytes + (if session.pending[id]
                == "Read"@ {
                byte_len(said) as int
            } else {
                0
            })
            &&& now.counted.bash_calls == session.counted.bash_calls
            &&& now.counted.lets_calls == session.counted.lets_calls
        }),
{
    reveal_strlit("Bash");
    reveal_strlit("Read");
    assert("Bash"@[0] != "Read"@[0]);
}

/// A block is a command that failed with a line that says what to run; the first such line decides.
pub proof fn law_a_block_says_what_to_run(lines: Seq<Seq<char>>, i: int)
    requires
        0 <= i <= lines.len(),
    ensures
        match run_line(lines, i) {
            Some(run) => exists|k: int|
                i <= k < lines.len() && #[trigger] lines[k] == "run: "@ + run && forall|j: int|
                    i <= j < k ==> !"run: "@.is_prefix_of(#[trigger] lines[j]),
            None => forall|k: int|
                i <= k < lines.len() ==> !"run: "@.is_prefix_of(#[trigger] lines[k]),
        },
    decreases lines.len() - i,
{
    if i < lines.len() {
        if "run: "@.is_prefix_of(lines[i]) {
            assert(lines[i] =~= "run: "@ + lines[i].skip("run: "@.len() as int));
        } else {
            law_a_block_says_what_to_run(lines, i + 1);
        }
    }
}

/// The text of an answer that is a list is that of its text blocks, in their order.
pub proof fn law_an_answer_says_what_its_text_blocks_say(items: Seq<Json>, n: int)
    requires
        0 <= n <= items.len(),
    ensures
        block_texts(items, n) == items.take(n).filter(
            |item: Json|
                text_get(item, "type"@) == Some("text"@) && text_get(item, "text"@) is Some,
        ).map_values(|item: Json| text_get(item, "text"@)->0),
    decreases n,
{
    reveal(Seq::filter);
    let says = |item: Json|
        text_get(item, "type"@) == Some("text"@) && text_get(item, "text"@) is Some;
    if n > 0 {
        law_an_answer_says_what_its_text_blocks_say(items, n - 1);
        assert(items.take(n).drop_last() =~= items.take(n - 1));
    } else {
        assert(items.take(0) =~= Seq::empty());
    }
    assert(block_texts(items, n) =~= items.take(n).filter(says).map_values(
        |item: Json| text_get(item, "text"@)->0,
    ));
}

} // verus!
