//! What the `at-block` log promises of every run.

use vstd::prelude::*;
use vstd::utf8::encode_utf8;

use crate::at_block_tracker::{drained, initialized, is_fresh, is_requested, logged, opening};
use crate::csv::{
    Record, columns, header, law_header_spelled_out, law_log_reads_back, lemma_rows_concat,
    read_lines, rows,
};

verus! {

/// A call on a tracker.
pub enum Call {
    Init { csv_var: Option<Seq<char>>, file_len: Option<u64> },
    Log(Record),
    Flush,
    Reset,
}

/// The records that `calls` log, in order.
pub open spec fn records(calls: Seq<Call>) -> Seq<Record>
    decreases calls.len(),
{
    if calls.len() == 0 {
        Seq::empty()
    } else {
        match calls.last() {
            Call::Log(record) => records(calls.drop_last()).push(record),
            _ => records(calls.drop_last()),
        }
    }
}

/// The text that a tracker hands out when `pending` is what it holds.
pub open spec fn handed_out(pending: Option<Seq<char>>) -> Seq<char> {
    match pending {
        Some(text) => text,
        None => Seq::empty(),
    }
}

/// What is pending after `calls`, and the text that has been handed out.
pub open spec fn run(pending: Option<Seq<char>>, calls: Seq<Call>) -> (Option<Seq<char>>, Seq<char>)
    decreases calls.len(),
{
    if calls.len() == 0 {
        (pending, Seq::empty())
    } else {
        let (before, written) = run(pending, calls.drop_last());
        match calls.last() {
            Call::Init { csv_var, file_len } => (
                initialized(before, csv_var, file_len),
                written + (if is_requested(csv_var) {
                    handed_out(before)
                } else {
                    Seq::empty()
                }),
            ),
            Call::Log(record) => (logged(before, record), written),
            Call::Flush => (drained(before), written + handed_out(before)),
            Call::Reset => (None, written + handed_out(before)),
        }
    }
}

/// What is pending after an initialization for a path: nothing, where the file
/// holds a byte or more, and the header where it is empty or its length is not
/// known. Without a path all stays as it is.
pub proof fn law_init(pending: Option<Seq<char>>, path: Seq<char>, n: u64)
    ensures
        path.len() > 0 && n > 0 ==> initialized(pending, Some(path), Some(n)) == Some(
            Seq::<char>::empty(),
        ),
        path.len() > 0 ==> initialized(pending, Some(path), Some(0)) == Some(
            "current_block_height,target_block_hash,contract_id,sender,caller,call_stack_depth,call_stack_top,epoch,success,error_msg\n"@,
        ),
        path.len() > 0 ==> initialized(pending, Some(path), None) == Some(
            "current_block_height,target_block_hash,contract_id,sender,caller,call_stack_depth,call_stack_top,epoch,success,error_msg\n"@,
        ),
        path.len() == 0 ==> initialized(pending, Some(path), Some(n)) == pending,
        path.len() == 0 ==> initialized(pending, Some(path), None) == pending,
        initialized(pending, None, Some(n)) == pending,
        initialized(pending, None, None) == pending,
{
    law_header_spelled_out();
}

/// Logging appends to what is pending, whatever that is, and does nothing to a
/// tracker that is not active. Two records that are logged follow each other.
pub proof fn law_log(text: Seq<char>, a: Record, b: Record)
    ensures
        logged(Some(text), a) == Some(text + a.row()),
        logged(logged(Some(text), a), b) == Some(text + a.row() + b.row()),
        logged(None, a) is None,
{
}

/// After a flush nothing is pending, and a tracker is active if it was before.
pub proof fn law_flush(pending: Option<Seq<char>>)
    ensures
        pending is Some ==> drained(pending) == Some(Seq::<char>::empty()),
        pending is None ==> drained(pending) is None,
{
}

/// The records of some calls are those of the calls that log, in order.
pub proof fn law_records(calls: Seq<Call>)
    ensures
        records(calls) == calls.filter(|c: Call| c is Log).map_values(|c: Call| c->Log_0),
    decreases calls.len(),
{
    let is_log = |c: Call| c is Log;
    let record_of = |c: Call| c->Log_0;
    if calls.len() == 0 {
        assert(calls =~= Seq::empty());
        assert(calls.filter(is_log).map_values(record_of) =~= Seq::empty());
    } else {
        let earlier = calls.drop_last();
        law_records(earlier);
        earlier.lemma_filter_push(calls.last(), is_log);
        assert(calls =~= earlier.push(calls.last()));
        assert(records(calls) =~= calls.filter(is_log).map_values(record_of));
    }
}

/// No call of `calls` asks for a log.
pub open spec fn none_requested(calls: Seq<Call>) -> bool {
    forall|i: int|
        0 <= i < calls.len() ==> (#[trigger] calls[i] matches Call::Init {
            csv_var: Some(path),
            ..
        } ==> path.len() == 0)
}

/// `calls` log and flush only.
pub open spec fn log_and_flush_only(calls: Seq<Call>) -> bool {
    forall|i: int| 0 <= i < calls.len() ==> (#[trigger] calls[i] is Log || calls[i] is Flush)
}

/// As long as no log is asked for, a tracker stays inactive and hands nothing
/// out, whatever is called.
pub proof fn law_inactive_does_nothing(calls: Seq<Call>)
    requires
        none_requested(calls),
    ensures
        run(None, calls) == (None::<Seq<char>>, Seq::<char>::empty()),
    decreases calls.len(),
{
    if calls.len() > 0 {
        let n = calls.len() - 1;
        assert(calls[n] == calls.last());
        assert forall|i: int| 0 <= i < n implies (
        #[trigger] calls.drop_last()[i] matches Call::Init { csv_var: Some(path), .. }
            ==> path.len() == 0) by {
            assert(calls[i] == calls.drop_last()[i]);
        }
        law_inactive_does_nothing(calls.drop_last());
        assert(Seq::<char>::empty() + Seq::<char>::empty() =~= Seq::empty());
    }
}

/// A reset ends all logging: after it, as long as no log is asked for, nothing
/// more is handed out.
pub proof fn law_reset_ends_logging(pending: Option<Seq<char>>, calls: Seq<Call>)
    requires
        none_requested(calls),
    ensures
        run(run(pending, seq![Call::Reset]).0, calls) == (None::<Seq<char>>, Seq::<char>::empty()),
{
    reveal_with_fuel(run, 2);
    law_inactive_does_nothing(calls);
}

/// Whether a tracker is active after `calls`, given whether it was before.
pub open spec fn active_after(active: bool, calls: Seq<Call>) -> bool
    decreases calls.len(),
{
    if calls.len() == 0 {
        active
    } else {
        let before = active_after(active, calls.drop_last());
        match calls.last() {
            Call::Init { csv_var: Some(path), .. } => before || path.len() > 0,
            Call::Reset => false,
            _ => before,
        }
    }
}

/// The text that a tracker takes in with `calls`: what is written first to each
/// file that is asked for, and the rows of the records that are logged while it
/// is active.
pub open spec fn taken_in(active: bool, calls: Seq<Call>) -> Seq<char>
    decreases calls.len(),
{
    if calls.len() == 0 {
        Seq::empty()
    } else {
        let earlier = taken_in(active, calls.drop_last());
        match calls.last() {
            Call::Init { csv_var: Some(path), file_len } if path.len() > 0 => earlier + (match file_len {
                Some(n) if n > 0 => Seq::empty(),
                _ => "current_block_height,target_block_hash,contract_id,sender,caller,call_stack_depth,call_stack_top,epoch,success,error_msg\n"@,
            }),
            Call::Log(record) if active_after(active, calls.drop_last()) => earlier + record.row(),
            _ => earlier,
        }
    }
}

/// Whatever is called, a tracker keeps all text that it takes in: what it has
/// handed out and what is pending are together what was pending at first and
/// what it took in since, in order. It is active from an initialization that
/// asks for a log until the next reset.
pub proof fn law_all_text_kept(pending: Option<Seq<char>>, calls: Seq<Call>)
    ensures
        run(pending, calls).0 is Some == active_after(pending is Some, calls),
        run(pending, calls).1 + handed_out(run(pending, calls).0) == handed_out(pending) + taken_in(
            pending is Some,
            calls,
        ),
    decreases calls.len(),
{
    let (after, written) = run(pending, calls);
    let active = pending is Some;
    if calls.len() == 0 {
        assert(written + handed_out(after) =~= handed_out(pending) + taken_in(active, calls));
    } else {
        law_all_text_kept(pending, calls.drop_last());
        let (before, earlier) = run(pending, calls.drop_last());
        let start = handed_out(pending);
        let so_far = taken_in(active, calls.drop_last());
        match calls.last() {
            Call::Init { csv_var: Some(path), file_len } if path.len() > 0 => {
                let more = opening(is_fresh(file_len));
                law_header_spelled_out();
                assert(written + handed_out(after) =~= (earlier + handed_out(before)) + more);
                assert(start + taken_in(active, calls) =~= (start + so_far) + more);
            },
            Call::Log(record) if before is Some => {
                assert(written + handed_out(after) =~= (earlier + handed_out(before))
                    + record.row());
                assert(start + taken_in(active, calls) =~= (start + so_far) + record.row());
            },
            _ => {
                assert(written + handed_out(after) =~= earlier + handed_out(before));
            },
        }
    }
}

/// Between an initialization and a reset nothing is lost, repeated or reordered,
/// whenever the tracker is flushed: what has been handed out and what is pending
/// are together what was pending at first and the rows of all records, in order.
pub proof fn law_nothing_lost(text: Seq<char>, calls: Seq<Call>)
    requires
        log_and_flush_only(calls),
    ensures
        run(Some(text), calls).0 is Some,
        run(Some(text), calls).1 + handed_out(run(Some(text), calls).0) == text + rows(
            records(calls),
        ),
    decreases calls.len(),
{
    let (after, written) = run(Some(text), calls);
    if calls.len() == 0 {
        assert(written + handed_out(after) =~= text + rows(records(calls)));
    } else {
        let n = calls.len() - 1;
        assert(calls[n] == calls.last());
        assert forall|i: int| 0 <= i < n implies (#[trigger] calls.drop_last()[i] is Log
            || calls.drop_last()[i] is Flush) by {
            assert(calls[i] == calls.drop_last()[i]);
        }
        law_nothing_lost(text, calls.drop_last());
        let (before, earlier) = run(Some(text), calls.drop_last());
        match calls.last() {
            Call::Log(record) => {
                let prior = records(calls.drop_last());
                assert(prior.push(record).drop_last() =~= prior);
                assert(written + handed_out(after) =~= (earlier + handed_out(before))
                    + record.row());
                assert(text + rows(records(calls)) =~= (text + rows(prior)) + record.row());
            },
            _ => {
                assert(written + handed_out(after) =~= earlier + handed_out(before));
            },
        }
    }
}

/// A session: the tracker is initialized for a log, called, and reset.
pub struct Session {
    pub csv_var: Option<Seq<char>>,
    pub file_len: Option<u64>,
    pub calls: Seq<Call>,
}

impl Session {
    /// The session asks for a log, and between its first and its last call it
    /// logs and flushes only.
    pub open spec fn valid(self) -> bool {
        &&& self.csv_var is Some
        &&& self.csv_var->0.len() > 0
        &&& log_and_flush_only(self.calls)
    }

    /// All calls of the session.
    pub open spec fn all_calls(self) -> Seq<Call> {
        seq![Call::Init { csv_var: self.csv_var, file_len: self.file_len }] + self.calls
            + seq![Call::Reset]
    }
}

proof fn lemma_run_concat(pending: Option<Seq<char>>, a: Seq<Call>, b: Seq<Call>)
    ensures
        run(pending, a + b).0 == run(run(pending, a).0, b).0,
        run(pending, a + b).1 == run(pending, a).1 + run(run(pending, a).0, b).1,
    decreases b.len(),
{
    if b.len() == 0 {
        assert(a + b =~= a);
        assert(run(pending, a).1 =~= run(pending, a).1 + Seq::empty());
    } else {
        lemma_run_concat(pending, a, b.drop_last());
        assert((a + b).drop_last() =~= a + b.drop_last());
        assert(run(pending, a + b).1 =~= run(pending, a).1 + run(run(pending, a).0, b).1);
    }
}

/// A session on an inactive tracker writes the header if the file is fresh, and
/// then the row of each record, in order; the tracker is inactive again.
pub proof fn law_session(session: Session)
    requires
        session.valid(),
    ensures
        run(None, session.all_calls()) == (
            None::<Seq<char>>,
            (match session.file_len {
                Some(n) if n > 0 => Seq::empty(),
                _ => "current_block_height,target_block_hash,contract_id,sender,caller,call_stack_depth,call_stack_top,epoch,success,error_msg\n"@,
            }) + rows(records(session.calls)),
        ),
{
    law_header_spelled_out();
    let calls = session.calls;
    let first = seq![Call::Init { csv_var: session.csv_var, file_len: session.file_len }];
    let last = seq![Call::Reset];
    let open = Some(opening(is_fresh(session.file_len)));
    reveal_with_fuel(run, 2);
    assert(run(None, first) == (open, Seq::<char>::empty())) by {
        assert(first.drop_last() =~= Seq::empty());
        assert(Seq::<char>::empty() + Seq::<char>::empty() =~= Seq::empty());
    }
    lemma_run_concat(None, first, calls);
    lemma_run_concat(None, first + calls, last);
    law_nothing_lost(opening(is_fresh(session.file_len)), calls);
    assert(last.drop_last() =~= Seq::empty());
    assert(run(None, session.all_calls()).1 =~= run(open, calls).1 + handed_out(
        run(open, calls).0,
    ));
}

/// The text of a file that some sessions have appended to, one after the other.
pub open spec fn file_after(file: Seq<char>, sessions: Seq<Session>) -> Seq<char>
    decreases sessions.len(),
{
    if sessions.len() == 0 {
        file
    } else {
        file_after(file, sessions.drop_last()) + run(None, sessions.last().all_calls()).1
    }
}

/// What a session appends to a file whose length it is told: the header if the
/// file is empty, and then the row of each record, in order.
pub proof fn law_session_on_file(file: Seq<char>, session: Session)
    requires
        session.valid(),
        encode_utf8(file).len() <= u64::MAX,
        session.file_len == Some(encode_utf8(file).len() as u64),
    ensures
        file.len() == 0 ==> run(None, session.all_calls()).1
            == "current_block_height,target_block_hash,contract_id,sender,caller,call_stack_depth,call_stack_top,epoch,success,error_msg\n"@
            + rows(records(session.calls)),
        file.len() > 0 ==> run(None, session.all_calls()).1 == rows(records(session.calls)),
{
    law_session(session);
    lemma_encoded_empty(file);
    if file.len() > 0 {
        assert(Seq::<char>::empty() + rows(records(session.calls)) =~= rows(
            records(session.calls),
        ));
    }
}

proof fn lemma_encoded_empty(text: Seq<char>)
    ensures
        encode_utf8(text).len() == 0 <==> text.len() == 0,
{
}

/// Each session is told that the file is empty if and only if it is when the
/// session starts; where it is not told the file's length, the file is empty.
pub open spec fn in_turn(file: Seq<char>, sessions: Seq<Session>) -> bool
    decreases sessions.len(),
{
    sessions.len() > 0 ==> {
        &&& in_turn(file, sessions.drop_last())
        &&& sessions.last().valid()
        &&& match sessions.last().file_len {
            Some(n) => n == 0 <==> file_after(file, sessions.drop_last()).len() == 0,
            None => file_after(file, sessions.drop_last()).len() == 0,
        }
    }
}

/// Each session is told the length of the file, in bytes, when it starts.
pub open spec fn told_length(file: Seq<char>, sessions: Seq<Session>) -> bool
    decreases sessions.len(),
{
    sessions.len() > 0 ==> {
        let so_far = encode_utf8(file_after(file, sessions.drop_last()));
        &&& told_length(file, sessions.drop_last())
        &&& sessions.last().valid()
        &&& so_far.len() <= u64::MAX
        &&& sessions.last().file_len == Some(so_far.len() as u64)
    }
}

proof fn lemma_told_in_turn(file: Seq<char>, sessions: Seq<Session>)
    requires
        told_length(file, sessions),
    ensures
        in_turn(file, sessions),
    decreases sessions.len(),
{
    if sessions.len() > 0 {
        lemma_told_in_turn(file, sessions.drop_last());
        lemma_encoded_empty(file_after(file, sessions.drop_last()));
    }
}

/// The records that `sessions` log, in order.
pub open spec fn all_records(sessions: Seq<Session>) -> Seq<Record>
    decreases sessions.len(),
{
    if sessions.len() == 0 {
        Seq::empty()
    } else {
        all_records(sessions.drop_last()) + records(sessions.last().calls)
    }
}

/// The header comes once, at the start: a file that was empty holds, after one
/// session or more, the header and then the rows of all records; one that was
/// not empty gets no header.
pub proof fn law_header_once(file: Seq<char>, sessions: Seq<Session>)
    requires
        sessions.len() > 0,
        in_turn(file, sessions),
    ensures
        file_after(file, sessions) == file + (if file.len() == 0 {
            "current_block_height,target_block_hash,contract_id,sender,caller,call_stack_depth,call_stack_top,epoch,success,error_msg\n"@
        } else {
            Seq::empty()
        }) + rows(all_records(sessions)),
    decreases sessions.len(),
{
    law_header_spelled_out();
    let earlier = sessions.drop_last();
    let last = sessions.last();
    law_session(last);
    lemma_rows_concat(all_records(earlier), records(last.calls));
    if sessions.len() > 1 {
        law_header_once(file, earlier);
    } else {
        assert(all_records(earlier) =~= Seq::empty());
    }
    assert(header().len() > 0);
    assert(file_after(file, sessions) =~= file + opening(file.len() == 0) + rows(
        all_records(sessions),
    ));
}

/// The header comes once where each session is told the length of the file: a
/// file that was empty holds the header and then the rows of all records, and
/// one that was not empty gets no header, however long it is.
pub proof fn law_header_once_by_length(file: Seq<char>, sessions: Seq<Session>)
    requires
        sessions.len() > 0,
        told_length(file, sessions),
    ensures
        file.len() == 0 ==> file_after(file, sessions)
            == "current_block_height,target_block_hash,contract_id,sender,caller,call_stack_depth,call_stack_top,epoch,success,error_msg\n"@
            + rows(all_records(sessions)),
        file.len() > 0 ==> file_after(file, sessions) == file + rows(all_records(sessions)),
{
    lemma_told_in_turn(file, sessions);
    law_header_once(file, sessions);
    if file.len() == 0 {
        assert(file_after(file, sessions)
            =~= "current_block_height,target_block_hash,contract_id,sender,caller,call_stack_depth,call_stack_top,epoch,success,error_msg\n"@
            + rows(all_records(sessions)));
    } else {
        assert(file_after(file, sessions) =~= file + rows(all_records(sessions)));
    }
}

/// What is logged to a file that was empty reads back: the names of the columns,
/// and then the values of each record, over all sessions and in order.
pub proof fn law_file_reads_back(sessions: Seq<Session>)
    requires
        sessions.len() > 0,
        in_turn(Seq::empty(), sessions),
        forall|i: int|
            0 <= i < all_records(sessions).len() ==> (#[trigger] all_records(
                sessions,
            )[i]).readable(),
    ensures
        read_lines(file_after(Seq::empty(), sessions)) == Some(
            seq![columns()] + all_records(sessions).map_values(|r: Record| r.values()),
        ),
{
    let all = all_records(sessions);
    law_header_once(Seq::empty(), sessions);
    law_log_reads_back(all);
    law_header_spelled_out();
    assert(Seq::<char>::empty() + header() + rows(all) =~= header() + rows(all));
}

} // verus!
