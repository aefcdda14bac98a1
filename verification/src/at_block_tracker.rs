//! A CSV log of `at-block` invocations.
//!
//! The tracker is inactive until it is initialized with the path of a file; as
//! long as it is inactive, all logging calls do nothing. What is logged is
//! buffered, and handed out to be written to the file when the tracker is
//! flushed, when it is reset, and when it is initialized anew.

use vstd::prelude::*;

use crate::csv::{
    Record, columns, escaped, header, law_header_spelled_out, law_row_spelled_out,
    lemma_escaped_concat, lemma_escaped_unchanged, lemma_line_of_ten, quoted,
};
use crate::text::{append_decimal, append_flag, decimal};

verus! {

/// The environment variable that holds the path of the log.
pub const CSV_PATH_VAR: &'static str = "STACKS_AT_BLOCK_CSV";

/// Logs `at-block` invocations, once it is initialized.
#[derive(Debug)]
pub struct Tracker {
    /// The text that has been logged and not yet handed out, where the tracker
    /// is active.
    pending: Option<String>,
}

/// The text of `s`, if there is one.
pub open spec fn text_of(s: Option<String>) -> Option<Seq<char>> {
    match s {
        Some(text) => Some(text@),
        None => None,
    }
}

impl View for Tracker {
    type V = Option<Seq<char>>;

    closed spec fn view(&self) -> Option<Seq<char>> {
        text_of(self.pending)
    }
}

impl Tracker {
    /// A tracker that is not active.
    pub fn new() -> (r: Tracker)
        ensures
            r@ == None::<Seq<char>>,
    {
        Tracker { pending: None }
    }
}

/// What is written first to a file: the header, where the file is `fresh`.
pub open spec fn opening(fresh: bool) -> Seq<char> {
    if fresh {
        header()
    } else {
        Seq::empty()
    }
}

/// A file counts as fresh where it is empty, and where its length is not known.
pub open spec fn is_fresh(file_len: Option<u64>) -> bool {
    match file_len {
        Some(n) => n == 0,
        None => true,
    }
}

/// `csv_var`, the value of the environment variable, asks for a log: it is set
/// and not empty.
pub open spec fn is_requested(csv_var: Option<Seq<char>>) -> bool {
    match csv_var {
        Some(path) => path.len() > 0,
        None => false,
    }
}

/// The text of `s`, if there is one.
pub open spec fn str_of(s: Option<&str>) -> Option<Seq<char>> {
    match s {
        Some(text) => Some(text@),
        None => None,
    }
}

/// What is pending after an initialization: where a log is asked for, what is
/// written first to its file.
pub open spec fn initialized(
    pending: Option<Seq<char>>,
    csv_var: Option<Seq<char>>,
    file_len: Option<u64>,
) -> Option<Seq<char>> {
    if is_requested(csv_var) {
        Some(opening(is_fresh(file_len)))
    } else {
        pending
    }
}

/// What is pending after `record` has been logged: a tracker that is not active
/// stays so.
pub open spec fn logged(pending: Option<Seq<char>>, record: Record) -> Option<Seq<char>> {
    match pending {
        Some(text) => Some(text + record.row()),
        None => None,
    }
}

/// What is pending after all has been handed out: nothing, and the tracker is
/// active if it was.
pub open spec fn drained(pending: Option<Seq<char>>) -> Option<Seq<char>> {
    match pending {
        Some(text) => Some(Seq::empty()),
        None => None,
    }
}

/// The path of the log that `csv_var`, the value of the environment variable,
/// asks for: none where the variable is unset or empty.
pub fn requested_path<'a>(csv_var: Option<&'a str>) -> (r: Option<&'a str>)
    ensures
        r == (if is_requested(str_of(csv_var)) {
            csv_var
        } else {
            None
        }),
        r == (match csv_var {
            Some(path) if path@.len() > 0 => Some(path),
            _ => None,
        }),
{
    match csv_var {
        Some(path) => if path.is_empty() {
            None
        } else {
            Some(path)
        },
        None => None,
    }
}

/// Appends a comma to `out`.
fn append_comma(out: &mut String)
    ensures
        final(out)@ == old(out)@ + seq![','],
{
    proof {
        reveal_strlit(",");
        assert(","@ =~= seq![',']);
    }
    out.append(",");
}

/// Appends a newline to `out`.
fn append_newline(out: &mut String)
    ensures
        final(out)@ == old(out)@ + seq!['\n'],
{
    proof {
        reveal_strlit("\n");
        assert("\n"@ =~= seq!['\n']);
    }
    out.append("\n");
}

/// Appends `s` to `out`, with each double quote written twice.
fn append_escaped(out: &mut String, s: &str)
    ensures
        final(out)@ == old(out)@ + escaped(s@),
{
    let ghost before = out@;
    let len: usize = s.unicode_len();
    // What stands before `start` has been appended, and no quote stands between
    // `start` and `i`.
    let mut start: usize = 0;
    let mut i: usize = 0;
    proof {
        reveal_strlit("\"\"");
        assert("\"\""@ =~= seq!['"', '"']);
        assert(out@ =~= before + escaped(s@.take(0)));
    }
    for c in it: s.chars()
        invariant
            it.seq() == s@,
            i == it.index(),
            len == s@.len(),
            start <= i <= len,
            "\"\""@ == seq!['"', '"'],
            out@ == before + escaped(s@.take(start as int)),
            forall|j: int| start <= j < i ==> s@[j] != '"',
    {
        if c == '"' {
            let run = s.substring_char(start, i);
            let ghost quote = s@.subrange(i as int, i + 1);
            proof {
                lemma_escaped_unchanged(run@);
                lemma_escaped_concat(s@.take(start as int), run@);
                lemma_escaped_concat(s@.take(i as int), quote);
                assert(s@.take(start as int) + run@ =~= s@.take(i as int));
                assert(s@.take(i as int) + quote =~= s@.take(i + 1));
                reveal_with_fuel(escaped, 2);
                assert(escaped(quote) =~= seq!['"', '"']);
            }
            out.append(run);
            out.append("\"\"");
            start = i + 1;
            assert(out@ =~= before + escaped(s@.take(start as int)));
        }
        i = i + 1;
    }
    let run = s.substring_char(start, len);
    proof {
        lemma_escaped_unchanged(run@);
        lemma_escaped_concat(s@.take(start as int), run@);
        assert(s@.take(start as int) + run@ =~= s@);
    }
    out.append(run);
    assert(out@ =~= before + escaped(s@));
}

/// Appends `s` to `out`, between double quotes and escaped.
fn append_quoted(out: &mut String, s: &str)
    ensures
        final(out)@ == old(out)@ + quoted(s@),
{
    proof {
        reveal_strlit("\"");
        assert("\""@ =~= seq!['"']);
    }
    out.append("\"");
    append_escaped(out, s);
    out.append("\"");
    assert(out@ =~= old(out)@ + quoted(s@));
}

/// Appends the line that names the columns to `out`.
fn append_header(out: &mut String)
    ensures
        final(out)@ == old(out)@ + header(),
{
    out.append("current_block_height");
    append_comma(out);
    out.append("target_block_hash");
    append_comma(out);
    out.append("contract_id");
    append_comma(out);
    out.append("sender");
    append_comma(out);
    out.append("caller");
    append_comma(out);
    out.append("call_stack_depth");
    append_comma(out);
    out.append("call_stack_top");
    append_comma(out);
    out.append("epoch");
    append_comma(out);
    out.append("success");
    append_comma(out);
    out.append("error_msg");
    append_newline(out);
    proof {
        lemma_line_of_ten(columns());
        assert(out@ =~= old(out)@ + header());
    }
}

/// Initializes the tracker, given the value of the environment variable and the
/// length of the file that it names, where that is known. If the variable is
/// unset or empty, the tracker remains as it is.
///
/// Returns the text that the tracker still held for the file it had before.
pub fn init(
    tracker: &mut Tracker,
    csv_var: Option<&str>,
    file_len: Option<u64>,
) -> (r: Option<String>)
    ensures
        final(tracker)@ == initialized(old(tracker)@, str_of(csv_var), file_len),
        text_of(r) == (if is_requested(str_of(csv_var)) {
            old(tracker)@
        } else {
            None
        }),
        match csv_var {
            Some(path) if path@.len() > 0 => {
                &&& match file_len {
                    Some(n) if n > 0 => final(tracker)@ == Some(Seq::<char>::empty()),
                    _ => final(tracker)@ == Some(
                        "current_block_height,target_block_hash,contract_id,sender,caller,call_stack_depth,call_stack_top,epoch,success,error_msg\n"@,
                    ),
                }
                &&& match r {
                    Some(text) => old(tracker)@ == Some(text@),
                    None => old(tracker)@ is None,
                }
            },
            _ => final(tracker)@ == old(tracker)@ && r is None,
        },
{
    proof {
        law_header_spelled_out();
    }
    match requested_path(csv_var) {
        Some(_) => {
            let is_empty = match file_len {
                Some(n) => n == 0,
                None => true,
            };
            let mut text = String::new();
            if is_empty {
                append_header(&mut text);
            }
            assert(text@ =~= opening(is_fresh(file_len)));
            let displaced = tracker.pending.take();
            tracker.pending = Some(text);
            displaced
        },
        None => None,
    }
}

/// Logs a single `at-block` invocation. No-op if the tracker was not
/// initialized.
pub fn log_at_block(
    tracker: &mut Tracker,
    current_block_height: u32,
    target_block_hash: &str,
    contract_id: &str,
    sender: &str,
    caller: &str,
    call_stack_depth: u64,
    call_stack_top: &str,
    epoch: &str,
    success: bool,
    error_msg: &str,
)
    ensures
        final(tracker)@ == logged(
            old(tracker)@,
            (Record {
                current_block_height: current_block_height as nat,
                target_block_hash: target_block_hash@,
                contract_id: contract_id@,
                sender: sender@,
                caller: caller@,
                call_stack_depth: call_stack_depth as nat,
                call_stack_top: call_stack_top@,
                epoch: epoch@,
                success,
                error_msg: error_msg@,
            }),
        ),
        match old(tracker)@ {
            Some(text) => final(tracker)@ == Some(
                text + (decimal(current_block_height as nat) + seq![','] + target_block_hash@ + seq![
                    ',',
                ] + (seq!['"'] + escaped(contract_id@) + seq!['"']) + seq![','] + (seq!['"']
                    + escaped(sender@) + seq!['"']) + seq![','] + (seq!['"'] + escaped(caller@)
                    + seq!['"']) + seq![','] + decimal(call_stack_depth as nat) + seq![','] + (
                seq!['"'] + escaped(call_stack_top@) + seq!['"']) + seq![','] + epoch@ + seq![',']
                    + (if success {
                    "true"@
                } else {
                    "false"@
                }) + seq![','] + (seq!['"'] + escaped(error_msg@) + seq!['"']) + seq!['\n']),
            ),
            None => final(tracker)@ is None,
        },
{
    let ghost record = Record {
        current_block_height: current_block_height as nat,
        target_block_hash: target_block_hash@,
        contract_id: contract_id@,
        sender: sender@,
        caller: caller@,
        call_stack_depth: call_stack_depth as nat,
        call_stack_top: call_stack_top@,
        epoch: epoch@,
        success,
        error_msg: error_msg@,
    };
    proof {
        law_row_spelled_out(record);
    }
    match tracker.pending.take() {
        Some(mut out) => {
            let ghost before = out@;
            append_decimal(&mut out, current_block_height as u64);
            append_comma(&mut out);
            out.append(target_block_hash);
            append_comma(&mut out);
            append_quoted(&mut out, contract_id);
            append_comma(&mut out);
            append_quoted(&mut out, sender);
            append_comma(&mut out);
            append_quoted(&mut out, caller);
            append_comma(&mut out);
            append_decimal(&mut out, call_stack_depth);
            append_comma(&mut out);
            append_quoted(&mut out, call_stack_top);
            append_comma(&mut out);
            out.append(epoch);
            append_comma(&mut out);
            append_flag(&mut out, success);
            append_comma(&mut out);
            append_quoted(&mut out, error_msg);
            append_newline(&mut out);
            proof {
                lemma_line_of_ten(record.fields());
                assert(out@ =~= before + record.row());
            }
            tracker.pending = Some(out);
        },
        None => {},
    }
}

/// Hands out the text that is buffered, to be written to the file. No-op if the
/// tracker was not initialized.
pub fn flush(tracker: &mut Tracker) -> (r: Option<String>)
    ensures
        final(tracker)@ == drained(old(tracker)@),
        text_of(r) == old(tracker)@,
        match old(tracker)@ {
            Some(text) => r is Some && r->0@ == text && final(tracker)@ == Some(
                Seq::<char>::empty(),
            ),
            None => r is None && final(tracker)@ is None,
        },
{
    match tracker.pending.take() {
        Some(text) => {
            tracker.pending = Some(String::new());
            Some(text)
        },
        None => None,
    }
}

/// Makes the tracker inactive, and hands out the text that is buffered, to be
/// written to the file.
pub fn reset(tracker: &mut Tracker) -> (r: Option<String>)
    ensures
        final(tracker)@ == None::<Seq<char>>,
        text_of(r) == old(tracker)@,
        match old(tracker)@ {
            Some(text) => r is Some && r->0@ == text,
            None => r is None,
        },
{
    tracker.pending.take()
}

} // verus!
