//! Comma-separated values: how a log is written, and how it reads.

use vstd::prelude::*;

use crate::text::{decimal, flag_text, law_decimal_reads_back};

verus! {

/// One `at-block` invocation.
pub struct Record {
    pub current_block_height: nat,
    pub target_block_hash: Seq<char>,
    pub contract_id: Seq<char>,
    pub sender: Seq<char>,
    pub caller: Seq<char>,
    pub call_stack_depth: nat,
    pub call_stack_top: Seq<char>,
    pub epoch: Seq<char>,
    pub success: bool,
    pub error_msg: Seq<char>,
}

/// `s` with each double quote written twice.
pub open spec fn escaped(s: Seq<char>) -> Seq<char>
    decreases s.len(),
{
    if s.len() == 0 {
        Seq::empty()
    } else if s[0] == '"' {
        seq!['"', '"'] + escaped(s.drop_first())
    } else {
        seq![s[0]] + escaped(s.drop_first())
    }
}

/// `s` between double quotes, and escaped.
pub open spec fn quoted(s: Seq<char>) -> Seq<char> {
    seq!['"'] + escaped(s) + seq!['"']
}

/// Two texts, one after the other, are escaped one after the other.
pub proof fn lemma_escaped_concat(a: Seq<char>, b: Seq<char>)
    ensures
        escaped(a + b) == escaped(a) + escaped(b),
    decreases a.len(),
{
    if a.len() == 0 {
        assert(a + b =~= b);
        assert(escaped(a) + escaped(b) =~= escaped(b));
    } else {
        lemma_escaped_concat(a.drop_first(), b);
        assert((a + b).drop_first() =~= a.drop_first() + b);
        assert(escaped(a + b) =~= escaped(a) + escaped(b));
    }
}

/// A text without double quotes needs no escape.
pub proof fn lemma_escaped_unchanged(s: Seq<char>)
    requires
        forall|i: int| 0 <= i < s.len() ==> s[i] != '"',
    ensures
        escaped(s) == s,
    decreases s.len(),
{
    if s.len() > 0 {
        lemma_escaped_unchanged(s.drop_first());
    }
    assert(escaped(s) =~= s);
}

/// A line: the fields with commas between them, and a newline.
pub open spec fn line(fields: Seq<Seq<char>>) -> Seq<char>
    decreases fields.len(),
{
    if fields.len() == 0 {
        seq!['\n']
    } else if fields.len() == 1 {
        fields[0] + seq!['\n']
    } else {
        fields[0] + seq![','] + line(fields.drop_first())
    }
}

proof fn lemma_line_step(fields: Seq<Seq<char>>, i: int)
    requires
        0 <= i < fields.len(),
    ensures
        line(fields.skip(i)) == (if i + 1 == fields.len() {
            fields[i] + seq!['\n']
        } else {
            fields[i] + seq![','] + line(fields.skip(i + 1))
        }),
{
    assert(fields.skip(i).drop_first() =~= fields.skip(i + 1));
}

/// A line of ten fields, spelled out.
pub proof fn lemma_line_of_ten(f: Seq<Seq<char>>)
    requires
        f.len() == 10,
    ensures
        line(f) == f[0] + seq![','] + f[1] + seq![','] + f[2] + seq![','] + f[3] + seq![','] + f[4]
            + seq![','] + f[5] + seq![','] + f[6] + seq![','] + f[7] + seq![','] + f[8] + seq![',']
            + f[9] + seq!['\n'],
{
    assert(f.skip(0) =~= f);
    lemma_line_step(f, 0);
    lemma_line_step(f, 1);
    lemma_line_step(f, 2);
    lemma_line_step(f, 3);
    lemma_line_step(f, 4);
    lemma_line_step(f, 5);
    lemma_line_step(f, 6);
    lemma_line_step(f, 7);
    lemma_line_step(f, 8);
    lemma_line_step(f, 9);
    assert(line(f) =~= f[0] + seq![','] + f[1] + seq![','] + f[2] + seq![','] + f[3] + seq![',']
        + f[4] + seq![','] + f[5] + seq![','] + f[6] + seq![','] + f[7] + seq![','] + f[8]
        + seq![','] + f[9] + seq!['\n']);
}

impl Record {
    /// The values of the record's columns.
    pub open spec fn values(self) -> Seq<Seq<char>> {
        seq![
            decimal(self.current_block_height),
            self.target_block_hash,
            self.contract_id,
            self.sender,
            self.caller,
            decimal(self.call_stack_depth),
            self.call_stack_top,
            self.epoch,
            flag_text(self.success),
            self.error_msg,
        ]
    }

    /// The fields that are written for the columns: contract, sender, caller,
    /// call stack top and error message, which might contain commas or quotes,
    /// stand in quotes and are escaped.
    pub open spec fn fields(self) -> Seq<Seq<char>> {
        seq![
            decimal(self.current_block_height),
            self.target_block_hash,
            quoted(self.contract_id),
            quoted(self.sender),
            quoted(self.caller),
            decimal(self.call_stack_depth),
            quoted(self.call_stack_top),
            self.epoch,
            flag_text(self.success),
            quoted(self.error_msg),
        ]
    }

    /// The line that is written for the record.
    pub open spec fn row(self) -> Seq<char> {
        line(self.fields())
    }
}

/// The names of the columns.
pub open spec fn columns() -> Seq<Seq<char>> {
    seq![
        "current_block_height"@,
        "target_block_hash"@,
        "contract_id"@,
        "sender"@,
        "caller"@,
        "call_stack_depth"@,
        "call_stack_top"@,
        "epoch"@,
        "success"@,
        "error_msg"@,
    ]
}

/// The line that names the columns.
pub open spec fn header() -> Seq<char> {
    line(columns())
}

/// What escaping does to each character: a double quote becomes two, any other
/// character stays as it is, and a text is escaped piece by piece.
pub proof fn law_escaped_characters(c: char, a: Seq<char>, b: Seq<char>)
    ensures
        escaped(Seq::empty()) == Seq::<char>::empty(),
        c == '"' ==> escaped(seq![c]) == seq!['"', '"'],
        c != '"' ==> escaped(seq![c]) == seq![c],
        escaped(a + b) == escaped(a) + escaped(b),
{
    reveal_with_fuel(escaped, 2);
    assert(seq![c].drop_first() =~= Seq::<char>::empty());
    assert(escaped(seq![c]) =~= if c == '"' {
        seq!['"', '"']
    } else {
        seq![c]
    });
    lemma_escaped_concat(a, b);
}

/// The row of a record, spelled out: the ten columns in their order, with commas
/// between them and a newline at the end. Contract, sender, caller, call stack
/// top and error message stand in quotes.
pub proof fn law_row_spelled_out(r: Record)
    ensures
        r.row() == decimal(r.current_block_height) + seq![','] + r.target_block_hash + seq![','] + (
        seq!['"'] + escaped(r.contract_id) + seq!['"']) + seq![','] + (seq!['"'] + escaped(r.sender)
            + seq!['"']) + seq![','] + (seq!['"'] + escaped(r.caller) + seq!['"']) + seq![',']
            + decimal(r.call_stack_depth) + seq![','] + (seq!['"'] + escaped(r.call_stack_top)
            + seq!['"']) + seq![','] + r.epoch + seq![','] + (if r.success {
            "true"@
        } else {
            "false"@
        }) + seq![','] + (seq!['"'] + escaped(r.error_msg) + seq!['"']) + seq!['\n'],
{
    lemma_line_of_ten(r.fields());
}

/// The header, spelled out.
pub proof fn law_header_spelled_out()
    ensures
        header()
            == "current_block_height,target_block_hash,contract_id,sender,caller,call_stack_depth,call_stack_top,epoch,success,error_msg\n"@,
{
    lemma_line_of_ten(columns());
    reveal_strlit("current_block_height");
    reveal_strlit("target_block_hash");
    reveal_strlit("contract_id");
    reveal_strlit("sender");
    reveal_strlit("caller");
    reveal_strlit("call_stack_depth");
    reveal_strlit("call_stack_top");
    reveal_strlit("epoch");
    reveal_strlit("success");
    reveal_strlit("error_msg");
    reveal_strlit(
        "current_block_height,target_block_hash,contract_id,sender,caller,call_stack_depth,call_stack_top,epoch,success,error_msg\n",
    );
    assert(header()
        =~= "current_block_height,target_block_hash,contract_id,sender,caller,call_stack_depth,call_stack_top,epoch,success,error_msg\n"@);
}

/// The rows of `records`, one after the other.
pub open spec fn rows(records: Seq<Record>) -> Seq<char>
    decreases records.len(),
{
    if records.len() == 0 {
        Seq::empty()
    } else {
        rows(records.drop_last()) + records.last().row()
    }
}

/// Reads a field that is not in quotes: all up to a comma, a newline or the end.
/// Gives the value and the text that is left.
pub open spec fn read_plain(s: Seq<char>) -> (Seq<char>, Seq<char>)
    decreases s.len(),
{
    if s.len() == 0 || s[0] == ',' || s[0] == '\n' {
        (Seq::empty(), s)
    } else {
        let (value, left) = read_plain(s.drop_first());
        (seq![s[0]] + value, left)
    }
}

/// Reads the rest of a field in quotes, behind the opening quote: all up to the
/// closing quote, where two quotes in a row stand for one. Gives the value and
/// the text that is left, if there is a closing quote.
pub open spec fn read_quoted(s: Seq<char>) -> Option<(Seq<char>, Seq<char>)>
    decreases s.len(),
{
    if s.len() == 0 {
        None
    } else if s[0] != '"' {
        match read_quoted(s.drop_first()) {
            Some((value, left)) => Some((seq![s[0]] + value, left)),
            None => None,
        }
    } else if s.len() >= 2 && s[1] == '"' {
        match read_quoted(s.skip(2)) {
            Some((value, left)) => Some((seq!['"'] + value, left)),
            None => None,
        }
    } else {
        Some((Seq::empty(), s.drop_first()))
    }
}

/// Reads a field, in quotes or not.
pub open spec fn read_field(s: Seq<char>) -> Option<(Seq<char>, Seq<char>)> {
    if s.len() > 0 && s[0] == '"' {
        read_quoted(s.drop_first())
    } else {
        Some(read_plain(s))
    }
}

/// Reads a line. Gives the values of its fields and the text that is left, if
/// the fields are separated by commas and the line ends in a newline.
pub open spec fn read_line(s: Seq<char>) -> Option<(Seq<Seq<char>>, Seq<char>)>
    decreases s.len(),
{
    proof {
        lemma_field_shrinks(s);
    }
    match read_field(s) {
        Some((value, left)) if left.len() > 0 && left[0] == '\n' => Some(
            (seq![value], left.drop_first()),
        ),
        Some((value, left)) if left.len() > 0 && left[0] == ',' => match read_line(
            left.drop_first(),
        ) {
            Some((values, rest)) => Some((seq![value] + values, rest)),
            None => None,
        },
        _ => None,
    }
}

/// Reads all lines of a text.
pub open spec fn read_lines(s: Seq<char>) -> Option<Seq<Seq<Seq<char>>>>
    decreases s.len(),
{
    proof {
        lemma_line_shrinks(s);
    }
    if s.len() == 0 {
        Some(Seq::empty())
    } else {
        match read_line(s) {
            Some((values, left)) => match read_lines(left) {
                Some(more) => Some(seq![values] + more),
                None => None,
            },
            None => None,
        }
    }
}

proof fn lemma_plain_shrinks(s: Seq<char>)
    ensures
        read_plain(s).1.len() <= s.len(),
    decreases s.len(),
{
    if s.len() > 0 {
        lemma_plain_shrinks(s.drop_first());
    }
}

proof fn lemma_quoted_shrinks(s: Seq<char>)
    ensures
        read_quoted(s) matches Some((_, left)) ==> left.len() <= s.len(),
    decreases s.len(),
{
    if s.len() > 0 {
        lemma_quoted_shrinks(s.drop_first());
    }
    if s.len() > 1 {
        lemma_quoted_shrinks(s.skip(2));
    }
}

pub proof fn lemma_field_shrinks(s: Seq<char>)
    ensures
        read_field(s) matches Some((_, left)) ==> left.len() <= s.len(),
{
    lemma_plain_shrinks(s);
    if s.len() > 0 {
        lemma_quoted_shrinks(s.drop_first());
    }
}

pub proof fn lemma_line_shrinks(s: Seq<char>)
    ensures
        read_line(s) matches Some((_, left)) ==> left.len() < s.len(),
    decreases s.len(),
{
    lemma_field_shrinks(s);
    if let Some((_, left)) = read_field(s) {
        if left.len() > 0 && left[0] == ',' {
            lemma_line_shrinks(left.drop_first());
        }
    }
}

/// `s` can stand as a field without quotes.
pub open spec fn plain(s: Seq<char>) -> bool {
    &&& !s.contains(',')
    &&& !s.contains('\n')
    &&& s.len() > 0 ==> s[0] != '"'
}

/// `field` reads as `value` wherever a comma or a newline follows.
pub open spec fn reads_as(field: Seq<char>, value: Seq<char>) -> bool {
    forall|rest: Seq<char>|
        rest.len() > 0 && (rest[0] == ',' || rest[0] == '\n') ==> #[trigger] read_field(
            field + rest,
        ) == Some((value, rest))
}

proof fn lemma_plain_before(s: Seq<char>, rest: Seq<char>)
    requires
        !s.contains(','),
        !s.contains('\n'),
        rest.len() > 0,
        rest[0] == ',' || rest[0] == '\n',
    ensures
        read_plain(s + rest) == (s, rest),
    decreases s.len(),
{
    if s.len() == 0 {
        assert(s + rest =~= rest);
        assert(s =~= Seq::empty());
    } else {
        let tail = s.drop_first();
        assert(s.contains(s[0]));
        assert forall|c: char| tail.contains(c) implies s.contains(c) by {
            let i = choose|i: int| 0 <= i < tail.len() && tail[i] == c;
            assert(s[i + 1] == c);
        }
        lemma_plain_before(tail, rest);
        assert((s + rest).drop_first() =~= tail + rest);
        assert(seq![s[0]] + tail =~= s);
    }
}

proof fn lemma_plain_reads(s: Seq<char>)
    requires
        plain(s),
    ensures
        reads_as(s, s),
{
    assert forall|rest: Seq<char>|
        rest.len() > 0 && (rest[0] == ',' || rest[0] == '\n') implies #[trigger] read_field(
        s + rest,
    ) == Some((s, rest)) by {
        lemma_plain_before(s, rest);
        assert((s + rest)[0] == if s.len() > 0 {
            s[0]
        } else {
            rest[0]
        });
    }
}

proof fn lemma_quoted_before(s: Seq<char>, rest: Seq<char>)
    requires
        rest.len() > 0 ==> rest[0] != '"',
    ensures
        read_quoted(escaped(s) + (seq!['"'] + rest)) == Some((s, rest)),
    decreases s.len(),
{
    let end = seq!['"'] + rest;
    let all = escaped(s) + end;
    if s.len() == 0 {
        assert(s =~= Seq::empty());
        assert(all =~= end);
        assert(all.drop_first() =~= rest);
        if all.len() >= 2 {
            assert(all[1] == rest[0]);
        }
    } else {
        let tail = s.drop_first();
        lemma_quoted_before(tail, rest);
        if s[0] == '"' {
            assert(all[0] == '"' && all[1] == '"');
            assert(all.skip(2) =~= escaped(tail) + end);
        } else {
            assert(all[0] == s[0]);
            assert(all.drop_first() =~= escaped(tail) + end);
        }
        assert(seq![s[0]] + tail =~= s);
    }
}

proof fn lemma_quoted_reads(s: Seq<char>)
    ensures
        reads_as(quoted(s), s),
{
    assert forall|rest: Seq<char>|
        rest.len() > 0 && (rest[0] == ',' || rest[0] == '\n') implies #[trigger] read_field(
        quoted(s) + rest,
    ) == Some((s, rest)) by {
        lemma_quoted_before(s, rest);
        assert((quoted(s) + rest).drop_first() =~= escaped(s) + (seq!['"'] + rest));
    }
}

proof fn lemma_line_reads(fields: Seq<Seq<char>>, values: Seq<Seq<char>>, rest: Seq<char>)
    requires
        fields.len() == values.len(),
        fields.len() > 0,
        forall|i: int| 0 <= i < fields.len() ==> reads_as(#[trigger] fields[i], values[i]),
    ensures
        read_line(line(fields) + rest) == Some((values, rest)),
    decreases fields.len(),
{
    assert(reads_as(fields[0], values[0]));
    if fields.len() == 1 {
        let after = seq!['\n'] + rest;
        assert(line(fields) + rest =~= fields[0] + after);
        assert(read_field(fields[0] + after) == Some((values[0], after)));
        assert(after.drop_first() =~= rest);
        assert(seq![values[0]] =~= values);
    } else {
        let after = seq![','] + (line(fields.drop_first()) + rest);
        assert(line(fields) + rest =~= fields[0] + after);
        assert(read_field(fields[0] + after) == Some((values[0], after)));
        assert(after.drop_first() =~= line(fields.drop_first()) + rest);
        assert forall|i: int| 0 <= i < fields.drop_first().len() implies reads_as(
            #[trigger] fields.drop_first()[i],
            values.drop_first()[i],
        ) by {
            assert(reads_as(fields[i + 1], values[i + 1]));
        }
        lemma_line_reads(fields.drop_first(), values.drop_first(), rest);
        assert(seq![values[0]] + values.drop_first() =~= values);
    }
}

impl Record {
    /// What is written without quotes can stand without them. What is written in
    /// quotes may hold anything.
    pub open spec fn readable(self) -> bool {
        &&& plain(self.target_block_hash)
        &&& plain(self.epoch)
    }
}

proof fn lemma_decimal_plain(n: nat)
    ensures
        plain(decimal(n)),
{
    law_decimal_reads_back(n);
}

proof fn lemma_flag_plain(b: bool)
    ensures
        plain(flag_text(b)),
{
    reveal_strlit("true");
    reveal_strlit("false");
}

/// A record reads back from its row, whatever follows in the log.
pub proof fn law_row_reads_back(record: Record, rest: Seq<char>)
    requires
        record.readable(),
    ensures
        read_line(record.row() + rest) == Some((record.values(), rest)),
{
    let fields = record.fields();
    let values = record.values();
    lemma_decimal_plain(record.current_block_height);
    lemma_plain_reads(decimal(record.current_block_height));
    lemma_plain_reads(record.target_block_hash);
    lemma_quoted_reads(record.contract_id);
    lemma_quoted_reads(record.sender);
    lemma_quoted_reads(record.caller);
    lemma_decimal_plain(record.call_stack_depth);
    lemma_plain_reads(decimal(record.call_stack_depth));
    lemma_quoted_reads(record.call_stack_top);
    lemma_plain_reads(record.epoch);
    lemma_flag_plain(record.success);
    lemma_plain_reads(flag_text(record.success));
    lemma_quoted_reads(record.error_msg);
    assert forall|i: int| 0 <= i < fields.len() implies reads_as(
        #[trigger] fields[i],
        values[i],
    ) by {
        if i == 0 || i == 1 || i == 2 || i == 3 || i == 4 {
        } else {
            assert(i == 5 || i == 6 || i == 7 || i == 8 || i == 9);
        }
    }
    lemma_line_reads(fields, values, rest);
}

proof fn lemma_column_names()
    ensures
        forall|i: int| 0 <= i < columns().len() ==> plain(#[trigger] columns()[i]),
{
    reveal_strlit("current_block_height");
    reveal_strlit("target_block_hash");
    reveal_strlit("contract_id");
    reveal_strlit("sender");
    reveal_strlit("caller");
    reveal_strlit("call_stack_depth");
    reveal_strlit("call_stack_top");
    reveal_strlit("epoch");
    reveal_strlit("success");
    reveal_strlit("error_msg");
}

proof fn lemma_header_reads(rest: Seq<char>)
    ensures
        read_line(header() + rest) == Some((columns(), rest)),
{
    lemma_column_names();
    assert forall|i: int| 0 <= i < columns().len() implies reads_as(
        #[trigger] columns()[i],
        columns()[i],
    ) by {
        lemma_plain_reads(columns()[i]);
    }
    lemma_line_reads(columns(), columns(), rest);
}

proof fn lemma_rows_front(records: Seq<Record>)
    requires
        records.len() > 0,
    ensures
        rows(records) == records[0].row() + rows(records.drop_first()),
    decreases records.len(),
{
    if records.len() == 1 {
        reveal_with_fuel(rows, 2);
        assert(rows(records) =~= records[0].row() + rows(records.drop_first()));
    } else {
        lemma_rows_front(records.drop_last());
        assert(records.drop_last().drop_first() =~= records.drop_first().drop_last());
        assert(rows(records) =~= records[0].row() + rows(records.drop_first()));
    }
}

/// The rows of `a` and then of `b` are the rows of both.
pub proof fn lemma_rows_concat(a: Seq<Record>, b: Seq<Record>)
    ensures
        rows(a + b) == rows(a) + rows(b),
    decreases b.len(),
{
    if b.len() == 0 {
        assert(a + b =~= a);
        assert(rows(a + b) =~= rows(a) + rows(b));
    } else {
        lemma_rows_concat(a, b.drop_last());
        assert((a + b).drop_last() =~= a + b.drop_last());
        assert(rows(a + b) =~= rows(a) + rows(b));
    }
}

/// The rows of some records are the rows of each of them, joined in order.
pub proof fn law_rows_joined(records: Seq<Record>)
    ensures
        rows(records) == records.map_values(|r: Record| r.row()).flatten(),
    decreases records.len(),
{
    let row = |r: Record| r.row();
    if records.len() == 0 {
        assert(records.map_values(row) =~= Seq::empty());
    } else {
        let earlier = records.drop_last();
        law_rows_joined(earlier);
        earlier.map_values(row).lemma_flatten_push(records.last().row());
        assert(records.map_values(row) =~= earlier.map_values(row).push(records.last().row()));
    }
}

proof fn lemma_rows_read(records: Seq<Record>)
    requires
        forall|i: int| 0 <= i < records.len() ==> (#[trigger] records[i]).readable(),
    ensures
        read_lines(rows(records)) == Some(records.map_values(|r: Record| r.values())),
    decreases records.len(),
{
    let all = records.map_values(|r: Record| r.values());
    if records.len() == 0 {
        assert(all =~= Seq::empty());
    } else {
        let tail = records.drop_first();
        assert(records[0].readable());
        assert forall|i: int| 0 <= i < tail.len() implies (#[trigger] tail[i]).readable() by {
            assert(records[i + 1].readable());
        }
        lemma_rows_front(records);
        lemma_rows_read(tail);
        law_row_reads_back(records[0], rows(tail));
        lemma_line_shrinks(rows(records));
        assert(seq![records[0].values()] + tail.map_values(|r: Record| r.values()) =~= all);
    }
}

/// A log, header and rows, reads back as the names of the columns and the values
/// of each record, in order.
pub proof fn law_log_reads_back(records: Seq<Record>)
    requires
        forall|i: int| 0 <= i < records.len() ==> (#[trigger] records[i]).readable(),
    ensures
        read_lines(header() + rows(records)) == Some(
            seq![columns()] + records.map_values(|r: Record| r.values()),
        ),
{
    lemma_header_reads(rows(records));
    lemma_rows_read(records);
    lemma_line_shrinks(header() + rows(records));
}

} // verus!
