//! Plain text rendering of numbers and flags.

use vstd::prelude::*;

verus! {

/// The character of the decimal digit `d`.
pub open spec fn digit_char(d: nat) -> char {
    if d == 0 {
        '0'
    } else if d == 1 {
        '1'
    } else if d == 2 {
        '2'
    } else if d == 3 {
        '3'
    } else if d == 4 {
        '4'
    } else if d == 5 {
        '5'
    } else if d == 6 {
        '6'
    } else if d == 7 {
        '7'
    } else if d == 8 {
        '8'
    } else {
        '9'
    }
}

/// `n` in decimal, most significant digit first and without leading zeros.
pub open spec fn decimal(n: nat) -> Seq<char>
    decreases n,
{
    if n < 10 {
        seq![digit_char(n)]
    } else {
        decimal(n / 10).push(digit_char(n % 10))
    }
}

/// `true` or `false`, as Rust prints a flag.
pub open spec fn flag_text(b: bool) -> Seq<char> {
    if b {
        "true"@
    } else {
        "false"@
    }
}

/// The digit that a character stands for.
pub open spec fn digit_value(c: char) -> nat {
    (c as int - '0' as int) as nat
}

/// The number that a run of decimal digits stands for.
pub open spec fn decimal_value(s: Seq<char>) -> nat
    decreases s.len(),
{
    if s.len() == 0 {
        0
    } else {
        10 * decimal_value(s.drop_last()) + digit_value(s.last())
    }
}

/// A number reads back from its decimal text, so two numbers with the same
/// text are the same number; the text is made of digits only, and the first of
/// several is not a zero.
pub proof fn law_decimal_reads_back(n: nat)
    ensures
        decimal_value(decimal(n)) == n,
        decimal(n).len() >= 1,
        decimal(n)[0] == '0' ==> n == 0,
        forall|i: int| 0 <= i < decimal(n).len() ==> '0' <= #[trigger] decimal(n)[i] <= '9',
    decreases n,
{
    reveal_with_fuel(decimal_value, 2);
    if n < 10 {
        assert(decimal(n).drop_last() =~= Seq::<char>::empty());
    } else {
        law_decimal_reads_back(n / 10);
        assert(decimal(n).drop_last() =~= decimal(n / 10));
    }
}

/// The decimal text of a number, character by character: digits only, which
/// count up to the number from the left, ten times what came before and one
/// digit more each time; a single zero for zero, and no zero in front of any
/// other number. There is one text only of which this holds.
pub proof fn law_decimal_digits(n: nat)
    ensures
        decimal(n).len() >= 1,
        forall|i: int| 0 <= i < decimal(n).len() ==> 48 <= #[trigger] decimal(n)[i] as int <= 57,
        decimal(n).fold_left(0int, |v: int, c: char| 10 * v + (c as int - 48)) == n,
        decimal(n).len() > 1 ==> decimal(n)[0] != '0',
    decreases n,
{
    reveal_with_fuel(Seq::fold_left, 2);
    if n < 10 {
        assert(decimal(n).drop_last() =~= Seq::<char>::empty());
    } else {
        law_decimal_digits(n / 10);
        law_decimal_reads_back(n / 10);
        assert(decimal(n).drop_last() =~= decimal(n / 10));
    }
}

/// A text of decimal digits that count up to `n`, without a zero in front of
/// others, is the decimal text of `n`.
pub proof fn law_digits_determine_decimal(s: Seq<char>, n: nat)
    requires
        s.len() >= 1,
        forall|i: int| 0 <= i < s.len() ==> 48 <= #[trigger] s[i] as int <= 57,
        s.fold_left(0int, |v: int, c: char| 10 * v + (c as int - 48)) == n,
        s.len() > 1 ==> s[0] != '0',
    ensures
        s == decimal(n),
    decreases s.len(),
{
    let count = |v: int, c: char| 10 * v + (c as int - 48);
    let front = s.drop_last();
    reveal_with_fuel(Seq::fold_left, 2);
    assert(48 <= s[s.len() - 1] as int <= 57);
    assert(s =~= front.push(s.last()));
    if s.len() == 1 {
        assert(front =~= Seq::<char>::empty());
        assert(s =~= decimal(n));
    } else {
        assert forall|i: int| 0 <= i < front.len() implies 48 <= #[trigger] front[i] as int
            <= 57 by {
            assert(s[i] == front[i]);
        }
        assert(front[0] == s[0]);
        lemma_digits_positive(front);
        let m = front.fold_left(0int, count);
        law_digits_determine_decimal(front, m as nat);
        assert(n / 10 == m);
        assert(s =~= decimal(n));
    }
}

proof fn lemma_digits_positive(s: Seq<char>)
    requires
        s.len() >= 1,
        forall|i: int| 0 <= i < s.len() ==> 48 <= #[trigger] s[i] as int <= 57,
        s[0] != '0',
    ensures
        s.fold_left(0int, |v: int, c: char| 10 * v + (c as int - 48)) > 0,
    decreases s.len(),
{
    let front = s.drop_last();
    reveal_with_fuel(Seq::fold_left, 2);
    assert(48 <= s[s.len() - 1] as int <= 57);
    if s.len() == 1 {
        assert(front =~= Seq::<char>::empty());
        assert(s[0] as int != 48);
    } else {
        assert forall|i: int| 0 <= i < front.len() implies 48 <= #[trigger] front[i] as int
            <= 57 by {
            assert(s[i] == front[i]);
        }
        assert(front[0] == s[0]);
        lemma_digits_positive(front);
    }
}

/// The two texts of a flag, character by character.
pub proof fn law_flag_characters(b: bool)
    ensures
        b ==> flag_text(b) == seq!['t', 'r', 'u', 'e'],
        !b ==> flag_text(b) == seq!['f', 'a', 'l', 's', 'e'],
{
    reveal_strlit("true");
    reveal_strlit("false");
}

/// Appends the decimal digit `d` to `out`.
fn append_digit(out: &mut String, d: u64)
    requires
        d < 10,
    ensures
        final(out)@ == old(out)@.push(digit_char(d as nat)),
        final(out)@.len() == old(out)@.len() + 1,
        final(out)@.last() as int == 48 + d,
{
    let s: &str = if d == 0 {
        "0"
    } else if d == 1 {
        "1"
    } else if d == 2 {
        "2"
    } else if d == 3 {
        "3"
    } else if d == 4 {
        "4"
    } else if d == 5 {
        "5"
    } else if d == 6 {
        "6"
    } else if d == 7 {
        "7"
    } else if d == 8 {
        "8"
    } else {
        "9"
    };
    proof {
        reveal_strlit("0");
        reveal_strlit("1");
        reveal_strlit("2");
        reveal_strlit("3");
        reveal_strlit("4");
        reveal_strlit("5");
        reveal_strlit("6");
        reveal_strlit("7");
        reveal_strlit("8");
        reveal_strlit("9");
        assert(s@ =~= seq![digit_char(d as nat)]);
    }
    out.append(s);
    assert(out@ =~= old(out)@.push(digit_char(d as nat)));
}

/// Appends `n` in decimal to `out`.
pub fn append_decimal(out: &mut String, n: u64)
    ensures
        final(out)@ == old(out)@ + decimal(n as nat),
    decreases n,
{
    if n >= 10 {
        append_decimal(out, n / 10);
    }
    append_digit(out, n % 10);
    assert(out@ =~= old(out)@ + decimal(n as nat));
}

/// Appends `true` or `false` to `out`.
pub fn append_flag(out: &mut String, b: bool)
    ensures
        final(out)@ == old(out)@ + flag_text(b),
        b ==> final(out)@ == old(out)@ + "true"@,
        !b ==> final(out)@ == old(out)@ + "false"@,
{
    if b {
        out.append("true");
    } else {
        out.append("false");
    }
}

} // verus!
