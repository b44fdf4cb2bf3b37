//! Numbers as decimal text.
use vstd::arithmetic::power::pow;
use vstd::prelude::*;
use vstd::string::StringExecFns;

verus! {

/// Whether a character is a decimal digit.
pub open spec fn is_digit(c: char) -> bool {
    '0' <= c <= '9'
}

/// Whether text is made of decimal digits, at least one of them.
pub open spec fn is_decimal(text: Seq<char>) -> bool {
    &&& text.len() > 0
    &&& forall|i: int| 0 <= i < text.len() ==> is_digit(#[trigger] text[i])
}

/// The number that a text of decimal digits stands for.
pub open spec fn decimal_value(text: Seq<char>) -> nat
    recommends
        is_decimal(text),
    decreases text.len(),
{
    if text.len() == 0 {
        0
    } else {
        decimal_value(text.drop_last()) * 10 + (text.last() as nat - '0' as nat) as nat
    }
}

/// The text behind a leading plus sign, or the whole text where there is none.
pub open spec fn unsigned_part(text: Seq<char>) -> Seq<char> {
    if text.len() > 0 && text[0] == '+' {
        text.skip(1)
    } else {
        text
    }
}

/// Whether text is an optional plus sign and the decimal digits of a number that a `usize` can
/// hold.
pub open spec fn is_usize(text: Seq<char>) -> bool {
    is_decimal(unsigned_part(text)) && decimal_value(unsigned_part(text)) <= usize::MAX
}

/// The decimal digits that text begins with.
pub open spec fn leading_digits(text: Seq<char>) -> Seq<char>
    decreases text.len(),
{
    if text.len() > 0 && is_digit(text[0]) {
        seq![text[0]] + leading_digits(text.skip(1))
    } else {
        seq![]
    }
}

/// What is wrong with text that is not a number.
pub enum ParseFault {
    /// There is no text.
    Empty,
    /// There is something else than a digit in it, or no digit behind the plus sign.
    InvalidDigit,
    /// The number is too large.
    PosOverflow,
}

/// Whether text that `is_usize` refuses has this fault. Text in which something else than a digit
/// comes behind digits that are too large already has either of two faults.
pub open spec fn has_fault(text: Seq<char>, fault: ParseFault) -> bool {
    let number = unsigned_part(text);
    if text.len() == 0 {
        fault is Empty
    } else if is_decimal(number) {
        fault is PosOverflow
    } else if decimal_value(leading_digits(number)) <= usize::MAX {
        fault is InvalidDigit
    } else {
        fault is InvalidDigit || fault is PosOverflow
    }
}

/// The digit that stands for a number below ten.
pub open spec fn digit(value: nat) -> char {
    ('0' as nat + value) as char
}

/// The decimal digits of a number, without leading zeros.
pub open spec fn decimal(number: nat) -> Seq<char>
    decreases number,
{
    if number < 10 {
        seq![digit(number)]
    } else {
        decimal(number / 10).push(digit(number % 10))
    }
}

/// The digit that stands for a number below ten.
fn digit_text(value: u64) -> (text: &'static str)
    requires
        value < 10,
    ensures
        text@ == seq![digit(value as nat)],
{
    let text = match value {
        0 => "0",
        1 => "1",
        2 => "2",
        3 => "3",
        4 => "4",
        5 => "5",
        6 => "6",
        7 => "7",
        8 => "8",
        _ => "9",
    };
    proof {
        reveal_strlit("0");
        reveal_strlit("1");
        reveal_strlit("2");
        reveal_strlit("3");
        reveal_strlit("4");
        reveal_strlit("5");
        reveal_strlit("6");
        reveal_strlit("7");
        reveal_strlit("8");
        reveal_strlit("9");
        assert(text@ =~= seq![digit(value as nat)]);
    }
    text
}

/// The decimal digits of a number.
pub fn decimal_text(number: u64) -> (text: String)
    ensures
        text@ == decimal(number as nat),
    decreases number,
{
    if number < 10 {
        digit_text(number).to_owned()
    } else {
        let mut text = decimal_text(number / 10);
        text.append(digit_text(number % 10));
        assert(text@ =~= decimal(number as nat));
        text
    }
}

/// The digits of a number stand for that number.
pub proof fn law_decimal_reads_back(number: nat)
    ensures
        is_decimal(decimal(number)),
        decimal_value(decimal(number)) == number,
    decreases number,
{
    let text = decimal(number);
    if number < 10 {
        assert(text.drop_last() =~= seq![]);
        assert(decimal_value(text.drop_last()) == 0);
    } else {
        law_decimal_reads_back(number / 10);
        assert(text.drop_last() =~= decimal(number / 10));
    }
}

/// The digits of a number do not begin with a zero, unless the number is zero.
pub proof fn law_decimal_is_shortest(number: nat)
    ensures
        decimal(number).len() > 0,
        decimal(number)[0] == '0' ==> number == 0 && decimal(number).len() == 1,
    decreases number,
{
    if number >= 10 {
        law_decimal_is_shortest(number / 10);
        assert(decimal(number)[0] == decimal(number / 10)[0]);
    }
}

/// The value of a text is the sum of its digits, each times as many tens as there are digits behind
/// it.
pub proof fn law_decimal_value_in_tens(high: Seq<char>, low: Seq<char>, c: char)
    requires
        is_digit(c),
    ensures
        decimal_value(seq![c]) == c as int - '0' as int,
        decimal_value(high + low) == decimal_value(high) * pow(10, low.len()) + decimal_value(low),
    decreases low.len(),
{
    assert(seq![c].drop_last() =~= seq![]);
    assert(seq![c].last() == c);
    assert(decimal_value(seq![c].drop_last()) == 0);
    reveal(pow);
    if low.len() == 0 {
        assert(high + low =~= high);
        assert(decimal_value(high) * pow(10, 0) == decimal_value(high)) by (nonlinear_arith)
            requires
                pow(10, 0) == 1,
        ;
    } else {
        law_decimal_value_in_tens(high, low.drop_last(), c);
        assert((high + low).drop_last() =~= high + low.drop_last());
        let tens = pow(10, (low.len() - 1) as nat);
        let above = decimal_value(high) as int;
        assert(above * (10 * tens) == 10 * (above * tens)) by (nonlinear_arith);
    }
}

} // verus!
