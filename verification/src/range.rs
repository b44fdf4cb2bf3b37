//! The values of `Range` headers.
use vstd::prelude::*;
use vstd::string::StringExecFns;

use crate::decimal::{
    decimal, decimal_text, decimal_value, is_decimal, is_digit, law_decimal_reads_back,
};

verus! {

/// The `Range` header value that asks for the bytes from `from` on.
pub open spec fn from_range(from: nat) -> Seq<char> {
    "bytes="@ + decimal(from) + "-"@
}

/// The `Range` header value that asks for the bytes from `from` to `to`, both of them included.
pub open spec fn inclusive_range(from: nat, to: nat) -> Seq<char> {
    from_range(from) + decimal(to)
}

/// The `Range` header value that asks for the bytes from `from` on.
pub fn from_range_header(from: u64) -> (header: String)
    ensures
        header@ == from_range(from as nat),
{
    let mut header = "bytes=".to_owned();
    header.append(decimal_text(from).as_str());
    header.append("-");
    header
}

/// The `Range` header value that asks for the bytes from `from` to `to`, both of them included.
pub fn inclusive_range_header(from: u64, to: u64) -> (header: String)
    ensures
        header@ == inclusive_range(from as nat, to as nat),
{
    let mut header = from_range_header(from);
    header.append(decimal_text(to).as_str());
    header
}

/// Whether a text is digits between `bytes=` and a hyphen, with more text behind it.
pub open spec fn is_range(text: Seq<char>, digits: Seq<char>, behind: Seq<char>) -> bool {
    &&& is_decimal(digits)
    &&& text == "bytes="@ + digits + "-"@ + behind
}

/// Whether the value of a `Range` header asks for the bytes from `from` on: the digits in it are
/// those of this number.
pub open spec fn asks_from(text: Seq<char>, from: nat) -> bool {
    exists|digits: Seq<char>| #[trigger]
        is_range(text, digits, seq![]) && decimal_value(digits) == from
}

/// Whether the value of a `Range` header asks for the bytes from `from` to `to`: the digits in it
/// are those of these two numbers.
pub open spec fn asks_for(text: Seq<char>, from: nat, to: nat) -> bool {
    exists|first: Seq<char>, last: Seq<char>| #[trigger]
        is_range(text, first, last) && is_decimal(last) && decimal_value(first) == from
            && decimal_value(last) == to
}

/// The values of `Range` headers ask for the bytes that they are made for.
pub proof fn law_range_asks(from: nat, to: nat)
    ensures
        asks_from(from_range(from), from),
        asks_for(inclusive_range(from, to), from, to),
{
    law_decimal_reads_back(from);
    law_decimal_reads_back(to);
    assert(from_range(from) =~= "bytes="@ + decimal(from) + "-"@ + Seq::<char>::empty());
    assert(is_range(from_range(from), decimal(from), seq![]));
    assert(is_range(inclusive_range(from, to), decimal(from), decimal(to)));
}

/// A text is digits between `bytes=` and a hyphen in no more than one way.
proof fn lemma_one_range(
    text: Seq<char>,
    digits: Seq<char>,
    behind: Seq<char>,
    other_digits: Seq<char>,
    other_behind: Seq<char>,
)
    requires
        is_range(text, digits, behind),
        is_range(text, other_digits, other_behind),
    ensures
        digits == other_digits,
        behind == other_behind,
{
    reveal_strlit("bytes=");
    reveal_strlit("-");
    assert forall|i: int| 0 <= i < digits.len() implies #[trigger] digits[i] == text[i + 6] by {}
    assert forall|i: int| 0 <= i < other_digits.len() implies #[trigger] other_digits[i] == text[i
        + 6] by {}
    assert(text[digits.len() + 6int] == '-');
    assert(text[other_digits.len() + 6int] == '-');
    if digits.len() < other_digits.len() {
        assert(is_digit(other_digits[digits.len() as int]));
    }
    if other_digits.len() < digits.len() {
        assert(is_digit(digits[other_digits.len() as int]));
    }
    assert(digits =~= other_digits);
    assert(behind =~= text.skip(digits.len() + 7int));
    assert(other_behind =~= text.skip(digits.len() + 7int));
}

/// The value of a `Range` header asks for no more than one range: two different ranges are never
/// asked for with the same text.
pub proof fn law_one_range_asked(
    text: Seq<char>,
    from: nat,
    to: nat,
    other_from: nat,
    other_to: nat,
)
    ensures
        asks_from(text, from) && asks_from(text, other_from) ==> from == other_from,
        asks_for(text, from, to) && asks_for(text, other_from, other_to) ==> from == other_from
            && to == other_to,
        !(asks_for(text, from, to) && asks_from(text, other_from)),
{
    if asks_from(text, other_from) {
        let b = choose|digits: Seq<char>| #[trigger]
            is_range(text, digits, seq![]) && decimal_value(digits) == other_from;
        if asks_from(text, from) {
            let a = choose|digits: Seq<char>| #[trigger]
                is_range(text, digits, seq![]) && decimal_value(digits) == from;
            lemma_one_range(text, a, seq![], b, seq![]);
        }
        if asks_for(text, from, to) {
            let (a, last) = choose|first: Seq<char>, last: Seq<char>| #[trigger]
                is_range(text, first, last) && is_decimal(last) && decimal_value(first) == from
                    && decimal_value(last) == to;
            lemma_one_range(text, a, last, b, seq![]);
        }
    }
    if asks_for(text, from, to) && asks_for(text, other_from, other_to) {
        let (a, c) = choose|first: Seq<char>, last: Seq<char>| #[trigger]
            is_range(text, first, last) && is_decimal(last) && decimal_value(first) == from
                && decimal_value(last) == to;
        let (b, d) = choose|first: Seq<char>, last: Seq<char>| #[trigger]
            is_range(text, first, last) && is_decimal(last) && decimal_value(first) == other_from
                && decimal_value(last) == other_to;
        lemma_one_range(text, a, c, b, d);
    }
}

} // verus!
