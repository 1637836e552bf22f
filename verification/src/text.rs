//! Human-readable descriptions of byte counts.

use vstd::prelude::*;

verus! {

/// The decimal digit `d` (below ten) as a character.
pub open spec fn spec_digit(d: nat) -> char {
    if d == 0 {
        '0'
    } else if d == 1 {
        '1'
    } else if d == 2 {
        '2'
    } else if d == 3 {
        '3'
    } else if d == 4 {
        '4'
    } else if d == 5 {
        '5'
    } else if d == 6 {
        '6'
    } else if d == 7 {
        '7'
    } else if d == 8 {
        '8'
    } else {
        '9'
    }
}

/// The decimal representation of `n`, without leading zeros.
pub open spec fn spec_decimal(n: nat) -> Seq<char>
    decreases n,
{
    if n < 10 {
        seq![spec_digit(n)]
    } else {
        spec_decimal(n / 10).push(spec_digit(n % 10))
    }
}

/// The text of the per-category byte counts.
pub open spec fn spec_contents_text(
    strings: nat,
    tags: nat,
    numbers: nat,
    bools: nat,
    lists: nat,
) -> Seq<char> {
    "strings (b): "@ + spec_decimal(strings) + ", tags (b): "@ + spec_decimal(tags)
        + ", numbers (b): "@ + spec_decimal(numbers) + ", bools (b): "@ + spec_decimal(bools)
        + ", lists (b): "@ + spec_decimal(lists)
}

/// The text of the whole statistics, `rest` being the per-category text.
pub open spec fn spec_statistics_text(strings: nat, tags: nat, rest: Seq<char>) -> Seq<char> {
    "Header strings (b): "@ + spec_decimal(strings) + ", header tags (b): "@ + spec_decimal(tags)
        + ", "@ + rest
}

/// The decimal digit `d` as a one-character string.
fn digit_text(d: usize) -> (text: &'static str)
    requires
        d < 10,
    ensures
        text@ == seq![spec_digit(d as nat)],
{
    proof {
        reveal_strlit("0");
        reveal_strlit("1");
        reveal_strlit("2");
        reveal_strlit("3");
        reveal_strlit("4");
        reveal_strlit("5");
        reveal_strlit("6");
        reveal_strlit("7");
        reveal_strlit("8");
        reveal_strlit("9");
    }
    if d == 0 {
        "0"
    } else if d == 1 {
        "1"
    } else if d == 2 {
        "2"
    } else if d == 3 {
        "3"
    } else if d == 4 {
        "4"
    } else if d == 5 {
        "5"
    } else if d == 6 {
        "6"
    } else if d == 7 {
        "7"
    } else if d == 8 {
        "8"
    } else {
        "9"
    }
}

/// The decimal representation of `n`.
pub fn decimal_text(n: usize) -> (text: String)
    ensures
        text@ == spec_decimal(n as nat),
    decreases n,
{
    if n < 10 {
        String::from_str(digit_text(n))
    } else {
        let mut text = decimal_text(n / 10);
        text.append(digit_text(n % 10));
        text
    }
}

} // verus!
