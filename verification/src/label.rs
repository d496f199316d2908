//! Y-axis tick-label formatting: the value rendered unchanged as a decimal
//! numeral, or read as a count of seconds and rendered as `H:MM` with the
//! minutes zero-padded to two digits.

use vstd::prelude::*;

verus! {

/// The decimal digit character for `d` (expected in `0 ..= 9`).
pub open spec fn spec_digit_char(d: int) -> char {
    if d == 0 {
        '0'
    } else if d == 1 {
        '1'
    } else if d == 2 {
        '2'
    } else if d == 3 {
        '3'
    } else if d == 4 {
        '4'
    } else if d == 5 {
        '5'
    } else if d == 6 {
        '6'
    } else if d == 7 {
        '7'
    } else if d == 8 {
        '8'
    } else {
        '9'
    }
}

/// The decimal numeral of a non-negative integer, most significant digit
/// first, without leading zeros (a lone zero for `0`).
pub open spec fn spec_decimal(n: int) -> Seq<char>
    decreases n,
{
    if n < 10 {
        seq![spec_digit_char(n)]
    } else {
        spec_decimal(n / 10).push(spec_digit_char(n % 10))
    }
}

/// The `H:MM` rendering of `y` seconds: whole hours, a colon, then minutes
/// zero-padded to two digits; both computed by integer division, not
/// rounding.
pub open spec fn spec_hours_label(y: int) -> Seq<char> {
    spec_decimal(y / 3600) + seq![':'] + (if (y / 60) % 60 < 10 {
        seq!['0']
    } else {
        Seq::<char>::empty()
    }) + spec_decimal((y / 60) % 60)
}

/// The single-character string for decimal digit `d`.
fn digit_str(d: u64) -> (s: &'static str)
    requires
        d < 10,
    ensures
        s@ == seq![spec_digit_char(d as int)],
{
    proof {
        reveal_strlit("0");
        reveal_strlit("1");
        reveal_strlit("2");
        reveal_strlit("3");
        reveal_strlit("4");
        reveal_strlit("5");
        reveal_strlit("6");
        reveal_strlit("7");
        reveal_strlit("8");
        reveal_strlit("9");
    }
    let s = match d {
        0 => "0",
        1 => "1",
        2 => "2",
        3 => "3",
        4 => "4",
        5 => "5",
        6 => "6",
        7 => "7",
        8 => "8",
        _ => "9",
    };
    proof {
        assert(s@ =~= seq![spec_digit_char(d as int)]);
    }
    s
}

/// Renders the numeric value unchanged, as its decimal numeral.
pub fn y_default(y: u64) -> (s: String)
    ensures
        s@ == spec_decimal(y as int),
    decreases y,
{
    if y < 10 {
        String::from_str(digit_str(y))
    } else {
        let mut s = y_default(y / 10);
        s.append(digit_str(y % 10));
        proof {
            assert(s@ =~= spec_decimal(y as int));
        }
        s
    }
}

/// Reads the value as a count of seconds and renders it as `H:MM`: whole
/// hours, a colon, and the remaining whole minutes zero-padded to two
/// digits — integer-truncated, never rounded.
pub fn y_hours(y: u64) -> (s: String)
    ensures
        s@ == spec_hours_label(y as int),
{
    let hours = y / 3600;
    let mins = (y / 60) % 60;
    let mut s = y_default(hours);
    proof {
        reveal_strlit(":");
        reveal_strlit("0");
    }
    s.append(":");
    if mins < 10 {
        s.append("0");
    }
    let m = y_default(mins);
    s.append(m.as_str());
    proof {
        assert(s@ =~= spec_hours_label(y as int));
    }
    s
}

} // verus!
