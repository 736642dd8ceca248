//! Building the report text: decimal numbers and the positional lists in
//! which matched elements are shown as `_`.

use vstd::prelude::*;
use vstd::string::StringExecFns;
use crate::model::{bracketed, decimal, digit, joined, shown};

verus! {

/// The text of the decimal digit `d`.
fn digit_text(d: u32) -> (r: &'static str)
    requires
        d < 10,
    ensures
        r@ == digit(d as nat),
{
    if d == 0 {
        "0"
    } else if d == 1 {
        "1"
    } else if d == 2 {
        "2"
    } else if d == 3 {
        "3"
    } else if d == 4 {
        "4"
    } else if d == 5 {
        "5"
    } else if d == 6 {
        "6"
    } else if d == 7 {
        "7"
    } else if d == 8 {
        "8"
    } else {
        "9"
    }
}

/// Appends the decimal text of `n` to `buf`.
pub fn write_decimal(buf: &mut String, n: u32)
    ensures
        final(buf)@ == old(buf)@ + decimal(n as nat),
    decreases n,
{
    if n >= 10 {
        write_decimal(buf, n / 10);
    }
    buf.append(digit_text(n % 10));
    proof {
        if n >= 10 {
            assert(decimal(n as nat) == decimal((n / 10) as nat) + digit((n % 10) as nat));
        }
    }
}

/// Appends `values` to `buf` as a bracketed, comma-separated list followed by
/// a newline, where each position whose flag in `bad` is set shows its value
/// and every other position shows `_`.
pub fn write_bad_values(buf: &mut String, values: &Vec<u32>, bad: &Vec<bool>)
    requires
        bad.len() == values.len(),
    ensures
        final(buf)@ == old(buf)@ + bracketed(values@, bad@),
{
    buf.append("[");
    let ghost start = buf@;
    let mut i: usize = 0;
    while i < values.len()
        invariant
            i <= values.len(),
            bad.len() == values.len(),
            start == old(buf)@ + "["@,
            buf@ == start + joined(values@, bad@, i as nat),
        decreases values.len() - i,
    {
        let ghost before = buf@;
        if i > 0 {
            buf.append(", ");
        }
        let ghost mid = buf@;
        if bad[i] {
            write_decimal(buf, values[i]);
        } else {
            buf.append("_");
        }
        proof {
            assert(buf@ == mid + shown(values@, bad@, i as int));
            if i > 0 {
                assert(joined(values@, bad@, (i + 1) as nat) == joined(values@, bad@, i as nat)
                    + ", "@ + shown(values@, bad@, i as int));
                assert(buf@ =~= start + joined(values@, bad@, (i + 1) as nat));
            } else {
                assert(buf@ =~= start + joined(values@, bad@, (i + 1) as nat));
            }
        }
        i = i + 1;
    }
    buf.append("]\n");
    assert(buf@ =~= old(buf)@ + bracketed(values@, bad@));
}

} // verus!
