//! Decimal text for cell values.
use vstd::prelude::*;
use vstd::string::StringExecFns;

verus! {

/// The character of decimal digit `d`.
pub open spec fn digit_char(d: nat) -> char {
    seq!['0', '1', '2', '3', '4', '5', '6', '7', '8', '9'][d as int]
}

/// `v` written in decimal, without leading zeros.
pub open spec fn decimal(v: nat) -> Seq<char>
    decreases v,
{
    if v < 10 {
        seq![digit_char(v)]
    } else {
        decimal(v / 10) + seq![digit_char(v % 10)]
    }
}

fn digit_str(d: usize) -> (r: &'static str)
    requires
        d < 10,
    ensures
        r@ == seq![digit_char(d as nat)],
{
    proof {
        reveal_strlit("0");
        reveal_strlit("1");
        reveal_strlit("2");
        reveal_strlit("3");
        reveal_strlit("4");
        reveal_strlit("5");
        reveal_strlit("6");
        reveal_strlit("7");
        reveal_strlit("8");
        reveal_strlit("9");
    }
    let r = match d {
        0 => "0",
        1 => "1",
        2 => "2",
        3 => "3",
        4 => "4",
        5 => "5",
        6 => "6",
        7 => "7",
        8 => "8",
        _ => "9",
    };
    assert(r@ =~= seq![digit_char(d as nat)]);
    r
}

/// Appends `v` in decimal to `out`.
pub fn push_decimal(out: &mut String, v: usize)
    ensures
        final(out)@ == old(out)@ + decimal(v as nat),
    decreases v,
{
    if v < 10 {
        out.append(digit_str(v));
    } else {
        push_decimal(out, v / 10);
        out.append(digit_str(v % 10));
        assert(out@ =~= old(out)@ + decimal(v as nat));
    }
}

} // verus!
