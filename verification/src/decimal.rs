//! Decimal rendering of unsigned integers, used when composition
//! tables are serialized to JSON or TSV.

use vstd::prelude::*;

verus! {

use vstd::string::StringExecFns;

/// The character for one decimal digit value.
pub open spec fn dec_digit(d: int) -> char {
    if d == 0 {
        '0'
    } else if d == 1 {
        '1'
    } else if d == 2 {
        '2'
    } else if d == 3 {
        '3'
    } else if d == 4 {
        '4'
    } else if d == 5 {
        '5'
    } else if d == 6 {
        '6'
    } else if d == 7 {
        '7'
    } else if d == 8 {
        '8'
    } else {
        '9'
    }
}

/// The usual decimal notation of a nonnegative integer: no sign, no
/// leading zeros (except for zero itself).
pub open spec fn spec_dec(n: int) -> Seq<char>
    recommends
        n >= 0,
    decreases n,
{
    if n < 10 {
        seq![dec_digit(n)]
    } else {
        spec_dec(n / 10).push(dec_digit(n % 10))
    }
}

/// The string holding one digit character.
fn digit_str(d: u8) -> (r: &'static str)
    requires
        d < 10,
    ensures
        r@ =~= seq![dec_digit(d as int)],
{
    if d == 0 {
        proof { reveal_strlit("0"); }
        "0"
    } else if d == 1 {
        proof { reveal_strlit("1"); }
        "1"
    } else if d == 2 {
        proof { reveal_strlit("2"); }
        "2"
    } else if d == 3 {
        proof { reveal_strlit("3"); }
        "3"
    } else if d == 4 {
        proof { reveal_strlit("4"); }
        "4"
    } else if d == 5 {
        proof { reveal_strlit("5"); }
        "5"
    } else if d == 6 {
        proof { reveal_strlit("6"); }
        "6"
    } else if d == 7 {
        proof { reveal_strlit("7"); }
        "7"
    } else if d == 8 {
        proof { reveal_strlit("8"); }
        "8"
    } else {
        proof { reveal_strlit("9"); }
        "9"
    }
}

/// Decimal notation of `n`, split after the leading digits of `m`:
/// while digits of `m` remain to be emitted, the notation of `n` is the
/// notation of `m` followed by what was emitted so far.
proof fn lemma_dec_step(m: int)
    requires
        m >= 10,
    ensures
        spec_dec(m) =~= spec_dec(m / 10) + seq![dec_digit(m % 10)],
{
}

/// Renders `n` in decimal.
pub fn usize_to_string(n: usize) -> (r: String)
    ensures
        r@ == spec_dec(n as int),
{
    let mut r: String = String::from_str(digit_str((n % 10) as u8));
    let mut m: usize = n / 10;
    proof {
        if n >= 10 {
            lemma_dec_step(n as int);
        }
        assert(m > 0 ==> spec_dec(n as int) =~= spec_dec(m as int) + r@);
        assert(m == 0 ==> r@ =~= spec_dec(n as int));
    }
    while m > 0
        invariant
            m > 0 ==> spec_dec(n as int) =~= spec_dec(m as int) + r@,
            m == 0 ==> r@ =~= spec_dec(n as int),
        decreases m,
    {
        let d = String::from_str(digit_str((m % 10) as u8));
        let joined = d.concat(r.as_str());
        r = joined;
        proof {
            if m >= 10 {
                lemma_dec_step(m as int);
            }
        }
        m = m / 10;
    }
    r
}

} // verus!
