//! Decimal rendering of integers, verified against a recursive
//! specification of base-10 notation.

use vstd::prelude::*;

verus! {

/// The character for a single decimal digit.
pub open spec fn digit_char(d: int) -> char {
    if d == 0 {
        '0'
    } else if d == 1 {
        '1'
    } else if d == 2 {
        '2'
    } else if d == 3 {
        '3'
    } else if d == 4 {
        '4'
    } else if d == 5 {
        '5'
    } else if d == 6 {
        '6'
    } else if d == 7 {
        '7'
    } else if d == 8 {
        '8'
    } else {
        '9'
    }
}

/// Standard decimal notation of a natural number: most significant
/// digit first, no leading zeroes (`0` is written as one digit).
pub open spec fn dec_digits(n: nat) -> Seq<char>
    decreases n,
{
    if n < 10 {
        seq![digit_char(n as int)]
    } else {
        dec_digits(n / 10).push(digit_char((n % 10) as int))
    }
}

/// A one-character string for one decimal digit.
pub fn digit_str(d: u8) -> (r: &'static str)
    requires
        d < 10,
    ensures
        r@ == seq![digit_char(d as int)],
{
    if d == 0 {
        let s = "0";
        proof { reveal_strlit("0"); }
        s
    } else if d == 1 {
        let s = "1";
        proof { reveal_strlit("1"); }
        s
    } else if d == 2 {
        let s = "2";
        proof { reveal_strlit("2"); }
        s
    } else if d == 3 {
        let s = "3";
        proof { reveal_strlit("3"); }
        s
    } else if d == 4 {
        let s = "4";
        proof { reveal_strlit("4"); }
        s
    } else if d == 5 {
        let s = "5";
        proof { reveal_strlit("5"); }
        s
    } else if d == 6 {
        let s = "6";
        proof { reveal_strlit("6"); }
        s
    } else if d == 7 {
        let s = "7";
        proof { reveal_strlit("7"); }
        s
    } else if d == 8 {
        let s = "8";
        proof { reveal_strlit("8"); }
        s
    } else {
        let s = "9";
        proof { reveal_strlit("9"); }
        s
    }
}

/// Renders a natural number in decimal.
pub fn u64_to_decimal(n: u64) -> (r: String)
    ensures
        r@ == dec_digits(n as nat),
{
    let mut rev_digits: Vec<u8> = Vec::new();
    let mut m: u64 = n;
    while m >= 10
        invariant
            dec_digits(n as nat) == dec_digits(m as nat) + rev_digits@.reverse().map_values(
                |d: u8| digit_char(d as int),
            ),
            forall|i: int| 0 <= i < rev_digits@.len() ==> rev_digits@[i] < 10,
        decreases m,
    {
        let d: u8 = (m % 10) as u8;
        proof {
            let old_rev = rev_digits@;
            assert(dec_digits(m as nat) == dec_digits((m / 10) as nat).push(
                digit_char((m % 10) as int),
            ));
            assert(old_rev.push(d).reverse() =~= seq![d] + old_rev.reverse());
            assert((seq![d] + old_rev.reverse()).map_values(|x: u8| digit_char(x as int))
                =~= seq![digit_char(d as int)] + old_rev.reverse().map_values(
                |x: u8| digit_char(x as int),
            ));
            assert(dec_digits((m / 10) as nat) + (seq![digit_char(d as int)]
                + old_rev.reverse().map_values(|x: u8| digit_char(x as int)))
                =~= dec_digits((m / 10) as nat).push(digit_char(d as int))
                + old_rev.reverse().map_values(|x: u8| digit_char(x as int)));
        }
        rev_digits.push(d);
        m = m / 10;
    }
    let mut r = String::new();
    r.append(digit_str(m as u8));
    proof {
        assert(r@ =~= dec_digits(m as nat));
    }
    let mut i: usize = rev_digits.len();
    while i > 0
        invariant
            i <= rev_digits@.len(),
            forall|j: int| 0 <= j < rev_digits@.len() ==> rev_digits@[j] < 10,
            r@ == dec_digits(m as nat) + rev_digits@.subrange(i as int, rev_digits@.len() as int)
                .reverse().map_values(|d: u8| digit_char(d as int)),
            dec_digits(n as nat) == dec_digits(m as nat) + rev_digits@.reverse().map_values(
                |d: u8| digit_char(d as int),
            ),
        decreases i,
    {
        i = i - 1;
        let d = rev_digits[i];
        r.append(digit_str(d));
        proof {
            let tail = rev_digits@.subrange(i as int, rev_digits@.len() as int);
            let tail_prev = rev_digits@.subrange(i as int + 1, rev_digits@.len() as int);
            assert(tail.reverse() =~= tail_prev.reverse().push(rev_digits@[i as int]));
            assert(tail.reverse().map_values(|x: u8| digit_char(x as int))
                =~= tail_prev.reverse().map_values(|x: u8| digit_char(x as int)).push(
                digit_char(d as int),
            ));
        }
    }
    proof {
        assert(rev_digits@.subrange(0, rev_digits@.len() as int) =~= rev_digits@);
    }
    r
}

} // verus!
