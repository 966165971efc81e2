//! Fixed-width decimal numerals.
//!
//! Record lengths are written as 20 ASCII digits (enough for any `u64`),
//! so a length field always occupies exactly [`WIDTH`] bytes of the log.

use vstd::arithmetic::div_mod::{
    lemma_basic_div, lemma_div_basics, lemma_div_denominator, lemma_div_pos_is_pos,
    lemma_fundamental_div_mod,
};
use vstd::prelude::*;

verus! {

/// Width in bytes of an encoded length field.
pub const WIDTH: usize = 20;

/// Ten to the `k`.
pub open spec fn pow10(k: nat) -> nat
    decreases k,
{
    if k == 0 {
        1
    } else {
        10 * pow10((k - 1) as nat)
    }
}

/// ASCII digit?
pub open spec fn is_digit(b: u8) -> bool {
    48 <= b && b <= 57
}

/// Is every byte of `s` an ASCII digit?
pub open spec fn all_digits(s: Seq<u8>) -> bool {
    forall|i: int| 0 <= i < s.len() ==> is_digit(#[trigger] s[i])
}

/// The number that the digit string `s` denotes (most significant first).
pub open spec fn digits_val(s: Seq<u8>) -> int
    decreases s.len(),
{
    if s.len() == 0 {
        0
    } else {
        digits_val(s.drop_last()) * 10 + (s.last() - 48)
    }
}

/// `n` written as exactly 20 decimal digits, zero-padded.
pub open spec fn dec20(n: int) -> Seq<u8> {
    Seq::new(20, |i: int| (48 + (n / pow10((19 - i) as nat) as int) % 10) as u8)
}

pub proof fn lemma_pow10_monotone(a: nat, b: nat)
    requires
        a <= b,
    ensures
        pow10(a) <= pow10(b),
    decreases b,
{
    if a < b {
        lemma_pow10_monotone(a, (b - 1) as nat);
    }
}

/// The numeric value of `pow10(20)`, by unfolding.
pub proof fn lemma_pow10_20()
    ensures
        pow10(20) == 0x56bc75e2d63100000,
{
    reveal_with_fuel(pow10, 21);
}

/// Appends the 20-digit numeral of `n` to `out`.
pub fn push_dec20(out: &mut Vec<u8>, n: u64)
    ensures
        final(out)@ == old(out)@ + dec20(n as int),
{
    let ghost base = out@;
    let mut i: usize = 0;
    while i < 20
        invariant
            i <= 20,
            out@ == base + dec20(n as int).take(i as int),
        decreases 20 - i,
    {
        let p = pow10_u64((19 - i) as u32);
        let d = ((n / p) % 10) as u8;
        proof {
            assert(dec20(n as int)[i as int] == (48 + (n as int / pow10(
                (19 - i) as nat,
            ) as int) % 10) as u8);
            assert(dec20(n as int).take(i + 1) =~= dec20(n as int).take(i as int).push(
                dec20(n as int)[i as int],
            ));
        }
        out.push(48 + d);
        i += 1;
    }
    proof {
        assert(dec20(n as int).take(20) =~= dec20(n as int));
    }
}

/// Ten to the `k`, in a machine word.
pub fn pow10_u64(k: u32) -> (r: u64)
    requires
        k <= 19,
    ensures
        r as int == pow10(k as nat),
        r >= 1,
{
    let mut r: u64 = 1;
    let mut j: u32 = 0;
    while j < k
        invariant
            j <= k <= 19,
            r as int == pow10(j as nat),
            r >= 1,
        decreases k - j,
    {
        proof {
            lemma_pow10_monotone(j as nat, 18);
            reveal_with_fuel(pow10, 20);
        }
        r = r * 10;
        j = j + 1;
    }
    r
}

/// Reads the 20-digit length field that starts at `from`; `None` if any
/// byte of the field is not a digit.
pub fn read_dec20(data: &Vec<u8>, from: usize) -> (r: Option<u128>)
    requires
        from + 20 <= data@.len(),
    ensures
        ({
            let field = data@.subrange(from as int, from + 20);
            match r {
                Some(v) => all_digits(field) && v as int == digits_val(field) && (v as int)
                    < pow10(20),
                None => !all_digits(field),
            }
        }),
{
    let ghost field = data@.subrange(from as int, from + 20);
    let n = data.len();
    let mut acc: u128 = 0;
    let mut i: usize = 0;
    while i < 20
        invariant
            i <= 20,
            n == data@.len(),
            from + 20 <= data@.len(),
            field == data@.subrange(from as int, from + 20),
            all_digits(field.take(i as int)),
            acc as int == digits_val(field.take(i as int)),
            (acc as int) < pow10(i as nat),
        decreases 20 - i,
    {
        let b = data[from + i];
        proof {
            assert(field[i as int] == data@[from + i]);
        }
        if b < 48 || b > 57 {
            proof {
                assert(!is_digit(field[i as int]));
            }
            return None;
        }
        proof {
            lemma_pow10_20();
            lemma_pow10_monotone((i + 1) as nat, 20);
            assert(acc as int * 10 + (b - 48) < pow10(i as nat) * 10) by {
                assert(acc as int <= pow10(i as nat) - 1);
                assert(acc as int * 10 <= (pow10(i as nat) - 1) * 10) by (nonlinear_arith)
                    requires
                        acc as int <= pow10(i as nat) - 1,
                ;
            }
            assert(pow10(i as nat) * 10 == pow10((i + 1) as nat));
            let t = field.take(i + 1);
            assert(t.drop_last() =~= field.take(i as int));
            assert(t.last() == field[i as int]);
        }
        acc = acc * 10 + (b - 48) as u128;
        i += 1;
    }
    proof {
        assert(field.take(20) =~= field);
    }
    Some(acc)
}

/// Digit strings denote nonnegative numbers.
pub proof fn lemma_digits_val_nonneg(s: Seq<u8>)
    requires
        all_digits(s),
    ensures
        digits_val(s) >= 0,
    decreases s.len(),
{
    if s.len() > 0 {
        assert(all_digits(s.drop_last()));
        lemma_digits_val_nonneg(s.drop_last());
    }
}

/// The 20-digit numeral of `n` is made of digits and denotes `n`.
pub proof fn lemma_dec20_roundtrip(n: int)
    requires
        0 <= n < pow10(20),
    ensures
        dec20(n).len() == 20,
        all_digits(dec20(n)),
        digits_val(dec20(n)) == n,
{
    assert forall|i: int| 0 <= i < 20 implies is_digit(#[trigger] dec20(n)[i]) by {
        let m = pow10((19 - i) as nat) as int;
        assert(m > 0) by {
            lemma_pow10_monotone(0, (19 - i) as nat);
        }
        assert(0 <= (n / m) % 10 < 10);
    }
    lemma_dec20_val_aux(n, 20);
    assert(dec20(n).take(20) =~= dec20(n));
    assert(pow10(0) == 1);
    lemma_div_basics(n);
}

proof fn lemma_dec20_val_aux(n: int, k: int)
    requires
        0 <= n < pow10(20),
        0 <= k <= 20,
    ensures
        digits_val(dec20(n).take(k)) == n / pow10((20 - k) as nat) as int,
    decreases k,
{
    let s = dec20(n).take(k);
    if k == 0 {
        assert(s.len() == 0);
        lemma_basic_div(n, pow10(20) as int);
    } else {
        lemma_dec20_val_aux(n, k - 1);
        let m = pow10((20 - k) as nat) as int;
        assert(m > 0) by {
            lemma_pow10_monotone(0, (20 - k) as nat);
        }
        assert(pow10((21 - k) as nat) == 10 * pow10((20 - k) as nat));
        assert(s.drop_last() =~= dec20(n).take(k - 1));
        assert(s.last() == dec20(n)[k - 1]);
        assert(dec20(n)[k - 1] == (48 + (n / m) % 10) as u8);
        let q = n / m;
        assert(q >= 0) by {
            lemma_div_pos_is_pos(n, m);
        }
        assert(n / (10 * m) == q / 10) by {
            lemma_div_denominator(n, m, 10);
        }
        lemma_fundamental_div_mod(q, 10);
        assert(digits_val(s) == digits_val(s.drop_last()) * 10 + (s.last() - 48));
        assert(digits_val(s.drop_last()) == n / pow10((21 - k) as nat) as int);
        assert(digits_val(s) == (q / 10) * 10 + q % 10);
    }
}

} // verus!
