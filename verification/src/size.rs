//! Sizes for people to read (`-h`): powers of 1024 with a unit letter,
//! rounded up, as GNU `ls -h` writes them.

use vstd::prelude::*;
use vstd::arithmetic::div_mod::{lemma_div_denominator, lemma_fundamental_div_mod};
use crate::bytes::{decimal, decimal_spec};

verus! {

/// `1024` to the power `e`.
pub open spec fn pow1024(e: nat) -> nat
    decreases e,
{
    if e == 0 {
        1
    } else {
        1024 * pow1024((e - 1) as nat)
    }
}

/// How many times 1024 goes into `v`: the largest `e` with `1024^e <= v`
/// (0 below 1024).
pub open spec fn scale_of(v: nat) -> nat
    decreases v,
{
    if v < 1024 {
        0
    } else {
        1 + scale_of(v / 1024)
    }
}

/// The letter of `1024^e`: `K` for one, then `M`, `G`, `T`, `P`, `E`, `Z`,
/// and `Y` from eight on.
pub open spec fn unit_letter(e: nat) -> u8 {
    if e <= 1 {
        75u8
    } else if e == 2 {
        77u8
    } else if e == 3 {
        71u8
    } else if e == 4 {
        84u8
    } else if e == 5 {
        80u8
    } else if e == 6 {
        69u8
    } else if e == 7 {
        90u8
    } else {
        89u8
    }
}

/// `a / d` rounded up.
pub open spec fn div_up(a: nat, d: nat) -> nat {
    ((a + d - 1) as nat) / d
}

/// The size `v` written for people: below 1024 the number itself; else
/// `v` in the largest unit it reaches, rounded up, with one decimal while
/// that is below ten (`1.5K`), without one from ten on (`15K`), and as
/// `1.0` of the next unit where rounding up reaches 1024.
pub open spec fn human_size_spec(v: nat) -> Seq<u8> {
    if v < 1024 {
        decimal_spec(v)
    } else {
        let e = scale_of(v);
        let d = pow1024(e);
        let tenths = div_up(10 * v, d);
        if tenths < 100 {
            decimal_spec(tenths / 10) + seq![46u8] + decimal_spec(tenths % 10) + seq![
                unit_letter(e),
            ]
        } else {
            let whole = div_up(v, d);
            if whole < 1024 {
                decimal_spec(whole) + seq![unit_letter(e)]
            } else {
                seq![49u8, 46u8, 48u8, unit_letter(e + 1)]
            }
        }
    }
}

fn unit(e: usize) -> (c: u8)
    ensures
        c == unit_letter(e as nat),
{
    if e <= 1 {
        75u8
    } else if e == 2 {
        77u8
    } else if e == 3 {
        71u8
    } else if e == 4 {
        84u8
    } else if e == 5 {
        80u8
    } else if e == 6 {
        69u8
    } else if e == 7 {
        90u8
    } else {
        89u8
    }
}

/// Writes `v` for people, as `human_size_spec` says: `1023`, `1.5K`,
/// `10K`, `1.0M`.
pub fn human_size(v: u128) -> (r: Vec<u8>)
    requires
        v < 0x1_0000_0000_0000_0000_0000u128,
    ensures
        r@ == human_size_spec(v as nat),
{
    if v < 1024 {
        return decimal(v as u64);
    }
    let mut q: u128 = v;
    let mut d: u128 = 1;
    let mut e: usize = 0;
    while q >= 1024
        invariant
            v < 0x1_0000_0000_0000_0000_0000u128,
            0 < d <= v,
            d == pow1024(e as nat),
            q == v / d,
            e < 8,
            scale_of(v as nat) == e + scale_of(q as nat),
        decreases q,
    {
        proof {
            lemma_div_denominator(v as int, d as int, 1024);
            lemma_fundamental_div_mod(v as int, d as int);
            assert(d * 1024 <= v) by (nonlinear_arith)
                requires
                    v == d * (v / d) + v % d,
                    v % d >= 0,
                    v / d >= 1024,
                    d > 0,
            ;
            if e + 1 >= 8 {
                lemma_pow1024_monotone(8, (e + 1) as nat);
                assert(pow1024(8) == 0x1_0000_0000_0000_0000_0000) by {
                    reveal_with_fuel(pow1024, 9);
                }
                assert(pow1024((e + 1) as nat) == d * 1024);
            }
        }
        q = q / 1024;
        d = d * 1024;
        e = e + 1;
    }
    let tenths: u128 = (10 * v + d - 1) / d;
    if tenths < 100 {
        let mut r = decimal((tenths / 10) as u64);
        r.push(46u8);
        let frac = decimal((tenths % 10) as u64);
        let mut i: usize = 0;
        let ghost head = r@;
        while i < frac.len()
            invariant
                i <= frac@.len(),
                r@ == head + frac@.subrange(0, i as int),
            decreases frac.len() - i,
        {
            r.push(frac[i]);
            i = i + 1;
            proof {
                assert(r@ =~= head + frac@.subrange(0, i as int));
            }
        }
        r.push(unit(e));
        proof {
            assert(frac@.subrange(0, i as int) =~= frac@);
            assert(r@ =~= human_size_spec(v as nat));
        }
        r
    } else {
        let whole: u128 = (v + d - 1) / d;
        if whole < 1024 {
            let mut r = decimal(whole as u64);
            r.push(unit(e));
            proof {
                assert(r@ =~= human_size_spec(v as nat));
            }
            r
        } else {
            let mut r: Vec<u8> = Vec::new();
            r.push(49u8);
            r.push(46u8);
            r.push(48u8);
            r.push(unit(e + 1));
            proof {
                assert(r@ =~= human_size_spec(v as nat));
            }
            r
        }
    }
}

proof fn lemma_pow1024_monotone(a: nat, b: nat)
    requires
        a <= b,
    ensures
        pow1024(a) <= pow1024(b),
    decreases b,
{
    if a < b {
        lemma_pow1024_monotone(a, (b - 1) as nat);
    }
}

} // verus!
