//! TF-IDF style weights in fixed point: values carry six decimal places
//! (micro units), and the natural logarithm is approximated by halving down
//! to `[1, 2)` and summing an arctanh series there.

use vstd::prelude::*;

verus! {

/// The largest argument the logarithm accepts: `u64::MAX + 1` whole units.
pub const LN_ARG_MAX: u128 = 18_446_744_073_709_551_615_000_000 + 1_000_000;

/// The arctanh series for `ln y` on `y` below two units:
/// `ln y = 2 (z + z^3/3 + z^5/5 + z^7/7 + ...)` with `z = (y-1)/(y+1)`.
pub open spec fn ln_series(y: nat) -> nat {
    let num: nat = if y < 1_000_000 {
        0
    } else {
        (y - 1_000_000) as nat
    };
    let z = (num * 1_000_000) / (y + 1_000_000);
    let z2 = (z * z) / 1_000_000;
    let t3 = (z * z2) / 1_000_000;
    let t5 = (t3 * z2) / 1_000_000;
    let t7 = (t5 * z2) / 1_000_000;
    2 * (z + t3 / 3 + t5 / 5 + t7 / 7)
}

/// `ln` of a micro-unit argument, in micro units: halve down to `[1, 2)`
/// adding `ln 2` each time, then take the series.
pub open spec fn ln_fixed_spec(y: nat) -> nat
    decreases y,
{
    if y < 2_000_000 {
        ln_series(y)
    } else {
        693_147 + ln_fixed_spec(y / 2)
    }
}

proof fn lemma_ln_series_bound(y: nat)
    requires
        y < 2_000_000,
    ensures
        ln_series(y) <= 4_000_000,
{
    let num: nat = if y < 1_000_000 {
        0
    } else {
        (y - 1_000_000) as nat
    };
    let z = (num * 1_000_000) / (y + 1_000_000);
    assert(num * 1_000_000 <= 1_000_000_000_000) by (nonlinear_arith)
        requires
            num < 1_000_000,
    ;
    assert(z <= 1_000_000) by (nonlinear_arith)
        requires
            z == (num * 1_000_000) / (y + 1_000_000),
            num * 1_000_000 <= 1_000_000_000_000,
            y + 1_000_000 >= 1_000_000,
    ;
    let z2 = (z * z) / 1_000_000;
    assert(z2 <= 1_000_000) by (nonlinear_arith)
        requires
            z2 == (z * z) / 1_000_000,
            z <= 1_000_000,
    ;
    let t3 = (z * z2) / 1_000_000;
    assert(t3 <= 1_000_000) by (nonlinear_arith)
        requires
            t3 == (z * z2) / 1_000_000,
            z <= 1_000_000,
            z2 <= 1_000_000,
    ;
    let t5 = (t3 * z2) / 1_000_000;
    assert(t5 <= 1_000_000) by (nonlinear_arith)
        requires
            t5 == (t3 * z2) / 1_000_000,
            t3 <= 1_000_000,
            z2 <= 1_000_000,
    ;
    let t7 = (t5 * z2) / 1_000_000;
    assert(t7 <= 1_000_000) by (nonlinear_arith)
        requires
            t7 == (t5 * z2) / 1_000_000,
            t5 <= 1_000_000,
            z2 <= 1_000_000,
    ;
}

/// Each halving contributes one `ln 2`; below `2^k` units the whole value
/// stays under `k ln 2` plus the series bound.
proof fn lemma_ln_bound(y: nat, k: nat)
    requires
        y < 2_000_000 * vstd::arithmetic::power2::pow2(k),
    ensures
        ln_fixed_spec(y) <= 693_147 * k + 4_000_000,
    decreases k,
{
    if y < 2_000_000 {
        lemma_ln_series_bound(y);
        assert(693_147 * k >= 0) by (nonlinear_arith);
    } else {
        assert(k > 0) by {
            if k == 0 {
                vstd::arithmetic::power2::lemma2_to64();
            }
        }
        vstd::arithmetic::power2::lemma_pow2_unfold(k);
        assert(y / 2 < 2_000_000 * vstd::arithmetic::power2::pow2((k - 1) as nat)) by (
        nonlinear_arith)
            requires
                y < 2_000_000 * vstd::arithmetic::power2::pow2(k),
                vstd::arithmetic::power2::pow2(k) == 2 * vstd::arithmetic::power2::pow2(
                    (k - 1) as nat,
                ),
        ;
        lemma_ln_bound(y / 2, (k - 1) as nat);
        assert(693_147 * k == 693_147 + 693_147 * (k - 1)) by (nonlinear_arith)
            requires
                k > 0,
        ;
    }
}

proof fn lemma_two_pow_84()
    ensures
        vstd::arithmetic::power2::pow2(84) == 0x1000000000000000000000,
{
    vstd::arithmetic::power2::lemma2_to64();
    vstd::arithmetic::power2::lemma_pow2_adds(64, 20);
    assert(0x10000000000000000 * 0x100000 == 0x1000000000000000000000);
}

/// The logarithm never exceeds this for arguments up to `LN_ARG_MAX`.
pub proof fn lemma_ln_max(y: nat)
    requires
        y <= LN_ARG_MAX,
    ensures
        ln_fixed_spec(y) <= 62_224_348,
{
    lemma_two_pow_84();
    lemma_ln_bound(y, 84);
}

/// Fixed-point natural logarithm.
#[verifier::loop_isolation(false)]
pub fn ln_fixed(y: u128) -> (r: u128)
    requires
        y <= LN_ARG_MAX,
    ensures
        r == ln_fixed_spec(y as nat),
        r <= 62_224_348,
{
    proof {
        lemma_ln_max(y as nat);
    }
    let mut v = y;
    let mut acc: u128 = 0;
    while v >= 2_000_000
        invariant
            v <= y,
            acc + ln_fixed_spec(v as nat) == ln_fixed_spec(y as nat),
        decreases v,
    {
        acc = acc + 693_147;
        v = v / 2;
    }
    let num = if v >= 1_000_000 {
        v - 1_000_000
    } else {
        0
    };
    let z = (num * 1_000_000) / (v + 1_000_000);
    proof {
        assert(num < 1_000_000);
        assert(num * 1_000_000 < 1_000_000 * (v + 1_000_000)) by (nonlinear_arith)
            requires
                num < 1_000_000,
        ;
        assert(z <= 1_000_000) by (nonlinear_arith)
            requires
                z == (num * 1_000_000) / (v + 1_000_000),
                num * 1_000_000 < 1_000_000 * (v + 1_000_000),
        ;
        assert(z * z <= 1_000_000 * 1_000_000) by (nonlinear_arith)
            requires
                z <= 1_000_000,
        ;
    }
    let z2 = (z * z) / 1_000_000;
    proof {
        assert(z2 <= 1_000_000);
        assert(z * z2 <= 1_000_000 * 1_000_000) by (nonlinear_arith)
            requires
                z <= 1_000_000,
                z2 <= 1_000_000,
        ;
    }
    let t3 = (z * z2) / 1_000_000;
    proof {
        assert(t3 <= 1_000_000);
        assert(t3 * z2 <= 1_000_000 * 1_000_000) by (nonlinear_arith)
            requires
                t3 <= 1_000_000,
                z2 <= 1_000_000,
        ;
    }
    let t5 = (t3 * z2) / 1_000_000;
    proof {
        assert(t5 <= 1_000_000);
        assert(t5 * z2 <= 1_000_000 * 1_000_000) by (nonlinear_arith)
            requires
                t5 <= 1_000_000,
                z2 <= 1_000_000,
        ;
    }
    let t7 = (t5 * z2) / 1_000_000;
    let s = 2 * (z + t3 / 3 + t5 / 5 + t7 / 7);
    proof {
        assert(s == ln_series(v as nat));
    }
    acc + s
}

/// The argument of the idf logarithm: `1 + n/(df+1)` in micro units, the
/// document count smoothed by the document frequency.
pub open spec fn idf_arg(n: nat, df: nat) -> nat {
    1_000_000 + (n * 1_000_000) / (df + 1)
}

/// Smoothed inverse document frequency, micro units.
pub open spec fn idf_micro(n: nat, df: nat) -> nat {
    ln_fixed_spec(idf_arg(n, df))
}

/// Log-normalized term-frequency weight `1 + ln tf`, micro units.
pub open spec fn tf_weight_micro(tf: u32) -> nat {
    1_000_000 + ln_fixed_spec(tf as nat * 1_000_000)
}

/// One posting's score contribution: `tf_weight * idf`, micro units.
pub open spec fn contribution_micro(tf: u32, n: nat, df: nat) -> u128 {
    ((tf_weight_micro(tf) * idf_micro(n, df)) / 1_000_000) as u128
}

/// Saturating addition on micro-unit scores.
pub open spec fn sat_add128(a: u128, b: u128) -> u128 {
    if a + b > u128::MAX {
        u128::MAX
    } else {
        (a + b) as u128
    }
}

/// One posting's contribution, computed in fixed point.
pub fn contribution(tf: u32, n_docs: usize, df: usize) -> (r: u128)
    ensures
        r == contribution_micro(tf, n_docs as nat, df as nat),
{
    let tfa = (tf as u128) * 1_000_000;
    proof {
        assert(tfa <= LN_ARG_MAX);
    }
    let tfw = 1_000_000 + ln_fixed(tfa);
    let ya = 1_000_000 + ((n_docs as u128) * 1_000_000) / ((df as u128) + 1);
    proof {
        assert((n_docs as u128 as nat * 1_000_000) / (df as u128 as nat + 1) <= n_docs as nat
            * 1_000_000) by (nonlinear_arith);
        assert(n_docs as nat * 1_000_000 <= 0xFFFF_FFFF_FFFF_FFFF * 1_000_000) by (nonlinear_arith)
            requires
                n_docs as nat <= 0xFFFF_FFFF_FFFF_FFFF,
        ;
        assert(ya as nat == idf_arg(n_docs as nat, df as nat));
        assert(ya <= LN_ARG_MAX);
    }
    let idf = ln_fixed(ya);
    proof {
        assert(tfw * idf <= 63_224_348 * 62_224_348) by (nonlinear_arith)
            requires
                tfw <= 63_224_348,
                idf <= 62_224_348,
        ;
    }
    (tfw * idf) / 1_000_000
}

} // verus!
