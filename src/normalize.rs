use vstd::prelude::*;

verus! {

/// Number of decimal digits of `v` (zero has one digit).
pub open spec fn digit_count(v: nat) -> nat
    decreases v,
{
    if v < 10 {
        1
    } else {
        1 + digit_count(v / 10)
    }
}

/// Ten to the power `e`.
pub open spec fn pow10(e: nat) -> nat
    decreases e,
{
    if e == 0 {
        1
    } else {
        10 * pow10((e - 1) as nat)
    }
}

/// A value can be normalized when it has at most `WIDTH` digits.
pub open spec fn in_domain(v: nat) -> bool {
    digit_count(v) <= 6
}

/// The factor that brings a value with at most six digits to the six-digit scale.
pub open spec fn shift_of(v: nat) -> nat {
    pow10((6 - digit_count(v)) as nat)
}

/// Which end of an interval a value is.
#[derive(Clone, Copy, Debug, PartialEq, Eq, Structural)]
pub enum Bound {
    Lower,
    Upper,
}

/// A bound scaled by `shift`: a lower bound becomes the first canonical value
/// with its prefix, an upper bound the last one.
pub open spec fn scaled(v: nat, shift: nat, role: Bound) -> nat {
    match role {
        Bound::Lower => v * shift,
        Bound::Upper => (v * shift + shift - 1) as nat,
    }
}

/// The canonical form of a single value.
pub open spec fn normalized(v: nat) -> nat {
    scaled(v, shift_of(v), Bound::Lower)
}

/// Why an input was refused. Each is an invalid input.
#[derive(Clone, Copy, Debug, PartialEq, Eq, Structural)]
pub enum BinError {
    /// A value has more than six decimal digits.
    TooManyDigits,
    /// The two bounds of an interval have different digit counts.
    MixedDigitCounts,
    /// The lower bound is above the upper bound.
    ReversedBounds,
}

/// `digit_count(n) == k` exactly when `n` lies in the `k`-digit range.
pub proof fn lemma_digit_count_range(n: nat, k: nat)
    requires
        k >= 1,
        n < pow10(k),
        k == 1 || pow10((k - 1) as nat) <= n,
    ensures
        digit_count(n) == k,
    decreases k,
{
    if k > 1 {
        let p = pow10((k - 2) as nat);
        assert(pow10((k - 1) as nat) == 10 * p);
        assert(pow10(k) == 10 * pow10((k - 1) as nat));
        assert(n >= 10);
        let q = n / 10;
        let pk = pow10((k - 1) as nat);
        assert(q < pk && (k - 1 == 1 || p <= q)) by (nonlinear_arith)
            requires
                n < 10 * pk,
                pk == 10 * p,
                n >= pk,
                q == n / 10,
        ;
        lemma_digit_count_range(q, (k - 1) as nat);
    }
}

/// Powers of ten grow strictly.
pub proof fn lemma_pow10_strict(a: nat, b: nat)
    requires
        a < b,
    ensures
        pow10(a) < pow10(b),
    decreases b,
{
    lemma_pow10_positive(a);
    if a < (b - 1) as nat {
        lemma_pow10_strict(a, (b - 1) as nat);
    }
}

/// Powers of ten are positive.
pub proof fn lemma_pow10_positive(e: nat)
    ensures
        pow10(e) >= 1,
    decreases e,
{
    if e > 0 {
        lemma_pow10_positive((e - 1) as nat);
    }
}

/// A value with more than six digits is not in the domain.
proof fn lemma_large_out_of_domain(n: nat)
    requires
        n >= 1_000_000,
    ensures
        digit_count(n) > 6,
    decreases n,
{
    reveal_with_fuel(digit_count, 7);
    assert(n / 10 >= 100_000);
    assert(n / 100 / 10 >= 1_000);
    assert(n / 10 / 10 / 10 / 10 / 10 / 10 >= 1);
}

/// The factor for `v`, or an error when `v` has more than six digits.
fn shift_for(v: u64) -> (r: Result<u64, BinError>)
    ensures
        match r {
            Ok(s) => in_domain(v as nat) && s == shift_of(v as nat),
            Err(e) => !in_domain(v as nat) && e == BinError::TooManyDigits,
        },
{
    proof {
        reveal_with_fuel(pow10, 7);
    }
    if v < 10 {
        proof { lemma_digit_count_range(v as nat, 1); }
        Ok(100_000)
    } else if v < 100 {
        proof { lemma_digit_count_range(v as nat, 2); }
        Ok(10_000)
    } else if v < 1_000 {
        proof { lemma_digit_count_range(v as nat, 3); }
        Ok(1_000)
    } else if v < 10_000 {
        proof { lemma_digit_count_range(v as nat, 4); }
        Ok(100)
    } else if v < 100_000 {
        proof { lemma_digit_count_range(v as nat, 5); }
        Ok(10)
    } else if v < 1_000_000 {
        proof { lemma_digit_count_range(v as nat, 6); }
        Ok(1)
    } else {
        proof { lemma_large_out_of_domain(v as nat); }
        Err(BinError::TooManyDigits)
    }
}

/// A value lies between the powers of ten around its digit count.
pub proof fn lemma_digit_count_bounds(n: nat)
    ensures
        digit_count(n) >= 1,
        n < pow10(digit_count(n)),
        n > 0 ==> pow10((digit_count(n) - 1) as nat) <= n,
    decreases n,
{
    reveal_with_fuel(pow10, 2);
    if n >= 10 {
        let q = n / 10;
        lemma_digit_count_bounds(q);
        let k = digit_count(q);
        assert(pow10(k + 1) == 10 * pow10(k));
        assert(pow10(k) == 10 * pow10((k - 1) as nat)) by {
            assert(((k - 1) as nat) + 1 == k);
        }
        let pk = pow10(k);
        let pkm = pow10((k - 1) as nat);
        assert(n < 10 * pk && 10 * pkm <= n) by (nonlinear_arith)
            requires
                q == n / 10,
                q < pk,
                q > 0,
                pkm <= q,
        ;
    }
}

/// `10^(a + b) == 10^a * 10^b`.
pub proof fn lemma_pow10_add(a: nat, b: nat)
    ensures
        pow10(a + b) == pow10(a) * pow10(b),
    decreases a,
{
    if a > 0 {
        lemma_pow10_add((a - 1) as nat, b);
        assert(((a - 1) as nat) + b + 1 == a + b);
        assert(pow10(a + b) == 10 * pow10(((a - 1) as nat) + b));
        assert(pow10(a) == 10 * pow10((a - 1) as nat));
        let x = pow10((a - 1) as nat);
        let y = pow10(b);
        assert(10 * (x * y) == (10 * x) * y) by (nonlinear_arith);
    } else {
        assert(pow10(0) == 1);
        assert(a + b == b);
    }
}

/// Normalizing a positive `k`-digit value (`1 <= k <= 6`) multiplies it by
/// `10^(6 - k)`, and the result has exactly six digits.
pub proof fn lemma_normalized_by_digit_count(v: nat, k: nat)
    requires
        1 <= k <= 6,
        digit_count(v) == k,
        v > 0,
    ensures
        normalized(v) == v * pow10((6 - k) as nat),
        digit_count(normalized(v)) == 6,
{
    lemma_digit_count_bounds(v);
    let e = (6 - k) as nat;
    let s = pow10(e);
    lemma_pow10_add(k, e);
    lemma_pow10_add((k - 1) as nat, e);
    assert(((k - 1) as nat) + e == 5);
    let lo = pow10((k - 1) as nat);
    let hi = pow10(k);
    lemma_pow10_positive(e);
    assert(lo * s <= v * s && v * s < hi * s) by (nonlinear_arith)
        requires
            lo <= v,
            v < hi,
            s >= 1,
    ;
    lemma_digit_count_range(v * s, 6);
}

/// What is wrong with the interval `[from, to]` before normalization, if anything.
pub open spec fn interval_error(from: nat, to: nat) -> Option<BinError> {
    if !in_domain(from) || !in_domain(to) {
        Some(BinError::TooManyDigits)
    } else if digit_count(from) != digit_count(to) {
        Some(BinError::MixedDigitCounts)
    } else if from > to {
        Some(BinError::ReversedBounds)
    } else {
        None
    }
}

/// The normalized interval for raw bounds that pass `interval_error`.
pub open spec fn normalized_bin(from: nat, to: nat) -> Bin {
    Bin {
        from: scaled(from, shift_of(from), Bound::Lower) as u64,
        to: scaled(to, shift_of(from), Bound::Upper) as u64,
    }
}

/// Scales one bound; the single place where the lower/upper asymmetry lives.
fn scale(v: u64, shift: u64, role: Bound) -> (r: u64)
    requires
        v < 1_000_000,
        1 <= shift <= 100_000,
    ensures
        r == scaled(v as nat, shift as nat, role),
{
    assert(v * shift <= 999_999 * 100_000) by (nonlinear_arith)
        requires
            v < 1_000_000,
            shift <= 100_000,
    ;
    match role {
        Bound::Lower => v * shift,
        Bound::Upper => v * shift + shift - 1,
    }
}

/// Normalizes a single value of one to six digits to the six-digit scale:
/// `pan * 10^(6 - digits(pan))`. A value with more digits is refused.
pub fn standardize(pan: u64) -> (r: Result<u64, BinError>)
    ensures
        match r {
            Ok(n) => in_domain(pan as nat) && n == normalized(pan as nat),
            Err(e) => !in_domain(pan as nat) && e == BinError::TooManyDigits,
        },
{
    match shift_for(pan) {
        Ok(shift) => {
            proof {
                lemma_shift_facts(pan as nat);
            }
            Ok(scale(pan, shift, Bound::Lower))
        },
        Err(e) => Err(e),
    }
}

/// For a value in the domain: it is below a million and its factor is at most `10^5`.
proof fn lemma_shift_facts(v: nat)
    requires
        in_domain(v),
    ensures
        v < 1_000_000,
        1 <= shift_of(v) <= 100_000,
{
    if v >= 1_000_000 {
        lemma_large_out_of_domain(v);
    }
    lemma_digit_count_positive(v);
    reveal_with_fuel(pow10, 7);
    let e = (6 - digit_count(v)) as nat;
    assert(e <= 5);
    if e < 5 {
        lemma_pow10_strict(e, 5);
    }
    lemma_pow10_positive(e);
}

/// Every value has at least one digit.
proof fn lemma_digit_count_positive(v: nat)
    ensures
        digit_count(v) >= 1,
    decreases v,
{
    if v >= 10 {
        lemma_digit_count_positive(v / 10);
    }
}

/// A closed interval of canonical values, both bounds on the six-digit scale.
#[derive(Clone, Copy, Debug, PartialEq, Eq, Structural)]
pub struct Bin {
    pub from: u64,
    pub to: u64,
}

impl Bin {
    /// The normalized interval for raw bounds `from` and `to`. Both bounds are
    /// scaled by the factor of `from`'s digit count; `to` is widened to the last
    /// canonical value that shares its prefix.
    pub fn new(from: u64, to: u64) -> (r: Result<Bin, BinError>)
        ensures
            match r {
                Ok(b) => {
                    &&& interval_error(from as nat, to as nat) is None
                    &&& b.from == scaled(from as nat, shift_of(from as nat), Bound::Lower)
                    &&& b.to == scaled(to as nat, shift_of(from as nat), Bound::Upper)
                    &&& b.from <= b.to
                },
                Err(e) => interval_error(from as nat, to as nat) == Some(e),
            },
    {
        match Bin::standardize(from, to) {
            Ok((f, t)) => Ok(Bin { from: f, to: t }),
            Err(e) => Err(e),
        }
    }

    fn standardize(from: u64, to: u64) -> (r: Result<(u64, u64), BinError>)
        ensures
            match r {
                Ok((f, t)) => {
                    &&& interval_error(from as nat, to as nat) is None
                    &&& f == scaled(from as nat, shift_of(from as nat), Bound::Lower)
                    &&& t == scaled(to as nat, shift_of(from as nat), Bound::Upper)
                    &&& f <= t
                },
                Err(e) => interval_error(from as nat, to as nat) == Some(e),
            },
    {
        let shift = match shift_for(from) {
            Ok(s) => s,
            Err(e) => return Err(e),
        };
        let to_shift = match shift_for(to) {
            Ok(s) => s,
            Err(e) => return Err(e),
        };
        proof {
            lemma_shift_facts(from as nat);
            lemma_shift_facts(to as nat);
            lemma_digit_count_positive(from as nat);
            lemma_digit_count_positive(to as nat);
            let ef = (6 - digit_count(from as nat)) as nat;
            let et = (6 - digit_count(to as nat)) as nat;
            if ef < et {
                lemma_pow10_strict(ef, et);
            } else if et < ef {
                lemma_pow10_strict(et, ef);
            }
        }
        if shift != to_shift {
            return Err(BinError::MixedDigitCounts);
        }
        if from > to {
            return Err(BinError::ReversedBounds);
        }
        let f = scale(from, shift, Bound::Lower);
        let t = scale(to, shift, Bound::Upper);
        assert(f <= t) by (nonlinear_arith)
            requires
                from <= to,
                f == from * shift,
                t == to * shift + shift - 1,
                shift >= 1,
        ;
        Ok((f, t))
    }
}

} // verus!
