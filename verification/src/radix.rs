//! Positional numerals: the number that a string of digits denotes in a given
//! base, the digits of a number at a fixed width, and how the order of numbers
//! shows in the order of their digit strings.
//!
//! Digit strings are big-endian: the first digit is the most significant.

use vstd::arithmetic::div_mod::*;
use vstd::arithmetic::power::*;
use vstd::prelude::*;

verus! {

/// Every digit lies in `0..base`.
pub open spec fn digits_in_base(digits: Seq<int>, base: int) -> bool {
    forall|i: int| 0 <= i < digits.len() ==> 0 <= #[trigger] digits[i] < base
}

/// The number that `digits` denotes in `base`.
pub open spec fn radix_value(digits: Seq<int>, base: int) -> int
    decreases digits.len(),
{
    if digits.len() == 0 {
        0
    } else {
        radix_value(digits.drop_last(), base) * base + digits.last()
    }
}

/// The `width` least significant digits of `value` in `base`.
pub open spec fn radix_digits(value: int, base: int, width: nat) -> Seq<int>
    decreases width,
{
    if width == 0 {
        Seq::empty()
    } else {
        radix_digits(value / base, base, (width - 1) as nat).push(value % base)
    }
}

/// `a` comes before `b` in lexicographic order: at the first place where they
/// differ `a` has the smaller digit, or `a` is a proper prefix of `b`.
pub open spec fn lex_less(a: Seq<int>, b: Seq<int>) -> bool {
    exists|k: int|
        0 <= k <= a.len() && k < b.len() && #[trigger] a.take(k) == b.take(k) && (k < a.len()
            ==> a[k] < b[k])
}

/// Appending a digit multiplies by the base and adds the digit.
pub proof fn lemma_radix_value_push(digits: Seq<int>, digit: int, base: int)
    ensures
        radix_value(digits.push(digit), base) == radix_value(digits, base) * base + digit,
{
    assert(digits.push(digit).drop_last() =~= digits);
}

/// `n` digits in `base` denote a number in `0..base^n`.
pub proof fn lemma_radix_value_bounds(digits: Seq<int>, base: int)
    requires
        base > 0,
        digits_in_base(digits, base),
    ensures
        0 <= radix_value(digits, base) < pow(base, digits.len()),
    decreases digits.len(),
{
    reveal(pow);
    if digits.len() > 0 {
        let front = digits.drop_last();
        lemma_radix_value_bounds(front, base);
        let v = radix_value(front, base);
        let p = pow(base, front.len());
        assert(v * base + digits.last() < base * p) by (nonlinear_arith)
            requires
                0 <= v < p,
                0 <= digits.last() < base,
        ;
        assert(0 <= v * base) by (nonlinear_arith)
            requires
                0 <= v,
                0 < base,
        ;
    }
}

/// A digit string whose first digit is not zero denotes a positive number.
pub proof fn lemma_radix_value_positive(digits: Seq<int>, base: int)
    requires
        base > 0,
        digits_in_base(digits, base),
        digits.len() > 0,
        digits[0] > 0,
    ensures
        radix_value(digits, base) > 0,
    decreases digits.len(),
{
    let front = digits.drop_last();
    if front.len() > 0 {
        lemma_radix_value_positive(front, base);
        let v = radix_value(front, base);
        assert(v * base >= v) by (nonlinear_arith)
            requires
                v > 0,
                base > 0,
        ;
    } else {
        assert(radix_value(front, base) == 0);
    }
}

/// The digits of a number at a width are that many digits, each in the base.
pub proof fn lemma_radix_digits_shape(value: int, base: int, width: nat)
    requires
        base > 0,
    ensures
        radix_digits(value, base, width).len() == width,
        digits_in_base(radix_digits(value, base, width), base),
    decreases width,
{
    if width > 0 {
        lemma_radix_digits_shape(value / base, base, (width - 1) as nat);
        lemma_mod_bound(value, base);
    }
}

/// Zero has only zero digits.
pub proof fn lemma_radix_digits_zero(base: int, width: nat)
    requires
        base > 0,
    ensures
        radix_digits(0, base, width).len() == width,
        forall|i: int| 0 <= i < width ==> #[trigger] radix_digits(0, base, width)[i] == 0,
    decreases width,
{
    if width > 0 {
        lemma_radix_digits_zero(base, (width - 1) as nat);
        lemma_div_basics_1(base);
        lemma_small_mod(0, base as nat);
    }
}

/// A number that fits in `width` digits is the value of its digits.
pub proof fn lemma_radix_value_of_digits(value: int, base: int, width: nat)
    requires
        base > 0,
        0 <= value < pow(base, width),
    ensures
        radix_value(radix_digits(value, base, width), base) == value,
    decreases width,
{
    reveal(pow);
    if width > 0 {
        let q = value / base;
        let r = value % base;
        let p = pow(base, (width - 1) as nat);
        lemma_fundamental_div_mod(value, base);
        lemma_mod_bound(value, base);
        assert(0 <= q < p) by (nonlinear_arith)
            requires
                value == base * q + r,
                0 <= r < base,
                0 <= value < base * p,
        ;
        lemma_radix_value_of_digits(q, base, (width - 1) as nat);
        lemma_radix_value_push(radix_digits(q, base, (width - 1) as nat), r, base);
        assert(q * base == base * q) by (nonlinear_arith);
    }
}

/// A digit string is the digits of the number it denotes.
pub proof fn lemma_radix_digits_of_value(digits: Seq<int>, base: int)
    requires
        base > 0,
        digits_in_base(digits, base),
    ensures
        radix_digits(radix_value(digits, base), base, digits.len()) == digits,
    decreases digits.len(),
{
    if digits.len() > 0 {
        let front = digits.drop_last();
        let v = radix_value(front, base);
        lemma_radix_digits_of_value(front, base);
        assert(base * v + digits.last() == v * base + digits.last()) by (nonlinear_arith);
        lemma_fundamental_div_mod_converse(radix_value(digits, base), base, v, digits.last());
        assert(front.push(digits.last()) =~= digits);
    } else {
        assert(radix_digits(radix_value(digits, base), base, 0) =~= digits);
    }
}

/// Among digit strings of one length, the smaller number has the string that
/// comes first in lexicographic order, and the other way round.
pub proof fn lemma_radix_order(a: Seq<int>, b: Seq<int>, base: int)
    requires
        base > 0,
        a.len() == b.len(),
        digits_in_base(a, base),
        digits_in_base(b, base),
    ensures
        radix_value(a, base) < radix_value(b, base) <==> lex_less(a, b),
    decreases a.len(),
{
    if a.len() == 0 {
        assert(!lex_less(a, b));
    } else {
        let n = a.len() - 1;
        let fa = a.drop_last();
        let fb = b.drop_last();
        let va = radix_value(fa, base);
        let vb = radix_value(fb, base);
        lemma_radix_order(fa, fb, base);
        assert(fa =~= a.take(n));
        assert(fb =~= b.take(n));
        if lex_less(a, b) {
            let k = choose|k: int|
                0 <= k <= a.len() && k < b.len() && #[trigger] a.take(k) == b.take(k) && (k
                    < a.len() ==> a[k] < b[k]);
            if k < n {
                assert(fa.take(k) =~= a.take(k));
                assert(fb.take(k) =~= b.take(k));
                assert(fa[k] == a[k] && fb[k] == b[k]);
                assert(lex_less(fa, fb));
            }
            assert(va * base + a[n] < vb * base + b[n]) by (nonlinear_arith)
                requires
                    va < vb || (va == vb && a[n] < b[n]),
                    0 <= a[n] < base,
                    0 <= b[n] < base,
            ;
        }
        if radix_value(a, base) < radix_value(b, base) {
            if va < vb {
                let k = choose|k: int|
                    0 <= k <= fa.len() && k < fb.len() && #[trigger] fa.take(k) == fb.take(k) && (k
                        < fa.len() ==> fa[k] < fb[k]);
                assert(a.take(k) =~= fa.take(k));
                assert(b.take(k) =~= fb.take(k));
                assert(fa[k] == a[k] && fb[k] == b[k]);
                assert(lex_less(a, b));
            } else if va == vb {
                lemma_radix_digits_of_value(fa, base);
                lemma_radix_digits_of_value(fb, base);
                assert(a.take(n) == b.take(n));
                assert(lex_less(a, b));
            } else {
                assert(va * base + a[n] > vb * base + b[n]) by (nonlinear_arith)
                    requires
                        va > vb,
                        0 <= a[n] < base,
                        0 <= b[n] < base,
                ;
            }
        }
    }
}

/// Lexicographic order is kept when each digit is replaced by another in a way
/// that keeps equal digits equal and smaller digits smaller.
pub proof fn lemma_lex_less_relabel(a: Seq<int>, b: Seq<int>, fa: Seq<int>, fb: Seq<int>)
    requires
        a.len() == fa.len(),
        b.len() == fb.len(),
        forall|i: int|
            0 <= i < a.len() && i < b.len() ==> ((a[i] == b[i]) == (#[trigger] fa[i] == fb[i])),
        forall|i: int|
            0 <= i < a.len() && i < b.len() ==> ((a[i] < b[i]) == (#[trigger] fa[i] < fb[i])),
    ensures
        lex_less(a, b) <==> lex_less(fa, fb),
{
    if lex_less(a, b) {
        let k = choose|k: int|
            0 <= k <= a.len() && k < b.len() && #[trigger] a.take(k) == b.take(k) && (k < a.len()
                ==> a[k] < b[k]);
        assert forall|i: int| 0 <= i < k implies fa[i] == fb[i] by {
            assert(a[i] == a.take(k)[i] && b[i] == b.take(k)[i]);
        }
        assert(fa.take(k) =~= fb.take(k));
    }
    if lex_less(fa, fb) {
        let k = choose|k: int|
            0 <= k <= fa.len() && k < fb.len() && #[trigger] fa.take(k) == fb.take(k) && (k
                < fa.len() ==> fa[k] < fb[k]);
        assert forall|i: int| 0 <= i < k implies a[i] == b[i] by {
            assert(fa[i] == fa.take(k)[i] && fb[i] == fb.take(k)[i]);
        }
        assert(a.take(k) =~= b.take(k));
    }
}

} // verus!
