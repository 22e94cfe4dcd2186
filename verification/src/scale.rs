//! Exact scaling of a number by a power of a factor given in thousandths.
//!
//! The product of a number and the power of a factor is kept as a whole part
//! and the digits, to the base 1000, of what is behind the point, so that
//! nothing is rounded before the end.

use vstd::arithmetic::div_mod::{
    lemma_div_is_ordered, lemma_div_multiples_vanish_quotient, lemma_fundamental_div_mod_converse,
};
use vstd::prelude::*;

verus! {

/// 1000 to the power `k`.
pub open spec fn thousands(k: nat) -> nat
    decreases k,
{
    if k == 0 {
        1
    } else {
        1000 * thousands((k - 1) as nat)
    }
}

/// `base` to the power `exponent`.
pub open spec fn power(base: nat, exponent: nat) -> nat
    decreases exponent,
{
    if exponent == 0 {
        1
    } else {
        base * power(base, (exponent - 1) as nat)
    }
}

/// `initial` times the power `steps` of the factor `milli / 1000`, rounded
/// down.
pub open spec fn grown(initial: nat, milli: nat, steps: nat) -> nat {
    initial * power(milli, steps) / thousands(steps)
}

/// The smaller of two numbers.
pub open spec fn least(a: int, b: int) -> int {
    if a <= b {
        a
    } else {
        b
    }
}

/// The number that digits to the base 1000 stand for, the least digit
/// first.
pub open spec fn digits_total(digits: Seq<u16>) -> nat
    decreases digits.len(),
{
    if digits.len() == 0 {
        0
    } else {
        digits_total(digits.drop_last()) + digits.last() as nat * thousands(
            (digits.len() - 1) as nat,
        )
    }
}

/// Whether each digit is below 1000.
pub open spec fn digits_small(digits: Seq<u16>) -> bool {
    forall|i: int| 0 <= i < digits.len() ==> (#[trigger] digits[i]) < 1000
}

proof fn lemma_thousands_positive(k: nat)
    ensures
        thousands(k) > 0,
    decreases k,
{
    if k > 0 {
        lemma_thousands_positive((k - 1) as nat);
    }
}

proof fn lemma_digits_bound(digits: Seq<u16>)
    requires
        digits_small(digits),
    ensures
        digits_total(digits) < thousands(digits.len()),
    decreases digits.len(),
{
    if digits.len() > 0 {
        let front = digits.drop_last();
        assert forall|i: int| 0 <= i < front.len() implies (#[trigger] front[i]) < 1000 by {
            assert(front[i] == digits[i]);
        }
        lemma_digits_bound(front);
        let t = thousands(front.len());
        let d = digits.last() as nat;
        assert(digits_total(front) + d * t < 1000 * t) by (nonlinear_arith)
            requires
                digits_total(front) < t,
                d <= 999,
        ;
    }
}

/// With a factor of one or more, the scaled number does not fall from one
/// step to the next.
proof fn lemma_grown_step_up(initial: nat, milli: nat, k: nat)
    requires
        milli >= 1000,
    ensures
        grown(initial, milli, k) <= grown(initial, milli, k + 1),
{
    let n = (initial * power(milli, k)) as int;
    let d = thousands(k) as int;
    lemma_thousands_positive(k);
    assert(initial * power(milli, k + 1) == n * milli) by (nonlinear_arith)
        requires
            power(milli, k + 1) == milli * power(milli, k),
            n == initial * power(milli, k),
    ;
    assert(thousands(k + 1) == 1000 * d);
    lemma_div_multiples_vanish_quotient(1000, n, d);
    assert(n * 1000 == 1000 * n) by (nonlinear_arith);
    assert(n * 1000 <= n * milli) by (nonlinear_arith)
        requires
            n >= 0,
            milli >= 1000,
    ;
    lemma_div_is_ordered(n * 1000, n * milli, 1000 * d);
}

/// With a factor of one or less, the scaled number does not rise from one
/// step to the next.
proof fn lemma_grown_step_down(initial: nat, milli: nat, k: nat)
    requires
        milli <= 1000,
    ensures
        grown(initial, milli, k + 1) <= grown(initial, milli, k),
{
    let n = (initial * power(milli, k)) as int;
    let d = thousands(k) as int;
    lemma_thousands_positive(k);
    assert(initial * power(milli, k + 1) == n * milli) by (nonlinear_arith)
        requires
            power(milli, k + 1) == milli * power(milli, k),
            n == initial * power(milli, k),
    ;
    assert(thousands(k + 1) == 1000 * d);
    lemma_div_multiples_vanish_quotient(1000, n, d);
    assert(n * 1000 == 1000 * n) by (nonlinear_arith);
    assert(n * milli <= n * 1000) by (nonlinear_arith)
        requires
            n >= 0,
            milli <= 1000,
    ;
    lemma_div_is_ordered(n * milli, n * 1000, 1000 * d);
}

proof fn lemma_grown_rises(initial: nat, milli: nat, from: nat, to: nat)
    requires
        milli >= 1000,
        from <= to,
    ensures
        grown(initial, milli, from) <= grown(initial, milli, to),
    decreases to - from,
{
    if from < to {
        lemma_grown_rises(initial, milli, from, (to - 1) as nat);
        lemma_grown_step_up(initial, milli, (to - 1) as nat);
    }
}

proof fn lemma_grown_falls(initial: nat, milli: nat, from: nat, to: nat)
    requires
        milli <= 1000,
        from <= to,
    ensures
        grown(initial, milli, to) <= grown(initial, milli, from),
    decreases to - from,
{
    if from < to {
        lemma_grown_falls(initial, milli, from, (to - 1) as nat);
        lemma_grown_step_down(initial, milli, (to - 1) as nat);
    }
}

/// Without a step the number is as it is.
proof fn lemma_grown_start(initial: nat, milli: nat)
    ensures
        grown(initial, milli, 0) == initial,
{
    assert(power(milli, 0) == 1);
    assert(thousands(0) == 1);
    assert(initial * 1 == initial) by (nonlinear_arith);
}

/// A factor of exactly one leaves the number as it is.
proof fn lemma_grown_same(initial: nat, steps: nat)
    ensures
        grown(initial, 1000, steps) == initial,
{
    lemma_grown_rises(initial, 1000, 0, steps);
    lemma_grown_falls(initial, 1000, 0, steps);
    lemma_grown_start(initial, 1000);
}

/// Nothing scaled is nothing.
proof fn lemma_grown_zero(milli: nat, steps: nat)
    ensures
        grown(0, milli, steps) == 0,
{
    lemma_thousands_positive(steps);
    assert(0 * power(milli, steps) == 0) by (nonlinear_arith);
}

/// `initial` times the power `steps` of `milli / 1000`, rounded down once
/// at the end, and no more than `cap`.
pub fn scaled(initial: u64, milli: u32, steps: u32, cap: u64) -> (r: u64)
    ensures
        r == least(grown(initial as nat, milli as nat, steps as nat) as int, cap as int),
{
    if steps == 0 || milli == 1000 || initial == 0 {
        proof {
            lemma_grown_same(initial as nat, steps as nat);
            lemma_grown_zero(milli as nat, steps as nat);
            lemma_grown_start(initial as nat, milli as nat);
        }
        return if initial <= cap {
            initial
        } else {
            cap
        };
    }
    let mut whole: u128 = initial as u128;
    let mut digits: Vec<u16> = Vec::new();
    let mut done: u32 = 0;
    proof {
        lemma_grown_start(initial as nat, milli as nat);
        assert(power(milli as nat, 0) == 1);
        assert(thousands(0) == 1);
        assert(whole * 1 + 0 == initial * 1) by (nonlinear_arith)
            requires
                whole == initial,
        ;
    }
    while done < steps
        invariant
            done <= steps,
            milli != 1000,
            digits@.len() == done,
            digits_small(digits@),
            whole * thousands(done as nat) + digits_total(digits@) == initial * power(
                milli as nat,
                done as nat,
            ),
            whole == grown(initial as nat, milli as nat, done as nat),
            whole < 0x1_0000_0000_0000_0000_0000_0000,
            milli < 1000 ==> whole <= initial,
        decreases steps - done,
    {
        if milli > 1000 && whole >= cap as u128 {
            proof {
                lemma_grown_rises(initial as nat, milli as nat, done as nat, steps as nat);
            }
            return cap;
        }
        if milli < 1000 && whole == 0 {
            proof {
                lemma_grown_falls(initial as nat, milli as nat, done as nat, steps as nat);
            }
            return 0;
        }
        let ghost before = digits@;
        let ghost number = (initial * power(milli as nat, done as nat)) as int;
        let mut carry: u64 = 0;
        let mut i: usize = 0;
        assert(digits@.subrange(0, 0) =~= Seq::<u16>::empty());
        assert(before.subrange(0, 0) =~= Seq::<u16>::empty());
        assert(digits_total(Seq::<u16>::empty()) == 0);
        assert(0 * thousands(0) == 0 && 0 * milli == 0) by (nonlinear_arith);
        while i < digits.len()
            invariant
                i <= digits.len(),
                digits@.len() == before.len(),
                digits_small(before),
                carry <= milli,
                forall|j: int| 0 <= j < i ==> (#[trigger] digits@[j]) < 1000,
                forall|j: int| i <= j < digits@.len() ==> (#[trigger] digits@[j]) == before[j],
                digits_total(digits@.subrange(0, i as int)) + carry * thousands(i as nat)
                    == digits_total(before.subrange(0, i as int)) * milli,
            decreases digits.len() - i,
        {
            let digit = digits[i];
            assert(digit == before[i as int]);
            assert(digit * milli + carry <= 999 * 0xffff_ffff + 0xffff_ffff) by (nonlinear_arith)
                requires
                    digit <= 999,
                    milli <= 0xffff_ffff,
                    carry <= milli,
            ;
            let total: u64 = digit as u64 * milli as u64 + carry;
            let ghost head = digits@.subrange(0, i as int);
            let ghost old_carry = carry;
            digits[i] = (total % 1000) as u16;
            carry = total / 1000;
            proof {
                let t = thousands(i as nat) as int;
                let a = digits_total(head) as int;
                let b = digits_total(before.subrange(0, i as int)) as int;
                let new_head = digits@.subrange(0, i + 1);
                let old_head = before.subrange(0, i + 1);
                assert(new_head.drop_last() =~= head);
                assert(old_head.drop_last() =~= before.subrange(0, i as int));
                assert(new_head.last() == (total % 1000) as u16);
                assert(old_head.last() == digit);
                assert(thousands((i + 1) as nat) == 1000 * t);
                let q = (total / 1000) as int;
                let r = (total % 1000) as int;
                let o = digit as int;
                let m = milli as int;
                let c = old_carry as int;
                assert(a + r * t + q * (1000 * t) == (b + o * t) * m) by (nonlinear_arith)
                    requires
                        a + c * t == b * m,
                        q * 1000 + r == o * m + c,
                ;
                assert(carry <= milli) by {
                    assert(q * 1000 <= o * m + c);
                    assert(o * m <= 999 * m) by (nonlinear_arith)
                        requires
                            0 <= o <= 999,
                            m >= 0,
                    ;
                }
            }
            i += 1;
        }
        assert(digits@.subrange(0, digits@.len() as int) =~= digits@);
        assert(before.subrange(0, before.len() as int) =~= before);
        assert(whole * milli + carry <= 0xffff_ffff_ffff_ffff * 0xffff_ffff + 0xffff_ffff)
            by (nonlinear_arith)
            requires
                whole <= 0xffff_ffff_ffff_ffff,
                milli <= 0xffff_ffff,
                carry <= milli,
        ;
        let total: u128 = whole * milli as u128 + carry as u128;
        let ghost multiplied = digits@;
        let ghost old_whole = whole as int;
        digits.push((total % 1000) as u16);
        whole = total / 1000;
        proof {
            let k = done as nat;
            let t = thousands(k) as int;
            let dt = digits_total(multiplied) as int;
            let db = digits_total(before) as int;
            let r = (total % 1000) as int;
            let q = (total / 1000) as int;
            let m = milli as int;
            let c = carry as int;
            assert(digits@.drop_last() =~= multiplied);
            assert(digits@.last() == (total % 1000) as u16);
            assert(thousands(k + 1) == 1000 * t);
            assert(power(milli as nat, k + 1) == milli * power(milli as nat, k));
            assert(q * (1000 * t) + (dt + r * t) == number * m) by (nonlinear_arith)
                requires
                    old_whole * t + db == number,
                    dt + c * t == db * m,
                    q * 1000 + r == old_whole * m + c,
            ;
            assert(initial * power(milli as nat, k + 1) == number * m) by (nonlinear_arith)
                requires
                    power(milli as nat, k + 1) == milli * power(milli as nat, k),
                    number == initial * power(milli as nat, k),
                    m == milli,
            ;
            assert forall|j: int| 0 <= j < digits@.len() implies (#[trigger] digits@[j]) < 1000 by {
                if j < multiplied.len() {
                    assert(digits@[j] == multiplied[j]);
                }
            }
            lemma_digits_bound(digits@);
            lemma_thousands_positive(k + 1);
            lemma_fundamental_div_mod_converse(
                number * m,
                thousands(k + 1) as int,
                q,
                digits_total(digits@) as int,
            );
            if milli < 1000 {
                assert(q <= old_whole) by (nonlinear_arith)
                    requires
                        q * 1000 + r == old_whole * m + c,
                        0 <= r,
                        0 <= c <= m,
                        0 <= m <= 999,
                        0 <= old_whole,
                ;
            }
        }
        done = done + 1;
    }
    if whole >= cap as u128 {
        cap
    } else {
        whole as u64
    }
}

} // verus!
