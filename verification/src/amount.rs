//! Reward amounts with arithmetic that refuses to wrap.

use vstd::prelude::*;
use vstd::string::StringExecFns;

use crate::account::{hex_val, hex_val_or_zero};
use crate::errors::RewardError;

verus! {

/// An unsigned reward amount.
///
/// Addition and multiplication never truncate: where a result would not
/// fit, they fail with `RewardError::ArithmeticOverflow` instead of
/// wrapping silently on adversarial input.
#[derive(Clone, Copy, Debug, PartialEq, Eq, Structural)]
pub struct RewardAmount {
    pub value: u128,
}

impl View for RewardAmount {
    type V = nat;

    open spec fn view(&self) -> nat {
        self.value as nat
    }
}

impl RewardAmount {
    /// Wraps a machine integer as a reward amount.
    pub fn new(value: u128) -> (r: RewardAmount)
        ensures
            r@ == value as nat,
    {
        RewardAmount { value }
    }

    /// The zero amount.
    pub fn zero() -> (r: RewardAmount)
        ensures
            r@ == 0,
    {
        RewardAmount { value: 0 }
    }

    /// The decimal spelling of the amount, for audit listings.
    pub fn to_decimal_string(&self) -> (r: String)
        ensures
            r@.len() >= 1,
            dec_val(r@) == self@,
            forall|i: int|
                0 <= i < r@.len() ==> (hex_val(#[trigger] r@[i]) matches Some(d) && d < 10),
            r@.len() > 1 ==> r@[0] != '0',
    {
        let mut n = self.value;
        let mut digits: Vec<u8> = Vec::new();
        let ghost total = self.value as nat;
        digits.push((n % 10) as u8);
        n = n / 10;
        proof {
            assert(digits@.drop_first() =~= Seq::<u8>::empty());
            assert(digits@.len() == 1);
            assert(digits@[0] == (self.value % 10) as u8);
            assert(val_low(Seq::<u8>::empty()) == 0);
            assert(val_low(digits@) == self.value as nat % 10);
            assert(pow10(1) == 10 * pow10(0));
            vstd::arithmetic::div_mod::lemma_fundamental_div_mod(self.value as int, 10);
        }
        while n > 0
            invariant
                digits@.len() >= 1,
                forall|k: int| 0 <= k < digits@.len() ==> digits@[k] < 10,
                total == val_low(digits@) + n as nat * pow10(digits@.len() as nat),
                n == 0 ==> digits@.len() == 1 || digits@.last() != 0,
            decreases n,
        {
            let ghost before = digits@;
            let ghost n0 = n as nat;
            digits.push((n % 10) as u8);
            n = n / 10;
            proof {
                lemma_val_low_push(before, (n0 % 10) as u8);
                vstd::arithmetic::div_mod::lemma_fundamental_div_mod(n0 as int, 10);
                let p = pow10(before.len());
                let q = n0 / 10;
                let m = n0 % 10;
                assert(n0 * p == m * p + q * (10 * p)) by (nonlinear_arith)
                    requires
                        n0 == 10 * q + m,
                ;
                assert(pow10(digits@.len() as nat) == 10 * p);
            }
        }
        let mut r = String::new();
        let mut i: usize = digits.len();
        proof {
            assert(digits@.skip(digits@.len() as int) =~= Seq::<u8>::empty());
        }
        while i > 0
            invariant
                i <= digits@.len(),
                digits@.len() >= 1,
                forall|k: int| 0 <= k < digits@.len() ==> digits@[k] < 10,
                r@.len() == digits@.len() - i,
                dec_val(r@) == val_low(digits@.skip(i as int)),
                forall|k: int|
                    0 <= k < r@.len() ==> (hex_val(#[trigger] r@[k]) matches Some(d) && d < 10),
                digits@.len() == 1 || digits@.last() != 0,
                r@.len() >= 1 ==> hex_val(r@[0]) == Some(digits@.last()),
            decreases i,
        {
            i -= 1;
            let ghost before_r = r@;
            let s = crate::account::hex_digit_str(digits[i]);
            r.append(s);
            proof {
                assert(r@ =~= before_r + s@);
                assert(r@.drop_last() =~= before_r);
                assert(r@.last() == s@[0]);
                assert(digits@.skip(i as int).drop_first() =~= digits@.skip(i + 1));
                assert(digits@.skip(i as int)[0] == digits@[i as int]);
            }
        }
        proof {
            assert(digits@.skip(0) =~= digits@);
            if r@.len() > 1 {
                assert(hex_val(r@[0]) == Some(digits@.last()));
                assert(digits@.last() != 0);
                assert(hex_val('0') == Some(0u8));
            }
        }
        r
    }

    /// The sum of two amounts, or an overflow failure where it would not
    /// fit.
    pub fn checked_add(self, other: RewardAmount) -> (r: Result<RewardAmount, RewardError>)
        ensures
            r is Ok <==> self@ + other@ <= u128::MAX as nat,
            r matches Ok(s) ==> s@ == self@ + other@,
            r matches Err(e) ==> e is ArithmeticOverflow,
    {
        match self.value.checked_add(other.value) {
            Some(v) => Ok(RewardAmount { value: v }),
            None => Err(RewardError::ArithmeticOverflow),
        }
    }

    /// The product of two amounts, or an overflow failure where it would
    /// not fit.
    pub fn checked_mul(self, other: RewardAmount) -> (r: Result<RewardAmount, RewardError>)
        ensures
            r is Ok <==> self@ * other@ <= u128::MAX as nat,
            r matches Ok(p) ==> p@ == self@ * other@,
            r matches Err(e) ==> e is ArithmeticOverflow,
    {
        match self.value.checked_mul(other.value) {
            Some(v) => Ok(RewardAmount { value: v }),
            None => Err(RewardError::ArithmeticOverflow),
        }
    }
}

/// The value a string of decimal digits spells.
pub open spec fn dec_val(s: Seq<char>) -> nat
    decreases s.len(),
{
    if s.len() == 0 {
        0
    } else {
        dec_val(s.drop_last()) * 10 + hex_val_or_zero(s.last()) as nat
    }
}

/// Ten to the power `k`.
pub open spec fn pow10(k: nat) -> nat
    decreases k,
{
    if k == 0 {
        1
    } else {
        10 * pow10((k - 1) as nat)
    }
}

/// The value of a digit list, least significant digit first.
spec fn val_low(digits: Seq<u8>) -> nat
    decreases digits.len(),
{
    if digits.len() == 0 {
        0
    } else {
        digits[0] as nat + 10 * val_low(digits.drop_first())
    }
}

/// Appending a digit adds it at the next power of ten.
proof fn lemma_val_low_push(digits: Seq<u8>, d: u8)
    ensures
        val_low(digits.push(d)) == val_low(digits) + d as nat * pow10(digits.len()),
    decreases digits.len(),
{
    if digits.len() == 0 {
        assert(digits.push(d).drop_first() =~= Seq::<u8>::empty());
        assert(digits.push(d)[0] == d);
        assert(val_low(Seq::<u8>::empty()) == 0);
        assert(val_low(digits.push(d)) == d as nat + 10 * val_low(digits.push(d).drop_first()));
        assert(pow10(0) == 1);
    } else {
        assert(digits.push(d)[0] == digits[0]);
        assert(digits.push(d).drop_first() =~= digits.drop_first().push(d));
        lemma_val_low_push(digits.drop_first(), d);
        let p = pow10((digits.len() - 1) as nat);
        let v = val_low(digits.drop_first());
        let dn = d as nat;
        assert(val_low(digits.push(d)) == digits[0] as nat + 10 * val_low(
            digits.push(d).drop_first(),
        ));
        assert(val_low(digits.push(d).drop_first()) == v + dn * p);
        assert(val_low(digits) == digits[0] as nat + 10 * v);
        assert(10 * (v + dn * p) == 10 * v + dn * (10 * p)) by (nonlinear_arith);
        assert(pow10(digits.len()) == 10 * p);
        assert(val_low(digits.push(d)) == val_low(digits) + dn * pow10(digits.len()));
    }
}

} // verus!
