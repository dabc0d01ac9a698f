use vstd::prelude::*;
use crate::ranks::{rank_greater, rank_spec, encoded_greater, lemma_rank_order_is_number_order};

verus! {

/// The rank of both zeros.
pub open spec fn zero_rank() -> u64 {
    0x8000_0000_0000_0000
}

/// The ranked amount lies strictly below zero (`amount < 0.0`); an unranked
/// amount (NaN) does not.
pub open spec fn below_zero(amount: Option<u64>) -> bool {
    rank_greater(Some(zero_rank()), amount)
}

/// Whether a deposit of `amount` into a cell of the field goes ahead: every
/// amount that is not below zero does.
pub fn deposit_accepted(amount: Option<u64>) -> (r: bool)
    ensures
        r == !below_zero(amount),
        r == !(amount is Some && amount->0 < 0x8000_0000_0000_0000),
{
    match amount {
        Some(a) => a >= 0x8000_0000_0000_0000u64,
        None => true,
    }
}

/// Whether a withdrawal of `amount` from a cell holding `held` goes ahead:
/// the amount must not be below zero, nor above what the cell holds.
pub fn withdraw_accepted(held: Option<u64>, amount: Option<u64>) -> (r: bool)
    ensures
        r == (!below_zero(amount) && !rank_greater(amount, held)),
        r == (!(amount is Some && amount->0 < 0x8000_0000_0000_0000) && !(amount is Some && held is Some
            && amount->0 > held->0)),
{
    if !deposit_accepted(amount) {
        return false;
    }
    match (held, amount) {
        (Some(h), Some(a)) => a <= h,
        _ => true,
    }
}

/// `below_zero` on ranks is `< 0.0` on numbers: for every encoding `bits`,
/// its rank is below zero exactly when IEEE 754 says `0.0 > bits`.
pub proof fn lemma_below_zero_is_negative(bits: u64)
    ensures
        below_zero(rank_spec(bits)) == encoded_greater(0, bits),
        rank_spec(0) == Some(zero_rank()),
{
    lemma_rank_order_is_number_order(0, bits);
}

} // verus!
