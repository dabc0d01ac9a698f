use vstd::prelude::*;

verus! {

/// Bit `63` of a binary64 encoding: the sign.
pub open spec fn sign_bit() -> int {
    0x8000_0000_0000_0000
}

/// The encoding of positive infinity, the largest magnitude that is a number.
pub open spec fn infinity_magnitude() -> int {
    0x7FF0_0000_0000_0000
}

/// The low 63 bits of a binary64 encoding: exponent and fraction.
pub open spec fn magnitude(bits: u64) -> int {
    bits as int % sign_bit()
}

/// Whether the encoding has its sign bit set.
pub open spec fn is_negative(bits: u64) -> bool {
    bits as int >= sign_bit()
}

/// Whether the encoding is a NaN: all exponent bits set and a fraction that
/// is not zero, which is a magnitude above that of infinity.
pub open spec fn is_nan(bits: u64) -> bool {
    magnitude(bits) > infinity_magnitude()
}

/// The position of a binary64 number on the number line, as a signed
/// magnitude. IEEE 754 encodes numbers of one sign in the order of their
/// magnitude bits, and both zeros are equal: so for two encodings that are
/// not NaN, `a < b` holds of the numbers exactly when it holds of their
/// signed magnitudes.
pub open spec fn signed_magnitude(bits: u64) -> int {
    if is_negative(bits) {
        -magnitude(bits)
    } else {
        magnitude(bits)
    }
}

/// IEEE 754 `a > b` on two encodings: false when either is NaN, else the
/// order of the signed magnitudes.
pub open spec fn encoded_greater(a: u64, b: u64) -> bool {
    !is_nan(a) && !is_nan(b) && signed_magnitude(a) > signed_magnitude(b)
}

/// The rank of an encoding: `None` for a NaN, which compares with nothing;
/// else its signed magnitude shifted to be non-negative.
pub open spec fn rank_spec(bits: u64) -> Option<u64> {
    if is_nan(bits) {
        None
    } else {
        Some((sign_bit() + signed_magnitude(bits)) as u64)
    }
}

/// `a > b` on ranks: false when either is unranked.
pub open spec fn rank_greater(a: Option<u64>, b: Option<u64>) -> bool {
    match (a, b) {
        (Some(p), Some(q)) => p > q,
        _ => false,
    }
}

/// The rank of the number whose binary64 encoding is `bits` (the result of
/// `to_bits`): ranks are ordered as the numbers are, equal numbers (both
/// zeros among them) get equal ranks, and a NaN gets none.
pub fn rank_of_bits(bits: u64) -> (r: Option<u64>)
    ensures
        r == rank_spec(bits),
        r is None <==> bits % 0x8000_0000_0000_0000 > 0x7FF0_0000_0000_0000,
{
    let magnitude: u64 = bits % 0x8000_0000_0000_0000u64;
    if magnitude > 0x7FF0_0000_0000_0000u64 {
        None
    } else if bits >= 0x8000_0000_0000_0000u64 {
        Some(0x8000_0000_0000_0000u64 - magnitude)
    } else {
        Some(0x8000_0000_0000_0000u64 + magnitude)
    }
}

/// Whether rank `a` lies strictly above rank `b`; false when either is
/// unranked, as every comparison with a NaN is.
pub fn ranked_above(a: Option<u64>, b: Option<u64>) -> (r: bool)
    ensures
        r == rank_greater(a, b),
        r == (a is Some && b is Some && a->0 > b->0),
{
    match (a, b) {
        (Some(p), Some(q)) => p > q,
        _ => false,
    }
}

/// Comparing ranks is comparing the numbers: `rank(a) > rank(b)` exactly
/// when IEEE 754 says `a > b`, for every pair of encodings, NaNs included.
pub proof fn lemma_rank_order_is_number_order(a: u64, b: u64)
    ensures
        rank_greater(rank_spec(a), rank_spec(b)) == encoded_greater(a, b),
{
}

/// Two encodings that are not NaN get the same rank exactly when they encode
/// the same number; in particular `+0` and `-0` share a rank.
pub proof fn lemma_rank_equality_is_number_equality(a: u64, b: u64)
    requires
        !is_nan(a),
        !is_nan(b),
    ensures
        (rank_spec(a) == rank_spec(b)) == (signed_magnitude(a) == signed_magnitude(b)),
{
}

/// Position `i` holds the lowest rank of the buffer (unranked entries
/// aside), and no earlier position holds it too.
pub open spec fn first_lowest(ranks: Seq<Option<u64>>, i: int) -> bool {
    &&& 0 <= i < ranks.len()
    &&& ranks[i] is Some
    &&& forall|j: int| 0 <= j < ranks.len() ==> !rank_greater(ranks[i], #[trigger] ranks[j])
    &&& forall|j: int| 0 <= j < i ==> rank_greater(#[trigger] ranks[j], ranks[i]) || ranks[j] is None
}

/// Position `i` holds the highest rank of the buffer (unranked entries
/// aside), and no earlier position holds it too.
pub open spec fn first_highest(ranks: Seq<Option<u64>>, i: int) -> bool {
    &&& 0 <= i < ranks.len()
    &&& ranks[i] is Some
    &&& forall|j: int| 0 <= j < ranks.len() ==> !rank_greater(#[trigger] ranks[j], ranks[i])
    &&& forall|j: int| 0 <= j < i ==> rank_greater(ranks[i], #[trigger] ranks[j]) || ranks[j] is None
}

/// Whether any entry of the buffer is ranked.
pub open spec fn any_ranked(ranks: Seq<Option<u64>>) -> bool {
    exists|j: int| 0 <= j < ranks.len() && #[trigger] ranks[j] is Some
}

/// The positions of the lowest and of the highest rank (the first of each
/// when several cells share it), unranked entries aside: `None` for both
/// when no entry is ranked, as when the buffer is empty or holds only NaNs.
pub fn extreme_positions(ranks: &Vec<Option<u64>>) -> (r: (Option<usize>, Option<usize>))
    ensures
        r.0 is Some <==> any_ranked(ranks@),
        r.1 is Some <==> any_ranked(ranks@),
        r.0 matches Some(i) ==> first_lowest(ranks@, i as int),
        r.1 matches Some(i) ==> first_highest(ranks@, i as int),
{
    let mut low: Option<usize> = None;
    let mut high: Option<usize> = None;
    let mut k: usize = 0;
    while k < ranks.len()
        invariant
            k <= ranks@.len(),
            low is Some <==> any_ranked(ranks@.take(k as int)),
            high is Some <==> any_ranked(ranks@.take(k as int)),
            low matches Some(i) ==> first_lowest(ranks@.take(k as int), i as int),
            high matches Some(i) ==> first_highest(ranks@.take(k as int), i as int),
        decreases ranks@.len() - k,
    {
        let ghost before = ranks@.take(k as int);
        let ghost now = ranks@.take(k + 1);
        assert(now == before.push(ranks@[k as int]));
        let current = ranks[k];
        if let Some(_) = current {
            let new_low = match low {
                None => true,
                Some(i) => ranked_above(ranks[i], current),
            };
            if new_low {
                low = Some(k);
            }
            let new_high = match high {
                None => true,
                Some(i) => ranked_above(current, ranks[i]),
            };
            if new_high {
                high = Some(k);
            }
            assert(now[k as int] is Some);
        } else {
            assert forall|j: int| 0 <= j < now.len() && #[trigger] now[j] is Some implies 0 <= j
                < before.len() && before[j] is Some by {
                assert(j != k);
            }
        }
        k += 1;
    }
    assert(ranks@.take(ranks@.len() as int) == ranks@);
    (low, high)
}

/// Ranks order the encodings of numbers as IEEE 754 orders the numbers:
/// with the sign bit read as a sign and the low 63 bits as a magnitude
/// (so that `+0` and `-0` are both zero), one rank lies above another
/// exactly when its signed magnitude is greater, and two ranks are equal
/// exactly when the signed magnitudes are. NaN encodings (a magnitude above
/// that of infinity) get no rank.
pub proof fn lemma_ranks_follow_signed_magnitudes(a: u64, b: u64)
    ensures
        a % 0x8000_0000_0000_0000 > 0x7FF0_0000_0000_0000 ==> rank_spec(a) is None,
        a % 0x8000_0000_0000_0000 <= 0x7FF0_0000_0000_0000 && b % 0x8000_0000_0000_0000
            <= 0x7FF0_0000_0000_0000 ==> ({
            let sa: int = if a >= 0x8000_0000_0000_0000 {
                -(a % 0x8000_0000_0000_0000)
            } else {
                (a % 0x8000_0000_0000_0000) as int
            };
            let sb: int = if b >= 0x8000_0000_0000_0000 {
                -(b % 0x8000_0000_0000_0000)
            } else {
                (b % 0x8000_0000_0000_0000) as int
            };
            &&& rank_spec(a) is Some
            &&& rank_spec(b) is Some
            &&& (rank_spec(a)->0 > rank_spec(b)->0 <==> sa > sb)
            &&& (rank_spec(a)->0 == rank_spec(b)->0 <==> sa == sb)
        }),
{
}

} // verus!
