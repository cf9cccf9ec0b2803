//! Scores as IEEE-754 single-precision bit patterns.
//!
//! The selection logic only ever compares scores, so a score is held as the
//! `u32` bit pattern of its float (`f32::to_bits`). The comparisons below give
//! on bit patterns what `<` and `>` give on the floats: a NaN compares false
//! with everything and the two zeros are equal.
use vstd::arithmetic::power2::{lemma_pow2_pos, lemma_pow2_strictly_increases, lemma_pow2_unfold, pow2};
use vstd::prelude::*;

verus! {

/// Bit pattern of negative infinity.
pub const NEG_INFINITY: u32 = 0xFF80_0000;

/// True iff the bit pattern is a NaN: the magnitude exceeds that of infinity.
pub open spec fn is_nan(bits: u32) -> bool {
    bits % 0x8000_0000 > 0x7F80_0000
}

/// Signed magnitude of a bit pattern. On patterns that are not NaN it orders
/// them as the floats they encode are ordered.
pub open spec fn score_key(bits: u32) -> int {
    if bits < 0x8000_0000 {
        bits as int
    } else {
        0x8000_0000 - bits
    }
}

/// The float comparison `a > b`.
pub open spec fn score_gt(a: u32, b: u32) -> bool {
    !is_nan(a) && !is_nan(b) && score_key(a) > score_key(b)
}

/// Key by which results are ranked: the score's own key, with every NaN below
/// negative infinity.
pub open spec fn rank_key(bits: u32) -> int {
    if is_nan(bits) {
        -0x8000_0000
    } else {
        score_key(bits)
    }
}

/// True iff no score of the row is a NaN.
pub open spec fn nan_free(row: Seq<u32>) -> bool {
    forall|i: int| 0 <= i < row.len() ==> !is_nan(#[trigger] row[i])
}

/// True iff no allowed slot of the row scores NaN.
pub open spec fn allowed_nan_free(row: Seq<u32>, allowed: Seq<bool>) -> bool {
    forall|slot: int| 0 <= slot < row.len() && #[trigger] allowed[slot] ==> !is_nan(row[slot])
}

/// Whether `bits` encodes a NaN.
pub fn bits_are_nan(bits: u32) -> (b: bool)
    ensures
        b == is_nan(bits),
{
    bits % 0x8000_0000 > 0x7F80_0000
}

/// The signed magnitude of `bits`.
fn key_of(bits: u32) -> (key: i64)
    ensures
        key == score_key(bits),
{
    if bits < 0x8000_0000 {
        bits as i64
    } else {
        0x8000_0000i64 - bits as i64
    }
}

/// The float comparison `a > b` on bit patterns.
pub fn bits_gt(a: u32, b: u32) -> (r: bool)
    ensures
        r == score_gt(a, b),
{
    !bits_are_nan(a) && !bits_are_nan(b) && key_of(a) > key_of(b)
}

/// The ranking key of `bits`.
pub fn rank_key_of(bits: u32) -> (key: i64)
    ensures
        key == rank_key(bits),
{
    if bits_are_nan(bits) {
        -0x8000_0000i64
    } else {
        key_of(bits)
    }
}

/// Bit pattern of the largest finite score.
pub const LARGEST: u32 = 0x7F7F_FFFF;

/// Bit pattern of the smallest finite score.
pub const SMALLEST: u32 = 0xFF7F_FFFF;

/// The running minimum of a sequence of values, from `start` on: a value takes
/// over when it is less than the minimum so far.
pub open spec fn lowest(start: u32, values: Seq<u32>) -> u32
    decreases values.len(),
{
    if values.len() == 0 {
        start
    } else {
        let low = lowest(start, values.drop_last());
        if score_gt(low, values.last()) {
            values.last()
        } else {
            low
        }
    }
}

/// The running maximum of a sequence of values, from `start` on: a value takes
/// over when it is greater than the maximum so far.
pub open spec fn highest(start: u32, values: Seq<u32>) -> u32
    decreases values.len(),
{
    if values.len() == 0 {
        start
    } else {
        let high = highest(start, values.drop_last());
        if score_gt(values.last(), high) {
            values.last()
        } else {
            high
        }
    }
}

/// The running minimum and maximum of a sub-table, which start at the largest
/// and the smallest finite value.
pub fn sub_table_range(values: &[u32]) -> (range: (u32, u32))
    ensures
        range.0 == lowest(LARGEST, values@),
        range.1 == highest(SMALLEST, values@),
{
    let mut low: u32 = LARGEST;
    let mut high: u32 = SMALLEST;
    let mut i: usize = 0;
    assert(values@.take(0) == Seq::<u32>::empty());
    while i < values.len()
        invariant
            i <= values@.len(),
            low == lowest(LARGEST, values@.take(i as int)),
            high == highest(SMALLEST, values@.take(i as int)),
        decreases values@.len() - i,
    {
        let value: u32 = values[i];
        proof {
            assert(values@.take(i + 1).drop_last() == values@.take(i as int));
            assert(values@.take(i + 1).last() == value);
        }
        if bits_gt(low, value) {
            low = value;
        }
        if bits_gt(value, high) {
            high = value;
        }
        i += 1;
    }
    assert(values@.take(i as int) == values@);
    (low, high)
}

/// The range of a sub-table without NaN encloses every finite value of it.
pub proof fn law_range_encloses(values: Seq<u32>, i: int)
    requires
        nan_free(values),
        0 <= i < values.len(),
    ensures
        !is_nan(lowest(LARGEST, values)),
        !is_nan(highest(SMALLEST, values)),
        score_key(lowest(LARGEST, values)) <= score_key(values[i]),
        score_key(values[i]) <= score_key(highest(SMALLEST, values)),
    decreases values.len(),
{
    let init = values.drop_last();
    assert(forall|j: int| 0 <= j < init.len() ==> #[trigger] init[j] == values[j]);
    lemma_running_not_nan(init);
    assert(!is_nan(values[values.len() - 1]));
    if i < init.len() {
        law_range_encloses(init, i);
    }
}

/// The running minimum and maximum of values without NaN are no NaN.
proof fn lemma_running_not_nan(values: Seq<u32>)
    requires
        nan_free(values),
    ensures
        !is_nan(lowest(LARGEST, values)),
        !is_nan(highest(SMALLEST, values)),
    decreases values.len(),
{
    if values.len() > 0 {
        let init = values.drop_last();
        assert(forall|j: int| 0 <= j < init.len() ==> #[trigger] init[j] == values[j]);
        lemma_running_not_nan(init);
    }
}


/// A pattern is a NaN iff all bits of its exponent are set and not all bits of
/// its fraction are clear.
pub proof fn law_nan_patterns(bits: u32)
    ensures
        is_nan(bits) <==> bits & 0x7F80_0000 == 0x7F80_0000 && bits & 0x007F_FFFF != 0,
{
    assert((bits % 0x8000_0000 > 0x7F80_0000) == (bits & 0x7F80_0000 == 0x7F80_0000 && bits & 0x007F_FFFF != 0))
        by (bit_vector);
}

/// The comparison of patterns: it rises along the non-negative floats and falls
/// along the negative ones, every negative float is less than every positive one,
/// the two zeros are equal, and a NaN is neither less nor greater than anything.
pub proof fn law_score_order(a: u32, b: u32)
    ensures
        a < b <= 0x7F80_0000 ==> score_gt(b, a) && !score_gt(a, b),
        0x8000_0000 <= a < b <= 0xFF80_0000 ==> score_gt(a, b) && !score_gt(b, a),
        a <= 0x7F80_0000 && 0x8000_0000 < b <= 0xFF80_0000 ==> score_gt(a, b) && !score_gt(b, a),
        0 < a <= 0x7F80_0000 && b == 0x8000_0000 ==> score_gt(a, b) && !score_gt(b, a),
        a == 0 && b == 0x8000_0000 ==> !score_gt(a, b) && !score_gt(b, a),
        0x7F80_0000 < a < 0x8000_0000 || a > 0xFF80_0000 ==> !score_gt(a, b) && !score_gt(b, a),
        !score_gt(a, a),
{
}

/// The key of a score that is no NaN is zero for both zeros and orders scores as
/// the comparison does.
pub proof fn law_keys_order_scores(a: u32, b: u32)
    requires
        !is_nan(a),
        !is_nan(b),
    ensures
        score_key(a) > score_key(b) <==> score_gt(a, b),
        score_key(a) == score_key(b) <==> !score_gt(a, b) && !score_gt(b, a),
        score_key(a) == 0 <==> a == 0 || a == 0x8000_0000,
        a < b <= 0x7F80_0000 ==> score_key(a) < score_key(b),
        0x8000_0000 <= a < b <= 0xFF80_0000 ==> score_key(a) > score_key(b),
{
}

/// The ranking key orders scores as the comparison does and puts every NaN, all
/// of them alike, behind every other score.
pub proof fn law_rank_keys_order_scores(a: u32, b: u32)
    ensures
        rank_key(a) > rank_key(b) <==> score_gt(a, b) || (!is_nan(a) && is_nan(b)),
        is_nan(a) && is_nan(b) ==> rank_key(a) == rank_key(b),
{
}

/// Powers of two never fall.
proof fn lemma_pow2_grows(a: nat, b: nat)
    requires
        a <= b,
    ensures
        0 < pow2(a) <= pow2(b),
{
    lemma_pow2_pos(a);
    if a < b {
        lemma_pow2_strictly_increases(a, b);
    }
}

/// Patterns of non-negative floats are ordered as the numbers are that their
/// exponents and fractions encode.
proof fn lemma_magnitude_grows(a: u32, b: u32)
    requires
        a < b <= 0x7F80_0000,
    ensures
        ({
            let magnitude = |x: int|
                if x < 0x80_0000 {
                    x
                } else {
                    (0x80_0000 + x % 0x80_0000) * pow2((x / 0x80_0000 - 1) as nat)
                };
            0 <= magnitude(a as int) < magnitude(b as int)
        }),
{
    let (ea, ma) = (a as int / 0x80_0000, a as int % 0x80_0000);
    let (eb, mb) = (b as int / 0x80_0000, b as int % 0x80_0000);
    if a >= 0x80_0000 {
        let p = pow2((ea - 1) as nat) as int;
        let q = pow2((eb - 1) as nat) as int;
        lemma_pow2_grows((ea - 1) as nat, (eb - 1) as nat);
        if ea == eb {
            assert(0 <= (0x80_0000 + ma) * p < (0x80_0000 + mb) * p) by (nonlinear_arith)
                requires
                    0 <= ma < mb,
                    p > 0,
            ;
        } else {
            lemma_pow2_grows(ea as nat, (eb - 1) as nat);
            lemma_pow2_unfold(ea as nat);
            assert(0 <= (0x80_0000 + ma) * p < (0x80_0000 + mb) * q) by (nonlinear_arith)
                requires
                    0 <= ma < 0x80_0000,
                    0 <= mb,
                    2 * p <= q,
                    p > 0,
            ;
        }
    } else if b >= 0x80_0000 {
        let q = pow2((eb - 1) as nat) as int;
        lemma_pow2_pos((eb - 1) as nat);
        assert((0x80_0000 + mb) * q >= 0x80_0000) by (nonlinear_arith)
            requires
                0 <= mb,
                q > 0,
        ;
    }
}

/// The comparison is that of the numbers that the patterns encode. A pattern is a
/// sign, eight bits of exponent and 23 bits of fraction; the number is taken in
/// units of the least positive float, in which every finite float is whole, and
/// infinity exceeds all of them.
pub proof fn law_scores_compare_as_numbers(a: u32, b: u32)
    requires
        !is_nan(a),
        !is_nan(b),
    ensures
        ({
            let magnitude = |x: int|
                if x < 0x80_0000 {
                    x
                } else {
                    (0x80_0000 + x % 0x80_0000) * pow2((x / 0x80_0000 - 1) as nat)
                };
            let number = |x: u32|
                if x < 0x8000_0000 {
                    magnitude(x as int)
                } else {
                    -magnitude(x - 0x8000_0000)
                };
            score_gt(a, b) <==> number(a) > number(b)
        }),
{
    let x = if a < 0x8000_0000 {
        a
    } else {
        (a - 0x8000_0000) as u32
    };
    let y = if b < 0x8000_0000 {
        b
    } else {
        (b - 0x8000_0000) as u32
    };
    if x < y {
        lemma_magnitude_grows(x, y);
    } else if y < x {
        lemma_magnitude_grows(y, x);
    }
    if 0 < x {
        lemma_magnitude_grows(0, x);
    }
    if 0 < y {
        lemma_magnitude_grows(0, y);
    }
}

/// The lower end of a range is the least of the values and of the largest finite
/// score, the upper end the greatest of the values and of the smallest finite
/// score; a NaN is passed over.
pub proof fn law_range_is_attained(values: Seq<u32>)
    ensures
        ({
            let low = lowest(LARGEST, values);
            let high = highest(SMALLEST, values);
            &&& !is_nan(low) && !is_nan(high)
            &&& low == 0x7F7F_FFFF || values.contains(low)
            &&& high == 0xFF7F_FFFF || values.contains(high)
            &&& !score_gt(low, 0x7F7F_FFFF) && !score_gt(0xFF7F_FFFF, high)
            &&& forall|i: int|
                0 <= i < values.len() ==> !score_gt(low, #[trigger] values[i]) && !score_gt(values[i], high)
        }),
    decreases values.len(),
{
    if values.len() > 0 {
        let init = values.drop_last();
        let l = values.len() - 1;
        law_range_is_attained(init);
        let (low0, high0) = (lowest(LARGEST, init), highest(SMALLEST, init));
        assert(forall|j: int| 0 <= j < l ==> #[trigger] init[j] == values[j]);
        if init.contains(low0) {
            let j = choose|j: int| 0 <= j < init.len() && init[j] == low0;
            assert(values[j] == low0);
        }
        if init.contains(high0) {
            let j = choose|j: int| 0 <= j < init.len() && init[j] == high0;
            assert(values[j] == high0);
        }
        assert(values[l] == values.last());
        assert forall|i: int| 0 <= i < values.len() implies !score_gt(lowest(LARGEST, values), #[trigger] values[i])
            && !score_gt(values[i], highest(SMALLEST, values)) by {
            if i < l {
                assert(!score_gt(low0, init[i]) && !score_gt(init[i], high0));
            }
        }
    }
}

/// What it is to hold no NaN, in the whole row and in its allowed slots.
pub proof fn law_nan_free_rows(row: Seq<u32>, allowed: Seq<bool>)
    ensures
        nan_free(row) <==> forall|i: int|
            0 <= i < row.len() ==> #[trigger] row[i] % 0x8000_0000 <= 0x7F80_0000,
        allowed.len() == row.len() ==> (allowed_nan_free(row, allowed) <==> forall|i: int|
            0 <= i < row.len() && #[trigger] allowed[i] ==> row[i] % 0x8000_0000 <= 0x7F80_0000),
{
    if nan_free(row) {
        assert forall|i: int| 0 <= i < row.len() implies #[trigger] row[i] % 0x8000_0000 <= 0x7F80_0000 by {
            assert(!is_nan(row[i]));
        }
    }
}

/// Nothing is less than negative infinity, and only the infinities lie outside
/// the smallest and the largest finite score.
pub proof fn law_ends_of_scores(bits: u32)
    ensures
        !score_gt(NEG_INFINITY, bits),
        !is_nan(bits) && bits != NEG_INFINITY ==> score_gt(bits, NEG_INFINITY),
        score_gt(bits, LARGEST) <==> bits == 0x7F80_0000,
        score_gt(SMALLEST, bits) <==> bits == 0xFF80_0000,
{
}
} // verus!
