//! The order on `f32` scores, computed from their bit patterns.
//!
//! A binary32 pattern is NaN when its exponent bits are all set and its
//! mantissa is not zero, that is when its magnitude (the pattern without the
//! sign bit) exceeds `0x7f80_0000`, the pattern of `+inf`. For every other
//! pattern the float order is the order of the signed magnitudes, with
//! `-0.0` and `+0.0` equal. The key below maps a pattern to that signed
//! magnitude and sends every NaN below all other keys.
use crate::error::VecNormError;
use std::cmp::Ordering;
use vstd::prelude::*;

verus! {

/// The key given to every NaN: below the key of `-inf`, `-0x7f80_0000`.
pub const NAN_KEY: i64 = -0x8000_0000;

/// Whether a binary32 bit pattern encodes a NaN.
pub open spec fn spec_is_nan(bits: u32) -> bool {
    bits % 0x8000_0000 > 0x7f80_0000
}

/// The total-order key of a binary32 bit pattern: the signed magnitude for
/// numbers and infinities, `NAN_KEY` for every NaN.
pub open spec fn spec_key(bits: u32) -> int {
    if spec_is_nan(bits) {
        NAN_KEY as int
    } else if bits >= 0x8000_0000 {
        -((bits % 0x8000_0000) as int)
    } else {
        bits as int
    }
}

/// IEEE `a > b` on two bit patterns: false whenever either side is NaN.
pub open spec fn spec_score_gt(a: u32, b: u32) -> bool {
    !spec_is_nan(a) && !spec_is_nan(b) && spec_key(a) > spec_key(b)
}

/// Computes the order key of a score.
pub fn score_key(bits: u32) -> (key: i64)
    ensures
        key == spec_key(bits),
        spec_is_nan(bits) ==> key == NAN_KEY,
        !spec_is_nan(bits) ==> -0x7f80_0000 <= key <= 0x7f80_0000,
{
    let magnitude: u32 = bits % 0x8000_0000;
    if magnitude > 0x7f80_0000 {
        NAN_KEY
    } else if bits >= 0x8000_0000 {
        -(magnitude as i64)
    } else {
        magnitude as i64
    }
}

/// IEEE `a > b` on two scores given as bit patterns.
pub fn score_gt(a: u32, b: u32) -> (gt: bool)
    ensures
        gt == spec_score_gt(a, b),
{
    let ka = score_key(a);
    let kb = score_key(b);
    ka != NAN_KEY && kb != NAN_KEY && ka > kb
}

/// The total order on scores used by top-k selection: numeric order, NaN
/// below everything, two NaNs equal.
pub fn ord_float_cmp(a: u32, b: u32) -> (ord: Ordering)
    ensures
        (ord == Ordering::Less) == (spec_key(a) < spec_key(b)),
        (ord == Ordering::Equal) == (spec_key(a) == spec_key(b)),
        (ord == Ordering::Greater) == (spec_key(a) > spec_key(b)),
{
    let ka = score_key(a);
    let kb = score_key(b);
    if ka < kb {
        Ordering::Less
    } else if ka == kb {
        Ordering::Equal
    } else {
        Ordering::Greater
    }
}

/// `i` is the position that a left-to-right scan keeping the first strictly
/// greater score (IEEE `>`) ends on: position 0 when the first score is NaN,
/// else the first position of the largest non-NaN score.
pub open spec fn is_argmax(s: Seq<u32>, i: int) -> bool {
    &&& 0 <= i < s.len()
    &&& if spec_is_nan(s[0]) {
        i == 0
    } else {
        &&& !spec_is_nan(s[i])
        &&& forall|j: int| 0 <= j < s.len() && !spec_is_nan(#[trigger] s[j]) ==> spec_key(s[j]) <= spec_key(s[i])
        &&& forall|j: int| 0 <= j < i && !spec_is_nan(#[trigger] s[j]) ==> spec_key(s[j]) < spec_key(s[i])
    }
}

/// Single argmax: the position and score of the largest element, ties broken
/// by the lowest position. An empty input is refused with `KZero`.
pub fn argmax(scores: &Vec<u32>) -> (res: Result<(usize, u32), VecNormError>)
    ensures
        scores@.len() == 0 <==> res is Err,
        res is Err ==> res == Err::<(usize, u32), VecNormError>(VecNormError::KZero),
        res matches Ok((i, v)) ==> is_argmax(scores@, i as int) && v == scores@[i as int],
{
    if scores.len() == 0 {
        return Err(VecNormError::KZero);
    }
    let mut best_i: usize = 0;
    let mut best_v: u32 = scores[0];
    let mut i: usize = 1;
    while i < scores.len()
        invariant
            1 <= i <= scores@.len(),
            best_i < i,
            best_v == scores@[best_i as int],
            spec_is_nan(scores@[0]) ==> best_i == 0,
            !spec_is_nan(scores@[0]) ==> {
                &&& !spec_is_nan(best_v)
                &&& forall|j: int| 0 <= j < i && !spec_is_nan(#[trigger] scores@[j]) ==> spec_key(scores@[j]) <= spec_key(best_v)
                &&& forall|j: int| 0 <= j < best_i && !spec_is_nan(#[trigger] scores@[j]) ==> spec_key(scores@[j]) < spec_key(best_v)
            },
        decreases scores@.len() - i,
    {
        let v = scores[i];
        if score_gt(v, best_v) {
            best_v = v;
            best_i = i;
        }
        i = i + 1;
    }
    Ok((best_i, best_v))
}

/// NaN is what IEEE-754 says it is: an all-ones exponent field and a
/// non-zero mantissa field.
pub proof fn lemma_nan_is_ieee_nan(bits: u32)
    ensures
        spec_is_nan(bits) <==> ((bits / 0x80_0000) % 0x100 == 0xff && bits % 0x80_0000 != 0),
{
}

/// Among scores with the sign bit clear (`+0.0` up to `+inf`), a larger bit
/// pattern is a larger float, and gets a strictly larger key.
pub proof fn lemma_key_increases_on_positive(a: u32, b: u32)
    requires
        a < b <= 0x7f80_0000,
    ensures
        spec_key(a) < spec_key(b),
{
}

/// Among scores with the sign bit set (`-0.0` down to `-inf`), a larger bit
/// pattern is a larger magnitude, a smaller float, and gets a strictly
/// smaller key.
pub proof fn lemma_key_decreases_on_negative(a: u32, b: u32)
    requires
        0x8000_0000 <= a < b <= 0xff80_0000,
    ensures
        spec_key(b) < spec_key(a),
{
}

/// Every negative non-zero score keys below both zeros, the two zeros key
/// equal, and every positive non-zero score keys above them.
pub proof fn lemma_key_signs(a: u32)
    ensures
        spec_key(0x8000_0000) == spec_key(0),
        0x8000_0000 < a <= 0xff80_0000 ==> spec_key(a) < spec_key(0),
        0 < a <= 0x7f80_0000 ==> spec_key(0) < spec_key(a),
{
}

/// Every NaN keys strictly below every other score, and all NaNs key equal.
pub proof fn lemma_key_nan_lowest(a: u32, b: u32)
    requires
        (a / 0x80_0000) % 0x100 == 0xff && a % 0x80_0000 != 0,
    ensures
        (b / 0x80_0000) % 0x100 == 0xff && b % 0x80_0000 != 0 ==> spec_key(a) == spec_key(b),
        !((b / 0x80_0000) % 0x100 == 0xff && b % 0x80_0000 != 0) ==> spec_key(a) < spec_key(b),
{
}

/// Two non-NaN scores with the same key are the same score, or the two
/// zeros.
pub proof fn lemma_key_injective(a: u32, b: u32)
    requires
        !spec_is_nan(a),
        !spec_is_nan(b),
        spec_key(a) == spec_key(b),
    ensures
        a == b || (a % 0x8000_0000 == 0 && b % 0x8000_0000 == 0),
{
    lemma_nan_is_ieee_nan(a);
    lemma_nan_is_ieee_nan(b);
    if a != b && !(a % 0x8000_0000 == 0 && b % 0x8000_0000 == 0) {
        let (lo, hi) = if a < b { (a, b) } else { (b, a) };
        if hi <= 0x7f80_0000 {
            lemma_key_increases_on_positive(lo, hi);
        } else if lo >= 0x8000_0000 {
            lemma_key_decreases_on_negative(lo, hi);
        } else {
            lemma_key_signs(lo);
            lemma_key_signs(hi);
        }
    }
}

/// The argmax score is no smaller, as a float, than any positive score of
/// the row: it is positive too, its pattern is at least theirs, and strictly
/// greater than that of any earlier one. So an argmax is never a negative
/// score while a positive one is in the row.
pub proof fn lemma_argmax_holds_largest(s: Seq<u32>, i: int, j: int)
    requires
        is_argmax(s, i),
        0 <= j < s.len(),
        0 < s[j] <= 0x7f80_0000,
        !spec_is_nan(s[0]),
    ensures
        s[i] <= 0x7f80_0000,
        s[j] <= s[i],
        j < i ==> s[j] < s[i],
{
    if s[i] > 0x7f80_0000 {
        lemma_key_signs(s[i]);
        lemma_key_signs(s[j]);
    } else if s[i] < s[j] {
        lemma_key_increases_on_positive(s[i], s[j]);
    } else if j < i && s[i] == s[j] {
    }
}

} // verus!
