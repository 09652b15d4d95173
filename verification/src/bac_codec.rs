//! What the encoder and the decoder share: the interval, the context, and
//! the arithmetic that narrows an interval for a symbol and widens it again
//! by shifting out the leading bits that its bounds have in common.

use crate::error::CodingError;
use vstd::arithmetic::power2::*;
use vstd::prelude::*;

verus! {

/// The coding interval: `ln` is its low bound, `un` its high bound, both
/// inclusive.
#[derive(Clone, Copy, Debug, PartialEq, Eq, Structural)]
pub struct BACState {
    pub ln: u64,
    pub un: u64,
}

/// A binary probability model for one symbol: which symbol is the more
/// probable one, and how often it was seen among all symbols seen.
#[derive(Clone, Copy, Debug)]
pub struct ContextInfo {
    pub mps: bool,
    pub count_mps: u64,
    pub total_count: u64,
}

impl ContextInfo {
    /// Both symbols have been seen: `0 < count_mps < total_count`.
    pub open spec fn valid(&self) -> bool {
        0 < self.count_mps < self.total_count
    }
}

/// How many values of the interval `[low, high]` fall to the most probable
/// symbol: the interval's width times `count_mps / total_count`, rounded
/// down. They are the lowest values of the interval.
pub open spec fn mps_share(low: int, high: int, c: ContextInfo) -> int {
    ((high - low + 1) * c.count_mps) / (c.total_count as int)
}

/// The low bound of the part of `[low, high]` that falls to a symbol.
pub open spec fn narrowed_low(low: int, high: int, is_mps: bool, c: ContextInfo) -> int {
    if is_mps {
        low
    } else {
        low + mps_share(low, high, c)
    }
}

/// The high bound of the part of `[low, high]` that falls to a symbol.
pub open spec fn narrowed_high(low: int, high: int, is_mps: bool, c: ContextInfo) -> int {
    if is_mps {
        low + mps_share(low, high, c) - 1
    } else {
        high
    }
}

/// Why `[low, high]` cannot be narrowed for a symbol, if it cannot: the
/// context is not valid, or no value of the interval falls to the symbol.
pub open spec fn narrow_refusal(low: int, high: int, is_mps: bool, c: ContextInfo) -> Option<
    CodingError,
> {
    if !c.valid() {
        Some(CodingError::InvalidContext)
    } else if is_mps && mps_share(low, high, c) == 0 {
        Some(CodingError::EmptyInterval)
    } else {
        None
    }
}

/// The most probable symbol gets less than the whole interval, so the other
/// symbol always keeps at least one value.
pub proof fn lemma_mps_share_bounds(low: int, high: int, c: ContextInfo)
    requires
        low <= high,
        c.valid(),
    ensures
        0 <= mps_share(low, high, c) <= high - low,
{
    let width = high - low + 1;
    let cm = c.count_mps as int;
    let ct = c.total_count as int;
    assert(0 <= width * cm < width * ct) by (nonlinear_arith)
        requires
            width > 0,
            0 < cm < ct,
    ;
    assert((width * cm) / ct < width) by (nonlinear_arith)
        requires
            0 <= width * cm < width * ct,
            ct > 0,
    ;
    assert(0 <= (width * cm) / ct) by (nonlinear_arith)
        requires
            0 <= width * cm,
            ct > 0,
    ;
}

/// Narrows `[low, high]` to the part that falls to a symbol: the lowest
/// `mps_share` values for the most probable symbol, the rest for the other.
/// Returns the new bounds and the share. Refuses a context that is not
/// valid, and an interval in which no value falls to the symbol.
pub fn narrow_interval(
    low: u64,
    high: u64,
    symbol_is_most_probable: bool,
    context: &ContextInfo,
) -> (r: Result<(u64, u64, u64), CodingError>)
    requires
        low <= high,
    ensures
        match r {
            Ok((new_low, new_high, share)) => {
                &&& narrow_refusal(low as int, high as int, symbol_is_most_probable, *context)
                    is None
                &&& share == mps_share(low as int, high as int, *context)
                &&& new_low == narrowed_low(
                    low as int,
                    high as int,
                    symbol_is_most_probable,
                    *context,
                )
                &&& new_high == narrowed_high(
                    low as int,
                    high as int,
                    symbol_is_most_probable,
                    *context,
                )
                &&& low <= new_low <= new_high <= high
            },
            Err(e) => narrow_refusal(low as int, high as int, symbol_is_most_probable, *context)
                == Some(e),
        },
{
    if context.count_mps == 0 || context.count_mps >= context.total_count {
        return Err(CodingError::InvalidContext);
    }
    let width: u128 = (high - low) as u128 + 1;
    let count: u128 = context.count_mps as u128;
    let total: u128 = context.total_count as u128;
    proof {
        lemma_mps_share_bounds(low as int, high as int, *context);
        assert(width * count <= 0xFFFF_FFFF_FFFF_FFFF_0000_0000_0000_0000) by (nonlinear_arith)
            requires
                0 <= width <= 0x1_0000_0000_0000_0000,
                0 <= count <= 0xFFFF_FFFF_FFFF_FFFF,
        ;
    }
    let share: u64 = ((width * count) / total) as u64;
    if symbol_is_most_probable {
        if share == 0 {
            return Err(CodingError::EmptyInterval);
        }
        Ok((low, low + share - 1, share))
    } else {
        Ok((low + share, high, share))
    }
}

/// Where the decoder's tag lies in `[low, high]`, on the context's scale
/// of `0..total_count`.
pub open spec fn tag_position(low: int, high: int, tag: int, c: ContextInfo) -> int {
    ((tag - low + 1) * c.total_count - 1) / (high - low + 1)
}

/// Whether the tag stands for the most probable symbol.
pub open spec fn tag_selects_mps(low: int, high: int, tag: int, c: ContextInfo) -> bool {
    tag_position(low, high, tag, c) < c.count_mps
}

/// A tag inside the interval selects the most probable symbol exactly when
/// it is one of the values that narrowing gives to that symbol. So the
/// decoder never finds the part it narrows to empty, and its tag lies in
/// that part.
pub proof fn lemma_tag_selects(low: int, high: int, tag: int, c: ContextInfo)
    requires
        low <= tag <= high,
        c.valid(),
    ensures
        0 <= tag_position(low, high, tag, c) < c.total_count,
        tag_selects_mps(low, high, tag, c) <==> tag < low + mps_share(low, high, c),
        narrow_refusal(low, high, tag_selects_mps(low, high, tag, c), c) is None,
        narrowed_low(low, high, tag_selects_mps(low, high, tag, c), c) <= tag <= narrowed_high(
            low,
            high,
            tag_selects_mps(low, high, tag, c),
            c,
        ),
{
    let width = high - low + 1;
    let cm = c.count_mps as int;
    let ct = c.total_count as int;
    let d = tag - low + 1;
    let n = d * ct - 1;
    let q = n / width;
    let x = width * cm;
    let share = x / ct;
    assert(0 <= n < width * ct) by (nonlinear_arith)
        requires
            1 <= d <= width,
            ct > 0,
            n == d * ct - 1,
    ;
    vstd::arithmetic::div_mod::lemma_fundamental_div_mod(n, width);
    vstd::arithmetic::div_mod::lemma_mod_bound(n, width);
    vstd::arithmetic::div_mod::lemma_fundamental_div_mod(x, ct);
    vstd::arithmetic::div_mod::lemma_mod_bound(x, ct);
    let r = n % width;
    let s = x % ct;
    assert(0 <= q < ct) by (nonlinear_arith)
        requires
            n == width * q + r,
            0 <= r < width,
            0 <= n < width * ct,
    ;
    assert((q < cm) <==> (n < x)) by (nonlinear_arith)
        requires
            n == width * q + r,
            0 <= r < width,
            x == width * cm,
    ;
    assert((d <= share) <==> (d * ct <= x)) by (nonlinear_arith)
        requires
            x == ct * share + s,
            0 <= s < ct,
    ;
    lemma_mps_share_bounds(low, high, c);
}

/// The leading bit of `x`, where `half` is the weight of that bit.
pub open spec fn top_bit(x: int, half: int) -> bool {
    x >= half
}

/// `x` with its leading bit shifted out and a zero shifted in.
pub open spec fn shifted(x: int, half: int) -> int {
    if x >= half {
        2 * (x - half)
    } else {
        2 * x
    }
}

/// Whether the bounds of a proper interval have their leading bit in
/// common, so that the bit can be shifted out.
pub open spec fn shares_top_bit(low: int, high: int, half: int) -> bool {
    &&& 0 <= low <= high < 2 * half
    &&& top_bit(low, half) == top_bit(high, half)
}

/// An interval after its common leading bits were shifted out, and those
/// bits in the order in which they left.
pub struct Renormalized {
    pub low: int,
    pub high: int,
    pub bits: Seq<bool>,
}

/// Shifts out the leading bit of both bounds for as long as they have it in
/// common. Each shift brings a zero into `low` and a one into `high`, which
/// doubles the interval's width.
pub open spec fn renormalize(low: int, high: int, half: int) -> Renormalized
    decreases 2 * half - (high - low),
{
    if shares_top_bit(low, high, half) {
        let rest = renormalize(shifted(low, half), shifted(high, half) + 1, half);
        Renormalized { low: rest.low, high: rest.high, bits: seq![top_bit(low, half)] + rest.bits }
    } else {
        Renormalized { low, high, bits: Seq::empty() }
    }
}

/// The decoder's tag after the shifts of `renormalize`: each shift drops
/// the tag's leading bit and brings in the next bit of `input`. Where
/// `input` runs out before the shifts do, the tag stays as the last bit
/// left it.
pub open spec fn renormalize_tag(low: int, high: int, tag: int, input: Seq<bool>, half: int) -> int
    decreases 2 * half - (high - low),
{
    if shares_top_bit(low, high, half) && input.len() > 0 {
        renormalize_tag(
            shifted(low, half),
            shifted(high, half) + 1,
            shifted(tag, half) + if input[0] { 1int } else { 0int },
            input.skip(1),
            half,
        )
    } else {
        tag
    }
}

/// What renormalizing leaves is a proper interval whose bounds differ in
/// their leading bit, and the number of shifts it took is at most the
/// number of bits of the interval's precision: each shift doubles the
/// width, which never exceeds `2^m`.
pub proof fn lemma_renormalize(low: int, high: int, m: nat)
    requires
        m >= 1,
        0 <= low <= high < pow2(m),
    ensures
        ({
            let r = renormalize(low, high, pow2((m - 1) as nat) as int);
            &&& 0 <= r.low < pow2((m - 1) as nat) <= r.high < pow2(m)
            &&& !shares_top_bit(r.low, r.high, pow2((m - 1) as nat) as int)
            &&& r.bits.len() <= m
            &&& (high - low + 1) * pow2(r.bits.len()) == r.high - r.low + 1
        }),
    decreases pow2(m) - (high - low),
{
    let half = pow2((m - 1) as nat) as int;
    lemma_pow2_unfold(m);
    lemma2_to64();
    let r = renormalize(low, high, half);
    if shares_top_bit(low, high, half) {
        let l1 = shifted(low, half);
        let u1 = shifted(high, half) + 1;
        lemma_renormalize(l1, u1, m);
        let rest = renormalize(l1, u1, half);
        assert(r.bits.len() == rest.bits.len() + 1);
        lemma_pow2_unfold(r.bits.len());
        assert((high - low + 1) * pow2(r.bits.len()) == (u1 - l1 + 1) * pow2(rest.bits.len()))
            by (nonlinear_arith)
            requires
                u1 - l1 + 1 == 2 * (high - low + 1),
                pow2(r.bits.len()) == 2 * pow2(rest.bits.len()),
        ;
    }
    let count = r.bits.len();
    if count > m {
        lemma_pow2_strictly_increases(m, count);
        assert((high - low + 1) * pow2(count) >= pow2(count)) by (nonlinear_arith)
            requires
                high - low + 1 >= 1,
                pow2(count) >= 0,
        ;
    }
}

/// The masks of an `m`-bit interval: `msb_mask` selects the leading bit and
/// `valid_bits_mask` all `m` bits.
pub open spec fn masks_fit(m: u64, msb_mask: u64, valid_bits_mask: u64) -> bool {
    &&& 1 <= m <= 63
    &&& msb_mask == pow2((m - 1) as nat)
    &&& valid_bits_mask == pow2(m as nat) - 1
}

/// The masks for a precision of `m` bits.
pub(crate) fn make_masks(m: u64) -> (r: (u64, u64))
    requires
        1 <= m <= 63,
    ensures
        masks_fit(m, r.0, r.1),
{
    proof {
        lemma_masks_as_shifts(m);
    }
    (1u64 << (m - 1), (1u64 << m) - 1)
}

/// The powers of two behind the masks, written as shifts.
pub proof fn lemma_masks_as_shifts(m: u64)
    requires
        1 <= m <= 63,
    ensures
        (1u64 << ((m - 1) as u64)) == pow2((m - 1) as nat),
        (1u64 << m) == pow2(m as nat),
        pow2(m as nat) == 2 * pow2((m - 1) as nat),
        0 < pow2((m - 1) as nat),
        pow2(m as nat) <= 0x8000_0000_0000_0000,
{
    lemma2_to64_rest();
    lemma_pow2_unfold(m as nat);
    lemma_pow2_pos((m - 1) as nat);
    if m < 63 {
        lemma_pow2_strictly_increases(m as nat, 63);
    }
    vstd::bits::lemma_u64_shl_is_mul(1, (m - 1) as u64);
    vstd::bits::lemma_u64_shl_is_mul(1, m);
}

/// What the mask operations on a bound of an `m`-bit interval compute:
/// testing against `msb_mask` reads the leading bit, and shifting left under
/// `valid_bits_mask` shifts that bit out.
pub proof fn lemma_mask_operations(x: u64, m: u64, msb_mask: u64, valid_bits_mask: u64)
    requires
        masks_fit(m, msb_mask, valid_bits_mask),
        x <= valid_bits_mask,
    ensures
        ((x & msb_mask) != 0) == top_bit(x as int, msb_mask as int),
        ((x << 1) & valid_bits_mask) == shifted(x as int, msb_mask as int),
        shifted(x as int, msb_mask as int) + 1 <= valid_bits_mask,
{
    lemma_masks_as_shifts(m);
    let lead: u64 = (m - 1) as u64;
    assert(((x & msb_mask) != 0) == (x >= msb_mask) && ((x << 1) & valid_bits_mask) == (if x
        >= msb_mask {
        2 * (x - msb_mask)
    } else {
        2 * x
    })) by (bit_vector)
        requires
            lead < 63,
            msb_mask == 1u64 << lead,
            valid_bits_mask == (1u64 << (lead + 1) as u64) - 1,
            x <= valid_bits_mask,
    ;
}

} // verus!
