//! The encoder: it narrows its interval for each symbol and writes the bits
//! that renormalizing shifts out.

use crate::bac_codec::{
    lemma_mask_operations, lemma_masks_as_shifts, lemma_renormalize, make_masks, masks_fit,
    narrow_interval, narrow_refusal, narrowed_high, narrowed_low, renormalize, shares_top_bit,
    BACState, ContextInfo,
};
use crate::bits::bits_of;
use crate::bitstream::{Bitstream, BitstreamMode, MAX_BITS};
use crate::error::CodingError;
use vstd::arithmetic::power2::*;
use vstd::prelude::*;

verus! {

/// A binary arithmetic encoder with an interval of `m` bits.
#[derive(Clone, Copy, Debug, PartialEq, Eq, Structural)]
pub struct BACEncoder {
    pub m: u64,
    pub msb_mask: u64,
    pub valid_bits_mask: u64,
    pub state: BACState,
}

/// Why the encoder refuses a symbol, if it does: the stream has been
/// switched to reading, or the interval cannot be narrowed for the symbol.
pub open spec fn encode_refusal(
    low: int,
    high: int,
    symbol: bool,
    c: ContextInfo,
    mode: BitstreamMode,
) -> Option<CodingError> {
    if mode is Read {
        Some(CodingError::ReadOnly)
    } else {
        narrow_refusal(low, high, symbol == c.mps, c)
    }
}

impl BACEncoder {
    /// The masks belong to `m`, and the interval is a proper one of `m`
    /// bits.
    pub open spec fn wf(&self) -> bool {
        &&& masks_fit(self.m, self.msb_mask, self.valid_bits_mask)
        &&& self.state.ln <= self.state.un <= self.valid_bits_mask
    }

    /// An encoder with a precision of `m` bits, its interval the full
    /// range `[0, 2^m - 1]`.
    pub fn new(m: u64) -> (r: Self)
        requires
            1 <= m <= 63,
        ensures
            r.wf(),
            r.m == m,
            r.msb_mask == pow2((m - 1) as nat),
            r.valid_bits_mask == pow2(m as nat) - 1,
            r.state.ln == 0,
            r.state.un == pow2(m as nat) - 1,
    {
        let (msb_mask, valid_bits_mask) = make_masks(m);
        Self { m, msb_mask, valid_bits_mask, state: BACState { ln: 0, un: valid_bits_mask } }
    }

    /// The current interval.
    pub fn bacencoder_get_state(&self) -> (r: BACState)
        ensures
            r == self.state,
    {
        self.state
    }

    /// Replaces the interval by `[ln_new, un_new]`.
    pub fn bac_encoder_set_state(&mut self, ln_new: u64, un_new: u64)
        requires
            old(self).wf(),
            ln_new <= un_new <= old(self).valid_bits_mask,
        ensures
            final(self).wf(),
            *final(self) == (BACEncoder { state: BACState { ln: ln_new, un: un_new }, ..*old(self) }),
    {
        self.state.ln = ln_new;
        self.state.un = un_new;
    }

    /// Encodes one symbol: narrows the interval to the part that the
    /// context gives the symbol, then shifts out the leading bits that the
    /// bounds have in common and writes them to `bitstream`. Refuses, and
    /// changes nothing, where the stream has been switched to reading, the
    /// context is not valid, or no value of the interval falls to the
    /// symbol.
    pub fn encode_one_symbol(&mut self, symbol: bool, c: ContextInfo, bitstream: &mut Bitstream) -> (r:
        Result<(), CodingError>)
        requires
            old(self).wf(),
            old(bitstream).wf(),
            old(bitstream).bitstream_mode is Write ==> old(bitstream).bits().len() + old(self).m
                <= MAX_BITS,
        ensures
            final(self).wf(),
            final(bitstream).wf(),
            final(self).m == old(self).m,
            final(self).msb_mask == old(self).msb_mask,
            final(self).valid_bits_mask == old(self).valid_bits_mask,
            match r {
                Ok(_) => {
                    let low = old(self).state.ln as int;
                    let high = old(self).state.un as int;
                    let is_mps = symbol == c.mps;
                    let after = renormalize(
                        narrowed_low(low, high, is_mps, c),
                        narrowed_high(low, high, is_mps, c),
                        old(self).msb_mask as int,
                    );
                    &&& encode_refusal(low, high, symbol, c, old(bitstream).bitstream_mode) is None
                    &&& final(self).state.ln == after.low
                    &&& final(self).state.un == after.high
                    &&& final(self).state.ln < final(self).msb_mask <= final(self).state.un
                    &&& final(bitstream).bits() == old(bitstream).bits() + after.bits
                    &&& final(bitstream).bitstream_mode is Write
                    &&& after.bits.len() <= old(self).m
                },
                Err(e) => {
                    &&& encode_refusal(
                        old(self).state.ln as int,
                        old(self).state.un as int,
                        symbol,
                        c,
                        old(bitstream).bitstream_mode,
                    ) == Some(e)
                    &&& *final(self) == *old(self)
                    &&& *final(bitstream) == *old(bitstream)
                },
            },
    {
        match bitstream.bitstream_mode {
            BitstreamMode::Read => {
                return Err(CodingError::ReadOnly);
            },
            BitstreamMode::Write => {},
        }
        let is_mps: bool = symbol == c.mps;
        let (low, high, _) = match narrow_interval(self.state.ln, self.state.un, is_mps, &c) {
            Ok(narrowed) => narrowed,
            Err(e) => {
                return Err(e);
            },
        };
        let ghost before = *bitstream;
        let ghost whole = renormalize(low as int, high as int, self.msb_mask as int);
        let mut l1: u64 = low;
        let mut u1: u64 = high;
        proof {
            lemma_masks_as_shifts(self.m);
            lemma_renormalize(low as int, high as int, self.m as nat);
            assert(before.bits() + whole.bits =~= bitstream.bits() + whole.bits);
        }
        loop
            invariant
                self.wf(),
                *self == *old(self),
                bitstream.wf(),
                bitstream.bitstream_mode is Write,
                l1 <= u1 <= self.valid_bits_mask,
                before.bits().len() + whole.bits.len() <= MAX_BITS,
                whole.low == renormalize(l1 as int, u1 as int, self.msb_mask as int).low,
                whole.high == renormalize(l1 as int, u1 as int, self.msb_mask as int).high,
                before.bits() + whole.bits == bitstream.bits() + renormalize(
                    l1 as int,
                    u1 as int,
                    self.msb_mask as int,
                ).bits,
            ensures
                !shares_top_bit(l1 as int, u1 as int, self.msb_mask as int),
            decreases self.valid_bits_mask - (u1 - l1),
        {
            proof {
                lemma_mask_operations(l1, self.m, self.msb_mask, self.valid_bits_mask);
                lemma_mask_operations(u1, self.m, self.msb_mask, self.valid_bits_mask);
                lemma_masks_as_shifts(self.m);
            }
            let msb_l: bool = (l1 & self.msb_mask) != 0;
            let msb_u: bool = (u1 & self.msb_mask) != 0;
            if msb_l != msb_u {
                break ;
            }
            let ghost so_far = bitstream.bits();
            let ghost rest = renormalize(l1 as int, u1 as int, self.msb_mask as int).bits;
            proof {
                assert(rest.len() >= 1);
                assert((before.bits() + whole.bits).len() == (so_far + rest).len());
            }
            match bitstream.write_bit(msb_l) {
                Ok(_) => {},
                Err(e) => {
                    return Err(e);
                },
            }
            l1 = (l1 << 1) & self.valid_bits_mask;
            u1 = ((u1 << 1) & self.valid_bits_mask) + 1;
            proof {
                let next = renormalize(l1 as int, u1 as int, self.msb_mask as int).bits;
                assert(rest == seq![msb_l] + next);
                assert(so_far + rest =~= so_far.push(msb_l) + next);
            }
        }
        proof {
            assert(before.bits() + whole.bits =~= bitstream.bits());
        }
        self.bac_encoder_set_state(l1, u1);
        Ok(())
    }

    /// Writes the `m` bits of the interval's low bound, most significant
    /// first, so that a decoder's first tag falls inside the interval. The
    /// encoder itself stays as it is. Refuses where the stream has been
    /// switched to reading.
    pub fn close_bitstream(&self, bitstream: &mut Bitstream) -> (r: Result<(), CodingError>)
        requires
            self.wf(),
            old(bitstream).wf(),
            old(bitstream).bitstream_mode is Write ==> old(bitstream).bits().len() + self.m
                <= MAX_BITS,
        ensures
            final(bitstream).wf(),
            match r {
                Ok(_) => {
                    &&& old(bitstream).bitstream_mode is Write
                    &&& final(bitstream).bitstream_mode is Write
                    &&& final(bitstream).bits() == old(bitstream).bits() + bits_of(
                        self.state.ln as nat,
                        self.m as nat,
                    )
                },
                Err(e) => {
                    &&& old(bitstream).bitstream_mode is Read
                    &&& e == CodingError::ReadOnly
                    &&& *final(bitstream) == *old(bitstream)
                },
            },
    {
        bitstream.write_number(self.state.ln, self.m)
    }
}

} // verus!
