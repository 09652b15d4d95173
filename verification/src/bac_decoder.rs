//! The decoder: it follows the encoder's interval symbol by symbol and
//! tells from its tag, a window of the stream's bits, which symbol was
//! encoded.

use crate::bac_codec::{
    lemma_mask_operations, lemma_masks_as_shifts, lemma_renormalize, lemma_tag_selects,
    make_masks, masks_fit, narrow_interval, narrowed_high, narrowed_low, renormalize,
    renormalize_tag, shares_top_bit, tag_selects_mps, BACState, ContextInfo,
};
use crate::bits::{lemma_value_of_bound, value_of};
use crate::bitstream::Bitstream;
use crate::error::CodingError;
use vstd::arithmetic::power2::*;
use vstd::prelude::*;

verus! {

/// A binary arithmetic decoder with an interval of `m` bits, and the stream
/// that it reads.
#[derive(Debug)]
pub struct BACDecoder {
    valid_bits_mask: u64,
    p_bitstream: Bitstream,
    n_decoded: u64,
    curr_tag: u64,
    m: u64,
    msb_mask: u64,
    state: BACState,
}

/// What a decoder has come to.
#[derive(Clone, Copy, Debug, PartialEq, Eq, Structural)]
pub struct DecoderStatus {
    pub low: u64,
    pub high: u64,
    pub symbols_processed: u64,
    pub bits_remaining: u64,
}

/// Why the decoder refuses to decode a symbol, if it does: the context is
/// not valid, the tag lies outside the interval, or the stream has fewer
/// bits left than renormalizing needs. `unread` is what the stream has left,
/// and `started` says whether it was ever switched to reading.
pub open spec fn decode_refusal(
    low: int,
    high: int,
    tag: int,
    c: ContextInfo,
    half: int,
    unread: Seq<bool>,
    started: bool,
) -> Option<CodingError> {
    if !c.valid() {
        Some(CodingError::InvalidContext)
    } else if !(low <= tag <= high) {
        Some(CodingError::TagOutOfInterval)
    } else {
        let is_mps = tag_selects_mps(low, high, tag, c);
        let after = renormalize(
            narrowed_low(low, high, is_mps, c),
            narrowed_high(low, high, is_mps, c),
            half,
        );
        if after.bits.len() <= unread.len() {
            None
        } else if started {
            Some(CodingError::Finished)
        } else {
            Some(CodingError::NotStarted)
        }
    }
}

impl BACDecoder {
    /// The precision: the number of bits of the interval.
    pub closed spec fn precision(&self) -> nat {
        self.m as nat
    }

    /// The low bound of the interval.
    pub closed spec fn low(&self) -> int {
        self.state.ln as int
    }

    /// The high bound of the interval.
    pub closed spec fn high(&self) -> int {
        self.state.un as int
    }

    /// The tag: the window of `m` stream bits that stands for the position
    /// of the encoded message in the interval.
    pub closed spec fn tag(&self) -> int {
        self.curr_tag as int
    }

    /// How many symbols have been decoded.
    pub closed spec fn decoded(&self) -> nat {
        self.n_decoded as nat
    }

    /// The stream that the decoder reads.
    pub closed spec fn stream(&self) -> Bitstream {
        self.p_bitstream
    }

    /// The weight of the interval's leading bit, `2^(m - 1)`.
    pub open spec fn half(&self) -> int {
        pow2((self.precision() - 1) as nat) as int
    }

    /// The masks belong to the precision.
    pub closed spec fn masks_fit(&self) -> bool {
        masks_fit(self.m, self.msb_mask, self.valid_bits_mask)
    }

    /// The interval is a proper one of `m` bits, the tag has `m` bits, and
    /// the stream is well formed.
    pub open spec fn wf(&self) -> bool {
        &&& 1 <= self.precision() <= 63
        &&& self.masks_fit()
        &&& 0 <= self.low() <= self.high() < pow2(self.precision())
        &&& 0 <= self.tag() < pow2(self.precision())
        &&& self.stream().wf()
    }

    /// A decoder with a precision of `m` bits over `input_bitstream`, which
    /// the caller has switched to reading. Its interval is the full range
    /// `[0, 2^m - 1]`; its tag is still to be read by `init`.
    pub fn new(input_bitstream: Bitstream, m: u64) -> (r: Self)
        requires
            1 <= m <= 63,
            input_bitstream.wf(),
        ensures
            r.wf(),
            r.precision() == m,
            r.low() == 0,
            r.high() == pow2(m as nat) - 1,
            r.tag() == 0,
            r.decoded() == 0,
            r.stream() == input_bitstream,
    {
        let (msb_mask, valid_bits_mask) = make_masks(m);
        proof {
            lemma_masks_as_shifts(m);
        }
        Self {
            m,
            msb_mask,
            valid_bits_mask,
            p_bitstream: input_bitstream,
            curr_tag: 0,
            n_decoded: 0,
            state: BACState { ln: 0, un: valid_bits_mask },
        }
    }

    /// Reads the first tag: the next `m` bits of the stream. Refuses, and
    /// changes nothing, where the stream has fewer than `m` bits left.
    pub fn init(&mut self) -> (r: Result<(), CodingError>)
        requires
            old(self).wf(),
        ensures
            final(self).wf(),
            match r {
                Ok(_) => {
                    let unread = old(self).stream().unread();
                    let m = old(self).precision() as int;
                    &&& m <= unread.len()
                    &&& final(self).tag() == value_of(unread.take(m))
                    &&& final(self).stream().unread() == unread.skip(m)
                    &&& final(self).stream().bits() == old(self).stream().bits()
                    &&& final(self).stream().bitstream_mode == old(self).stream().bitstream_mode
                    &&& final(self).precision() == old(self).precision()
                    &&& final(self).low() == old(self).low()
                    &&& final(self).high() == old(self).high()
                    &&& final(self).decoded() == old(self).decoded()
                },
                Err(e) => {
                    &&& e == CodingError::InsufficientBits
                    &&& old(self).precision() > old(self).stream().unread().len()
                    &&& *final(self) == *old(self)
                },
            },
    {
        if self.m > self.p_bitstream.number_of_remaining_bits() {
            return Err(CodingError::InsufficientBits);
        }
        let ghost window = self.p_bitstream.unread().take(self.m as int);
        match self.p_bitstream.read_number(self.m) {
            Ok(tag) => {
                proof {
                    lemma_value_of_bound(window);
                }
                self.curr_tag = tag;
                Ok(())
            },
            Err(e) => Err(e),
        }
    }

    /// Decodes one symbol: tells from the tag which symbol was encoded,
    /// narrows the interval as the encoder did for that symbol, and shifts
    /// out the leading bits that the bounds have in common, each time
    /// bringing the next bit of the stream into the tag.
    ///
    /// Refuses where the context is not valid or the tag lies outside the
    /// interval, and changes nothing then. Refuses with the stream's own
    /// error where the stream runs out before the shifts are done; the
    /// stream is then used up, and the decoder's interval, tag and count
    /// are as before.
    pub fn decode_one_symbol(&mut self, c: ContextInfo) -> (r: Result<bool, CodingError>)
        requires
            old(self).wf(),
            old(self).decoded() < u64::MAX,
        ensures
            final(self).wf(),
            final(self).precision() == old(self).precision(),
            final(self).stream().bits() == old(self).stream().bits(),
            final(self).stream().bitstream_mode == old(self).stream().bitstream_mode,
            match r {
                Ok(symbol) => {
                    let low = old(self).low();
                    let high = old(self).high();
                    let tag = old(self).tag();
                    let unread = old(self).stream().unread();
                    let is_mps = tag_selects_mps(low, high, tag, c);
                    let l1 = narrowed_low(low, high, is_mps, c);
                    let u1 = narrowed_high(low, high, is_mps, c);
                    let after = renormalize(l1, u1, old(self).half());
                    &&& decode_refusal(low, high, tag, c, old(self).half(), unread, true) is None
                    &&& symbol == (if is_mps {
                        c.mps
                    } else {
                        !c.mps
                    })
                    &&& final(self).low() == after.low
                    &&& final(self).high() == after.high
                    &&& final(self).tag() == renormalize_tag(l1, u1, tag, unread, old(self).half())
                    &&& final(self).low() <= final(self).tag() <= final(self).high()
                    &&& final(self).low() < final(self).half() <= final(self).high()
                    &&& final(self).stream().unread() == unread.skip(after.bits.len() as int)
                    &&& after.bits.len() <= old(self).precision()
                    &&& final(self).decoded() == old(self).decoded() + 1
                },
                Err(e) => {
                    &&& decode_refusal(
                        old(self).low(),
                        old(self).high(),
                        old(self).tag(),
                        c,
                        old(self).half(),
                        old(self).stream().unread(),
                        old(self).stream().reading_status !is NotStarted,
                    ) == Some(e)
                    &&& final(self).low() == old(self).low()
                    &&& final(self).high() == old(self).high()
                    &&& final(self).tag() == old(self).tag()
                    &&& final(self).decoded() == old(self).decoded()
                    &&& if e == CodingError::Finished {
                        &&& final(self).stream().reading_status is Finished
                        &&& final(self).stream().unread().len() == 0
                    } else {
                        *final(self) == *old(self)
                    }
                },
            },
    {
        if c.count_mps == 0 || c.count_mps >= c.total_count {
            return Err(CodingError::InvalidContext);
        }
        let l0: u64 = self.state.ln;
        let u0: u64 = self.state.un;
        let tag0: u64 = self.curr_tag;
        if tag0 < l0 || tag0 > u0 {
            return Err(CodingError::TagOutOfInterval);
        }
        let offset: u128 = (tag0 - l0) as u128 + 1;
        let total: u128 = c.total_count as u128;
        let width: u128 = (u0 - l0) as u128 + 1;
        proof {
            lemma_tag_selects(l0 as int, u0 as int, tag0 as int, c);
            assert(1 <= offset * total <= 0xFFFF_FFFF_FFFF_FFFF_0000_0000_0000_0000)
                by (nonlinear_arith)
                requires
                    1 <= offset <= 0x1_0000_0000_0000_0000,
                    1 <= total <= 0xFFFF_FFFF_FFFF_FFFF,
            ;
        }
        let tag_star: u128 = (offset * total - 1) / width;
        let is_mps: bool = tag_star < c.count_mps as u128;
        let symbol: bool = if is_mps { c.mps } else { !c.mps };
        let (low, high, _) = match narrow_interval(l0, u0, is_mps, &c) {
            Ok(narrowed) => narrowed,
            Err(e) => {
                return Err(e);
            },
        };
        let ghost before = self.p_bitstream;
        let ghost half = self.msb_mask as int;
        let ghost whole = renormalize(low as int, high as int, half);
        let mut l1: u64 = low;
        let mut u1: u64 = high;
        let mut tag: u64 = tag0;
        let ghost mut taken: int = 0;
        proof {
            lemma_masks_as_shifts(self.m);
            lemma_renormalize(low as int, high as int, self.m as nat);
            assert(before.unread().skip(0) =~= before.unread());
        }
        loop
            invariant
                old(self).wf(),
                c.valid(),
                before == old(self).p_bitstream,
                whole == renormalize(low as int, high as int, half),
                low == narrowed_low(l0 as int, u0 as int, is_mps, c),
                high == narrowed_high(l0 as int, u0 as int, is_mps, c),
                l0 == old(self).state.ln,
                u0 == old(self).state.un,
                tag0 == old(self).curr_tag,
                l0 <= tag0 <= u0,
                is_mps == tag_selects_mps(l0 as int, u0 as int, tag0 as int, c),
                self.masks_fit(),
                self.state == old(self).state,
                self.curr_tag == old(self).curr_tag,
                self.n_decoded == old(self).n_decoded,
                self.m == old(self).m,
                self.msb_mask == old(self).msb_mask,
                self.valid_bits_mask == old(self).valid_bits_mask,
                half == self.msb_mask as int,
                self.p_bitstream.wf(),
                self.p_bitstream.bits() == before.bits(),
                self.p_bitstream.bitstream_mode == before.bitstream_mode,
                before.wf(),
                before.reading_status is NotStarted ==> self.p_bitstream == before,
                l1 <= tag <= u1 <= self.valid_bits_mask,
                0 <= taken <= before.unread().len(),
                self.p_bitstream.unread() == before.unread().skip(taken),
                whole.low == renormalize(l1 as int, u1 as int, half).low,
                whole.high == renormalize(l1 as int, u1 as int, half).high,
                whole.bits.len() == taken + renormalize(l1 as int, u1 as int, half).bits.len(),
                renormalize_tag(low as int, high as int, tag0 as int, before.unread(), half)
                    == renormalize_tag(
                    l1 as int,
                    u1 as int,
                    tag as int,
                    self.p_bitstream.unread(),
                    half,
                ),
            ensures
                !shares_top_bit(l1 as int, u1 as int, half),
            decreases self.valid_bits_mask - (u1 - l1),
        {
            proof {
                lemma_mask_operations(l1, self.m, self.msb_mask, self.valid_bits_mask);
                lemma_mask_operations(u1, self.m, self.msb_mask, self.valid_bits_mask);
                lemma_mask_operations(tag, self.m, self.msb_mask, self.valid_bits_mask);
                lemma_masks_as_shifts(self.m);
            }
            let msb_l: bool = (l1 & self.msb_mask) != 0;
            let msb_u: bool = (u1 & self.msb_mask) != 0;
            if msb_l != msb_u {
                break ;
            }
            let bit: bool = match self.p_bitstream.read_bit() {
                Ok(bit) => bit,
                Err(e) => {
                    return Err(e);
                },
            };
            l1 = (l1 << 1) & self.valid_bits_mask;
            u1 = ((u1 << 1) & self.valid_bits_mask) + 1;
            tag = ((tag << 1) & self.valid_bits_mask) + if bit { 1 } else { 0 };
            proof {
                assert(self.p_bitstream.unread() =~= before.unread().skip(taken + 1));
                taken = taken + 1;
            }
        }
        self.state.ln = l1;
        self.state.un = u1;
        self.curr_tag = tag;
        self.n_decoded += 1;
        Ok(symbol)
    }

    /// The decoder's interval, the number of symbols it has decoded and the
    /// number of bits its stream has left.
    pub fn status(&self) -> (r: DecoderStatus)
        requires
            self.wf(),
        ensures
            r.low == self.low(),
            r.high == self.high(),
            r.symbols_processed == self.decoded(),
            r.bits_remaining == self.stream().unread().len(),
    {
        DecoderStatus {
            low: self.state.ln,
            high: self.state.un,
            symbols_processed: self.n_decoded,
            bits_remaining: self.p_bitstream.number_of_remaining_bits(),
        }
    }
}

} // verus!
