//! Whole messages: what encoding a sequence of symbols writes, what
//! decoding a stream yields, and the proof that the second undoes the
//! first.

use crate::bac_codec::{
    lemma_mps_share_bounds, lemma_renormalize, lemma_tag_selects, narrow_refusal, narrowed_high,
    narrowed_low, renormalize, renormalize_tag, shares_top_bit, shifted, tag_selects_mps, top_bit,
    ContextInfo,
};
use crate::bac_decoder::{decode_refusal, BACDecoder};
use crate::bac_encoder::BACEncoder;
use crate::bits::{
    bits_of, lemma_bits_of_len, lemma_value_of_bits_of, lemma_value_of_bound,
    lemma_value_of_prepend, value_of,
};
use crate::bitstream::{Bitstream, MAX_BITS};
use crate::error::CodingError;
use vstd::arithmetic::power2::*;
use vstd::prelude::*;

verus! {

/// What encoding a run of symbols comes to: the interval it ends with and
/// the bits it wrote.
pub struct Encoded {
    pub low: int,
    pub high: int,
    pub bits: Seq<bool>,
}

/// `rest`, with `bits` written before its own.
pub open spec fn after_bits(bits: Seq<bool>, rest: Result<Encoded, CodingError>) -> Result<
    Encoded,
    CodingError,
> {
    match rest {
        Ok(done) => Ok(Encoded { low: done.low, high: done.high, bits: bits + done.bits }),
        Err(e) => Err(e),
    }
}

/// `rest`, with `symbols` decoded before its own.
pub open spec fn after_symbols(symbols: Seq<bool>, rest: Result<Seq<bool>, CodingError>) -> Result<
    Seq<bool>,
    CodingError,
> {
    match rest {
        Ok(more) => Ok(symbols + more),
        Err(e) => Err(e),
    }
}

/// Encodes `symbols` one after the other from the interval `[low, high]`,
/// the i-th under `contexts[i]`, each step as the encoder takes it: narrow
/// for the symbol, then renormalize. It ends with the shorter of the two
/// sequences, or with the refusal of the first step that is refused.
pub open spec fn encoded_steps(
    low: int,
    high: int,
    symbols: Seq<bool>,
    contexts: Seq<ContextInfo>,
    half: int,
) -> Result<Encoded, CodingError>
    decreases symbols.len(),
{
    if symbols.len() == 0 || contexts.len() == 0 {
        Ok(Encoded { low, high, bits: Seq::empty() })
    } else {
        let c = contexts[0];
        let is_mps = symbols[0] == c.mps;
        match narrow_refusal(low, high, is_mps, c) {
            Some(e) => Err(e),
            None => {
                let step = renormalize(
                    narrowed_low(low, high, is_mps, c),
                    narrowed_high(low, high, is_mps, c),
                    half,
                );
                after_bits(
                    step.bits,
                    encoded_steps(step.low, step.high, symbols.skip(1), contexts.skip(1), half),
                )
            },
        }
    }
}

/// The stream that an encoder of precision `m` leaves after it has encoded
/// `symbols` from the full interval and closed the stream: the bits of the
/// steps, then the `m` bits of the last low bound.
pub open spec fn encoded_message(symbols: Seq<bool>, contexts: Seq<ContextInfo>, m: nat) -> Result<
    Seq<bool>,
    CodingError,
> {
    match encoded_steps(0, pow2(m) - 1, symbols, contexts, pow2((m - 1) as nat) as int) {
        Ok(done) => Ok(done.bits + bits_of(done.low as nat, m)),
        Err(e) => Err(e),
    }
}

/// Decodes one symbol for each of `contexts` from the interval
/// `[low, high]`, the tag `tag` and the unread bits `input`, each step as
/// the decoder takes it. It ends with the last context, or with the refusal
/// of the first step that is refused.
pub open spec fn decoded_steps(
    low: int,
    high: int,
    tag: int,
    input: Seq<bool>,
    contexts: Seq<ContextInfo>,
    half: int,
) -> Result<Seq<bool>, CodingError>
    decreases contexts.len(),
{
    if contexts.len() == 0 {
        Ok(Seq::empty())
    } else {
        let c = contexts[0];
        match decode_refusal(low, high, tag, c, half, input, true) {
            Some(e) => Err(e),
            None => {
                let is_mps = tag_selects_mps(low, high, tag, c);
                let l1 = narrowed_low(low, high, is_mps, c);
                let u1 = narrowed_high(low, high, is_mps, c);
                let step = renormalize(l1, u1, half);
                after_symbols(
                    seq![if is_mps { c.mps } else { !c.mps }],
                    decoded_steps(
                        step.low,
                        step.high,
                        renormalize_tag(l1, u1, tag, input, half),
                        input.skip(step.bits.len() as int),
                        contexts.skip(1),
                        half,
                    ),
                )
            },
        }
    }
}

/// What a decoder of precision `m` yields from the unread bits `stream`: it
/// reads its first tag, the leading `m` bits, and then decodes one symbol
/// for each of `contexts`.
pub open spec fn decoded_message(stream: Seq<bool>, contexts: Seq<ContextInfo>, m: nat) -> Result<
    Seq<bool>,
    CodingError,
> {
    if stream.len() < m {
        Err(CodingError::InsufficientBits)
    } else {
        decoded_steps(
            0,
            pow2(m) - 1,
            value_of(stream.take(m as int)) as int,
            stream.skip(m as int),
            contexts,
            pow2((m - 1) as nat) as int,
        )
    }
}

/// The window of `m` bits at the head of what renormalizing writes,
/// followed by `later`, lies in the interval before renormalizing, provided
/// that the window at the head of `later` lies in the interval after it.
/// Renormalizing the tag from the first window over the bits that follow it
/// gives the second window, and uses up exactly as many bits as
/// renormalizing wrote.
proof fn lemma_window(low: int, high: int, later: Seq<bool>, m: nat)
    requires
        m >= 1,
        0 <= low <= high < pow2(m),
        later.len() >= m,
        ({
            let r = renormalize(low, high, pow2((m - 1) as nat) as int);
            r.low <= value_of(later.take(m as int)) <= r.high
        }),
    ensures
        ({
            let half = pow2((m - 1) as nat) as int;
            let r = renormalize(low, high, half);
            let all = r.bits + later;
            let tag = value_of(all.take(m as int)) as int;
            &&& low <= tag <= high
            &&& all.skip(m as int).len() >= r.bits.len()
            &&& all.skip(m as int).skip(r.bits.len() as int) == later.skip(m as int)
            &&& renormalize_tag(low, high, tag, all.skip(m as int), half) == value_of(
                later.take(m as int),
            )
        }),
    decreases pow2(m) - (high - low),
{
    let half = pow2((m - 1) as nat) as int;
    let r = renormalize(low, high, half);
    let all = r.bits + later;
    let tag = value_of(all.take(m as int)) as int;
    lemma_pow2_unfold(m);
    if shares_top_bit(low, high, half) {
        let b = top_bit(low, half);
        let l2 = shifted(low, half);
        let u2 = shifted(high, half) + 1;
        let r2 = renormalize(l2, u2, half);
        lemma_window(l2, u2, later, m);
        let all2 = r2.bits + later;
        let tag2 = value_of(all2.take(m as int)) as int;
        assert(all =~= seq![b] + all2);
        let head = all2.take(m - 1);
        assert(all.take(m as int) =~= seq![b] + head);
        lemma_value_of_prepend(b, head);
        lemma_value_of_bound(head);
        assert(all2.take(m as int).drop_last() =~= head);
        let h = value_of(head) as int;
        let x = if all2[m - 1] { 1int } else { 0int };
        assert(tag2 == 2 * h + x);
        assert(tag == (if b { half } else { 0 }) + h);
        let input = all.skip(m as int);
        assert(input.len() >= 1);
        assert(input[0] == all2[m - 1]);
        assert(input.skip(1) =~= all2.skip(m as int));
        assert(shifted(tag, half) + x == tag2);
        assert(input.skip(r.bits.len() as int) =~= all2.skip(m as int).skip(
            r2.bits.len() as int,
        ));
    } else {
        assert(all =~= later);
        assert(all.skip(m as int).skip(0) =~= later.skip(m as int));
    }
}

/// Decoding what `encoded_steps` wrote, followed by the `m` bits of the
/// low bound it ended with, from the interval it started with: the first
/// window of `m` bits lies in that interval, and the decoder's steps yield
/// the symbols.
proof fn lemma_decode_encoded(
    low: int,
    high: int,
    symbols: Seq<bool>,
    contexts: Seq<ContextInfo>,
    m: nat,
)
    requires
        m >= 1,
        0 <= low <= high < pow2(m),
        symbols.len() == contexts.len(),
        encoded_steps(low, high, symbols, contexts, pow2((m - 1) as nat) as int) is Ok,
    ensures
        ({
            let half = pow2((m - 1) as nat) as int;
            let done = encoded_steps(low, high, symbols, contexts, half)->Ok_0;
            let stream = done.bits + bits_of(done.low as nat, m);
            let tag = value_of(stream.take(m as int)) as int;
            &&& 0 <= done.low < pow2(m)
            &&& stream.len() >= m
            &&& low <= tag <= high
            &&& decoded_steps(low, high, tag, stream.skip(m as int), contexts, half) == Ok::<
                Seq<bool>,
                CodingError,
            >(symbols)
        }),
    decreases symbols.len(),
{
    let half = pow2((m - 1) as nat) as int;
    let done = encoded_steps(low, high, symbols, contexts, half)->Ok_0;
    if symbols.len() == 0 {
        let stream = done.bits + bits_of(low as nat, m);
        lemma_bits_of_len(low as nat, m);
        lemma_value_of_bits_of(low as nat, m);
        assert(stream.take(m as int) =~= bits_of(low as nat, m));
        assert(symbols =~= Seq::<bool>::empty());
    } else {
        let c = contexts[0];
        let is_mps = symbols[0] == c.mps;
        let l1 = narrowed_low(low, high, is_mps, c);
        let u1 = narrowed_high(low, high, is_mps, c);
        lemma_mps_share_bounds(low, high, c);
        let step = renormalize(l1, u1, half);
        lemma_renormalize(l1, u1, m);
        let rest = encoded_steps(step.low, step.high, symbols.skip(1), contexts.skip(1), half)->Ok_0;
        lemma_decode_encoded(step.low, step.high, symbols.skip(1), contexts.skip(1), m);
        let later = rest.bits + bits_of(rest.low as nat, m);
        let stream = done.bits + bits_of(done.low as nat, m);
        assert(stream =~= step.bits + later);
        lemma_window(l1, u1, later, m);
        let tag = value_of(stream.take(m as int)) as int;
        lemma_tag_selects(low, high, tag, c);
        assert(tag_selects_mps(low, high, tag, c) == is_mps);
        let input = stream.skip(m as int);
        assert(decode_refusal(low, high, tag, c, half, input, true) is None);
        assert(symbols =~= seq![symbols[0]] + symbols.skip(1));
    }
}

/// Decoding undoes encoding. For every sequence of symbols and every
/// sequence of contexts of the same length, one for each symbol: where the
/// encoder accepts every symbol, the decoder, given the stream that the
/// encoder closed and the same contexts, yields the symbols again.
pub proof fn lemma_round_trip(symbols: Seq<bool>, contexts: Seq<ContextInfo>, m: nat)
    requires
        m >= 1,
        symbols.len() == contexts.len(),
        encoded_message(symbols, contexts, m) is Ok,
    ensures
        decoded_message(encoded_message(symbols, contexts, m)->Ok_0, contexts, m) == Ok::<
            Seq<bool>,
            CodingError,
        >(symbols),
{
    lemma_pow2_pos(m);
    lemma_decode_encoded(0, pow2(m) - 1, symbols, contexts, m);
}

/// Encodes a message with an encoder of precision `m`: the i-th symbol
/// under the i-th context, as far as both sequences reach, and then closes
/// the stream. Returns the stream, still open for writing, or the refusal
/// of the first symbol that the encoder refuses.
pub fn encode_message(symbols: &Vec<bool>, contexts: &Vec<ContextInfo>, m: u64) -> (r: Result<
    Bitstream,
    CodingError,
>)
    requires
        1 <= m <= 63,
        (symbols@.len() + 1) * m <= MAX_BITS,
    ensures
        match r {
            Ok(stream) => {
                &&& stream.wf()
                &&& stream.bitstream_mode is Write
                &&& encoded_message(symbols@, contexts@, m as nat) == Ok::<Seq<bool>, CodingError>(
                    stream.bits(),
                )
            },
            Err(e) => encoded_message(symbols@, contexts@, m as nat) == Err::<
                Seq<bool>,
                CodingError,
            >(e),
        },
{
    let count: usize = if symbols.len() < contexts.len() {
        symbols.len()
    } else {
        contexts.len()
    };
    let mut encoder = BACEncoder::new(m);
    let mut stream = Bitstream::new();
    let ghost half = pow2((m - 1) as nat) as int;
    let ghost whole = encoded_steps(0, pow2(m as nat) - 1, symbols@, contexts@, half);
    let mut at: usize = 0;
    proof {
        assert(symbols@.skip(0) =~= symbols@);
        assert(contexts@.skip(0) =~= contexts@);
        let ahead = encoded_steps(0, pow2(m as nat) - 1, symbols@, contexts@, half);
        assert(after_bits(stream.bits(), ahead) == ahead) by {
            if ahead is Ok {
                assert(stream.bits() + ahead->Ok_0.bits =~= ahead->Ok_0.bits);
            }
        }
    }
    while at < count
        invariant
            1 <= m <= 63,
            half == pow2((m - 1) as nat),
            (symbols@.len() + 1) * m <= MAX_BITS,
            at <= count,
            count <= symbols@.len(),
            count <= contexts@.len(),
            count == symbols@.len() || count == contexts@.len(),
            encoder.wf(),
            encoder.m == m,
            stream.wf(),
            stream.bitstream_mode is Write,
            stream.bits().len() <= at * m,
            whole == encoded_steps(0, pow2(m as nat) - 1, symbols@, contexts@, half),
            whole == after_bits(
                stream.bits(),
                encoded_steps(
                    encoder.state.ln as int,
                    encoder.state.un as int,
                    symbols@.skip(at as int),
                    contexts@.skip(at as int),
                    half,
                ),
            ),
        decreases count - at,
    {
        let ghost written = stream.bits();
        let ghost low = encoder.state.ln as int;
        let ghost high = encoder.state.un as int;
        let ghost ahead = encoded_steps(
            low,
            high,
            symbols@.skip(at as int),
            contexts@.skip(at as int),
            half,
        );
        proof {
            assert(at * m + m <= (symbols@.len() + 1) * m) by (nonlinear_arith)
                requires
                    at < symbols@.len(),
                    m >= 0,
            ;
            assert(symbols@.skip(at as int).skip(1) =~= symbols@.skip(at + 1));
            assert(contexts@.skip(at as int).skip(1) =~= contexts@.skip(at + 1));
        }
        match encoder.encode_one_symbol(symbols[at], contexts[at], &mut stream) {
            Ok(_) => {},
            Err(e) => {
                return Err(e);
            },
        }
        proof {
            let c = contexts@[at as int];
            let is_mps = symbols@[at as int] == c.mps;
            let step = renormalize(
                narrowed_low(low, high, is_mps, c),
                narrowed_high(low, high, is_mps, c),
                half,
            );
            let next = encoded_steps(
                step.low,
                step.high,
                symbols@.skip(at + 1),
                contexts@.skip(at + 1),
                half,
            );
            assert(ahead == after_bits(step.bits, next));
            assert(after_bits(written, ahead) == after_bits(stream.bits(), next)) by {
                if next is Ok {
                    assert(written + (step.bits + next->Ok_0.bits) =~= stream.bits()
                        + next->Ok_0.bits);
                }
            }
            assert((at + 1) * m == at * m + m) by (nonlinear_arith);
        }
        at += 1;
    }
    proof {
        assert(count * m + m <= (symbols@.len() + 1) * m) by (nonlinear_arith)
            requires
                count <= symbols@.len(),
                m >= 0,
        ;
        assert(at * m <= count * m) by (nonlinear_arith)
            requires
                at <= count,
                m >= 0,
        ;
    }
    let ghost written = stream.bits();
    match encoder.close_bitstream(&mut stream) {
        Ok(_) => {},
        Err(e) => {
            return Err(e);
        },
    }
    proof {
        assert(written + Seq::<bool>::empty() =~= written);
    }
    Ok(stream)
}

/// Decodes a message with a decoder of precision `m` from a stream that
/// has been switched to reading: reads the first tag, then decodes one
/// symbol for each context. Returns the symbols, or the refusal of the
/// first step that the decoder refuses.
pub fn decode_message(stream: Bitstream, contexts: &Vec<ContextInfo>, m: u64) -> (r: Result<
    Vec<bool>,
    CodingError,
>)
    requires
        1 <= m <= 63,
        stream.wf(),
    ensures
        match r {
            Ok(symbols) => decoded_message(stream.unread(), contexts@, m as nat) == Ok::<
                Seq<bool>,
                CodingError,
            >(symbols@),
            Err(e) => decoded_message(stream.unread(), contexts@, m as nat) == Err::<
                Seq<bool>,
                CodingError,
            >(e),
        },
{
    let ghost half = pow2((m - 1) as nat) as int;
    let mut decoder = BACDecoder::new(stream, m);
    match decoder.init() {
        Ok(_) => {},
        Err(e) => {
            return Err(e);
        },
    }
    let ghost whole = decoded_message(stream.unread(), contexts@, m as nat);
    let mut symbols: Vec<bool> = Vec::new();
    let mut at: usize = 0;
    proof {
        assert(contexts@.skip(0) =~= contexts@);
        let ahead = decoded_steps(
            decoder.low(),
            decoder.high(),
            decoder.tag(),
            decoder.stream().unread(),
            contexts@,
            half,
        );
        assert(after_symbols(symbols@, ahead) == ahead) by {
            if ahead is Ok {
                assert(symbols@ + ahead->Ok_0 =~= ahead->Ok_0);
            }
        }
    }
    while at < contexts.len()
        invariant
            at <= contexts@.len(),
            decoder.wf(),
            decoder.half() == half,
            decoder.decoded() <= at,
            decoder.stream().reading_status !is NotStarted,
            whole == decoded_message(stream.unread(), contexts@, m as nat),
            whole == after_symbols(
                symbols@,
                decoded_steps(
                    decoder.low(),
                    decoder.high(),
                    decoder.tag(),
                    decoder.stream().unread(),
                    contexts@.skip(at as int),
                    half,
                ),
            ),
        decreases contexts@.len() - at,
    {
        let ghost before = symbols@;
        let ghost low = decoder.low();
        let ghost high = decoder.high();
        let ghost tag = decoder.tag();
        let ghost unread = decoder.stream().unread();
        let ghost ahead = decoded_steps(low, high, tag, unread, contexts@.skip(at as int), half);
        proof {
            assert(contexts@.skip(at as int).skip(1) =~= contexts@.skip(at + 1));
        }
        let symbol: bool = match decoder.decode_one_symbol(contexts[at]) {
            Ok(symbol) => symbol,
            Err(e) => {
                return Err(e);
            },
        };
        symbols.push(symbol);
        proof {
            let next = decoded_steps(
                decoder.low(),
                decoder.high(),
                decoder.tag(),
                decoder.stream().unread(),
                contexts@.skip(at + 1),
                half,
            );
            assert(ahead == after_symbols(seq![symbol], next));
            assert(after_symbols(before, ahead) == after_symbols(symbols@, next)) by {
                if next is Ok {
                    assert(before + (seq![symbol] + next->Ok_0) =~= symbols@ + next->Ok_0);
                }
            }
        }
        at += 1;
    }
    proof {
        assert(symbols@ + Seq::<bool>::empty() =~= symbols@);
    }
    Ok(symbols)
}

} // verus!
