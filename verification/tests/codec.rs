use bac::bac_codec::{narrow_interval, BACState, ContextInfo};
use bac::bac_decoder::{BACDecoder, DecoderStatus};
use bac::bac_encoder::BACEncoder;
use bac::bitstream::Bitstream;
use bac::error::CodingError;
use bac::message::{decode_message, encode_message};

fn context(mps: bool, count_mps: u64, total_count: u64) -> ContextInfo {
    ContextInfo { mps, count_mps, total_count }
}

fn bits_written(bs: &Bitstream) -> Vec<bool> {
    let mut out = Vec::new();
    for byte in &bs.data {
        for k in (0..8).rev() {
            out.push((byte >> k) & 1 == 1);
        }
    }
    for k in (0..bs.num_buf8).rev() {
        out.push((bs.buf8 >> k) & 1 == 1);
    }
    out
}

fn encode_all(m: u64, symbols: &[bool], contexts: &[ContextInfo]) -> Result<Bitstream, CodingError> {
    let mut encoder = BACEncoder::new(m);
    let mut stream = Bitstream::new();
    for (symbol, c) in symbols.iter().zip(contexts) {
        encoder.encode_one_symbol(*symbol, *c, &mut stream)?;
    }
    encoder.close_bitstream(&mut stream)?;
    Ok(stream)
}

fn decode_all(m: u64, mut stream: Bitstream, contexts: &[ContextInfo]) -> Result<Vec<bool>, CodingError> {
    stream.change_mode_to_read()?;
    let mut decoder = BACDecoder::new(stream, m);
    decoder.init()?;
    let mut out = Vec::new();
    for c in contexts {
        out.push(decoder.decode_one_symbol(*c)?);
    }
    assert_eq!(decoder.status().bits_remaining, 0);
    assert_eq!(decoder.status().symbols_processed, contexts.len() as u64);
    Ok(out)
}

fn symbols_from(seed: u64, len: usize, one_in: u64) -> Vec<bool> {
    let mut x = seed;
    (0..len)
        .map(|_| {
            x = x.wrapping_mul(6364136223846793005).wrapping_add(1442695040888963407);
            (x >> 33) % one_in != 0
        })
        .collect()
}

#[test]
fn create_properly_an_encoder() {
    let encoder: BACEncoder = BACEncoder::new(4);
    let x = BACEncoder {
        m: 4,
        msb_mask: 8,
        valid_bits_mask: 15,
        state: BACState { ln: 0, un: 15 },
    };
    assert_eq!(encoder, x);
}

#[test]
fn encoders_of_other_precisions() {
    assert_eq!(
        BACEncoder::new(1),
        BACEncoder { m: 1, msb_mask: 1, valid_bits_mask: 1, state: BACState { ln: 0, un: 1 } }
    );
    assert_eq!(
        BACEncoder::new(32),
        BACEncoder {
            m: 32,
            msb_mask: 0x8000_0000,
            valid_bits_mask: 0xFFFF_FFFF,
            state: BACState { ln: 0, un: 0xFFFF_FFFF },
        }
    );
    assert_eq!(
        BACEncoder::new(63),
        BACEncoder {
            m: 63,
            msb_mask: 0x4000_0000_0000_0000,
            valid_bits_mask: 0x7FFF_FFFF_FFFF_FFFF,
            state: BACState { ln: 0, un: 0x7FFF_FFFF_FFFF_FFFF },
        }
    );
}

#[test]
fn get_and_set_state() {
    let mut encoder = BACEncoder::new(4);
    assert_eq!(encoder.bacencoder_get_state(), BACState { ln: 0, un: 15 });
    encoder.bac_encoder_set_state(3, 9);
    assert_eq!(encoder.bacencoder_get_state(), BACState { ln: 3, un: 9 });
    assert_eq!(encoder.m, 4);
    assert_eq!(encoder.msb_mask, 8);
    assert_eq!(encoder.valid_bits_mask, 15);
}

#[test]
fn narrow_interval_follows_the_formula() {
    let c = context(true, 3, 4);
    assert_eq!(narrow_interval(0, 15, true, &c), Ok((0, 11, 12)));
    assert_eq!(narrow_interval(0, 15, false, &c), Ok((12, 15, 12)));
    assert_eq!(narrow_interval(0, 8, false, &c), Ok((6, 8, 6)));
    assert_eq!(narrow_interval(6, 8, true, &c), Ok((6, 7, 2)));
    assert_eq!(narrow_interval(5, 5, false, &c), Ok((5, 5, 0)));
    let wide = context(false, u64::MAX - 1, u64::MAX);
    assert_eq!(
        narrow_interval(0, u64::MAX, true, &wide),
        Ok((0, u64::MAX - 2, u64::MAX - 1))
    );
}

#[test]
fn narrow_interval_refuses() {
    assert_eq!(narrow_interval(0, 15, true, &context(true, 0, 4)), Err(CodingError::InvalidContext));
    assert_eq!(narrow_interval(0, 15, true, &context(true, 4, 4)), Err(CodingError::InvalidContext));
    assert_eq!(narrow_interval(0, 15, false, &context(true, 5, 4)), Err(CodingError::InvalidContext));
    assert_eq!(narrow_interval(0, 15, true, &context(true, 0, 0)), Err(CodingError::InvalidContext));
    assert_eq!(narrow_interval(7, 8, true, &context(true, 1, 4)), Err(CodingError::EmptyInterval));
    assert_eq!(narrow_interval(7, 8, false, &context(true, 1, 4)), Ok((7, 8, 0)));
}

#[test]
fn encoding_trace_with_four_bits() {
    let c = context(true, 3, 4);
    let mut encoder = BACEncoder::new(4);
    let mut stream = Bitstream::new();
    assert_eq!(encoder.state, BACState { ln: 0, un: 15 });

    encoder.encode_one_symbol(true, c, &mut stream).unwrap();
    assert_eq!(encoder.state, BACState { ln: 0, un: 11 });
    assert_eq!(bits_written(&stream), Vec::<bool>::new());

    encoder.encode_one_symbol(true, c, &mut stream).unwrap();
    assert_eq!(encoder.state, BACState { ln: 0, un: 8 });
    assert_eq!(bits_written(&stream), Vec::<bool>::new());

    encoder.encode_one_symbol(false, c, &mut stream).unwrap();
    assert_eq!(encoder.state, BACState { ln: 6, un: 8 });
    assert_eq!(bits_written(&stream), Vec::<bool>::new());

    encoder.encode_one_symbol(true, c, &mut stream).unwrap();
    assert_eq!(encoder.state, BACState { ln: 0, un: 15 });
    assert_eq!(bits_written(&stream), vec![false, true, true]);

    encoder.close_bitstream(&mut stream).unwrap();
    assert_eq!(encoder.state, BACState { ln: 0, un: 15 });
    assert_eq!(
        bits_written(&stream),
        vec![false, true, true, false, false, false, false]
    );
    assert_eq!(stream.total_size(), 7);
}

#[test]
fn decoding_trace_with_four_bits() {
    let c = context(true, 3, 4);
    let mut stream = Bitstream::new();
    for bit in [false, true, true, false, false, false, false] {
        stream.write_bit(bit).unwrap();
    }
    stream.change_mode_to_read().unwrap();
    let mut decoder = BACDecoder::new(stream, 4);
    assert_eq!(
        decoder.status(),
        DecoderStatus { low: 0, high: 15, symbols_processed: 0, bits_remaining: 7 }
    );
    decoder.init().unwrap();
    assert_eq!(
        decoder.status(),
        DecoderStatus { low: 0, high: 15, symbols_processed: 0, bits_remaining: 3 }
    );
    assert_eq!(decoder.decode_one_symbol(c), Ok(true));
    assert_eq!(
        decoder.status(),
        DecoderStatus { low: 0, high: 11, symbols_processed: 1, bits_remaining: 3 }
    );
    assert_eq!(decoder.decode_one_symbol(c), Ok(true));
    assert_eq!(
        decoder.status(),
        DecoderStatus { low: 0, high: 8, symbols_processed: 2, bits_remaining: 3 }
    );
    assert_eq!(decoder.decode_one_symbol(c), Ok(false));
    assert_eq!(
        decoder.status(),
        DecoderStatus { low: 6, high: 8, symbols_processed: 3, bits_remaining: 3 }
    );
    assert_eq!(decoder.decode_one_symbol(c), Ok(true));
    assert_eq!(
        decoder.status(),
        DecoderStatus { low: 0, high: 15, symbols_processed: 4, bits_remaining: 0 }
    );
}

#[test]
fn least_probable_symbol_first() {
    let c = context(false, 3, 4);
    let mut encoder = BACEncoder::new(4);
    let mut stream = Bitstream::new();
    encoder.encode_one_symbol(true, c, &mut stream).unwrap();
    // [12, 15]: two leading ones leave, then the bounds differ.
    assert_eq!(encoder.state, BACState { ln: 0, un: 15 });
    assert_eq!(bits_written(&stream), vec![true, true]);
}

#[test]
fn interval_stays_proper_and_shifts_are_bounded() {
    for m in [1u64, 2, 4, 8, 17, 32, 63] {
        let symbols = symbols_from(m, 300, 5);
        let mut encoder = BACEncoder::new(m);
        let mut stream = Bitstream::new();
        for (i, symbol) in symbols.iter().enumerate() {
            let c = context(i % 3 == 0, 1 + (i as u64 % 7), 9 + (i as u64 % 4));
            let before = stream.total_size();
            let state = encoder.state;
            match encoder.encode_one_symbol(*symbol, c, &mut stream) {
                Ok(()) => {
                    assert!(stream.total_size() - before <= m);
                    assert!(encoder.state.ln < encoder.msb_mask);
                    assert!(encoder.state.un >= encoder.msb_mask);
                },
                Err(e) => {
                    assert_eq!(e, CodingError::EmptyInterval);
                    assert_eq!(encoder.state, state);
                    assert_eq!(stream.total_size(), before);
                },
            }
            assert!(encoder.state.ln <= encoder.state.un);
            assert!(encoder.state.un <= encoder.valid_bits_mask);
        }
    }
}

#[test]
fn round_trip_of_the_four_bit_message() {
    let c = context(true, 3, 4);
    let symbols = [true, true, false, true];
    let contexts = [c; 4];
    let stream = encode_all(4, &symbols, &contexts).unwrap();
    assert_eq!(decode_all(4, stream, &contexts), Ok(symbols.to_vec()));
}

#[test]
fn round_trip_of_the_empty_message() {
    let stream = encode_all(8, &[], &[]).unwrap();
    assert_eq!(stream.total_size(), 8);
    assert_eq!(decode_all(8, stream, &[]), Ok(vec![]));
}

#[test]
fn round_trip_with_fixed_context() {
    for m in [8u64, 12, 16, 24, 32, 48, 63] {
        for (count_mps, total_count) in [(1u64, 2u64), (3, 4), (9, 10), (99, 100)] {
            let symbols = symbols_from(m * 31 + count_mps, 500, total_count);
            let contexts = vec![context(true, count_mps, total_count); symbols.len()];
            let stream = encode_all(m, &symbols, &contexts).unwrap();
            assert_eq!(decode_all(m, stream, &contexts), Ok(symbols));
        }
    }
}

#[test]
fn round_trip_with_changing_contexts() {
    for m in [16u64, 32, 63] {
        let symbols = symbols_from(m, 1000, 3);
        let contexts: Vec<ContextInfo> = (0..symbols.len() as u64)
            .map(|i| context(i % 5 < 2, 36 + (i * 7) % 15, 51 + (i * 3) % 20))
            .collect();
        let stream = encode_all(m, &symbols, &contexts).unwrap();
        assert_eq!(decode_all(m, stream, &contexts), Ok(symbols));
    }
}

#[test]
fn round_trip_with_large_counts() {
    let m = 63;
    let symbols = symbols_from(7, 200, 4);
    let contexts = vec![context(true, u64::MAX / 4 * 3, u64::MAX); symbols.len()];
    let stream = encode_all(m, &symbols, &contexts).unwrap();
    assert_eq!(decode_all(m, stream, &contexts), Ok(symbols));
}

#[test]
fn round_trip_of_every_short_message_with_small_precision() {
    for m in [2u64, 3, 4, 5] {
        for len in 0..=8usize {
            for code in 0..(1u32 << len) {
                let symbols: Vec<bool> = (0..len).map(|i| (code >> i) & 1 == 1).collect();
                let contexts: Vec<ContextInfo> =
                    (0..len as u64).map(|i| context(i % 2 == 0, 1 + i % 3, 4)).collect();
                if let Ok(stream) = encode_all(m, &symbols, &contexts) {
                    assert_eq!(decode_all(m, stream, &contexts), Ok(symbols));
                }
            }
        }
    }
}

#[test]
fn round_trip_through_the_persisted_form() {
    let symbols = symbols_from(11, 400, 6);
    let contexts = vec![context(true, 5, 6); symbols.len()];
    let bytes = encode_all(32, &symbols, &contexts).unwrap().flush_to_bytes();
    let mut stream = Bitstream::new();
    stream.read_from_bytes(bytes).unwrap();
    let mut decoder = BACDecoder::new(stream, 32);
    decoder.init().unwrap();
    let decoded: Vec<bool> =
        contexts.iter().map(|c| decoder.decode_one_symbol(*c).unwrap()).collect();
    assert_eq!(decoded, symbols);
}

#[test]
fn close_writes_the_low_bound() {
    let mut encoder = BACEncoder::new(6);
    encoder.bac_encoder_set_state(0b010110, 0b111000);
    let mut stream = Bitstream::new();
    encoder.close_bitstream(&mut stream).unwrap();
    assert_eq!(bits_written(&stream), vec![false, true, false, true, true, false]);
    assert_eq!(encoder.state, BACState { ln: 0b010110, un: 0b111000 });
}

#[test]
fn encoder_refuses_a_stream_being_read() {
    let mut encoder = BACEncoder::new(4);
    let mut stream = Bitstream::new();
    stream.write_bit(true).unwrap();
    stream.change_mode_to_read().unwrap();
    let c = context(true, 3, 4);
    assert_eq!(encoder.encode_one_symbol(true, c, &mut stream), Err(CodingError::ReadOnly));
    assert_eq!(encoder.close_bitstream(&mut stream), Err(CodingError::ReadOnly));
    assert_eq!(encoder.state, BACState { ln: 0, un: 15 });
    assert_eq!(stream.number_of_remaining_bits(), 1);
}

#[test]
fn encoder_refuses_an_invalid_context() {
    let mut encoder = BACEncoder::new(4);
    let mut stream = Bitstream::new();
    for c in [context(true, 0, 4), context(true, 4, 4), context(false, 1, 0)] {
        assert_eq!(encoder.encode_one_symbol(true, c, &mut stream), Err(CodingError::InvalidContext));
    }
    assert_eq!(encoder.state, BACState { ln: 0, un: 15 });
    assert_eq!(stream.total_size(), 0);
}

#[test]
fn encoder_refuses_an_interval_too_narrow() {
    let mut encoder = BACEncoder::new(4);
    encoder.bac_encoder_set_state(7, 8);
    let mut stream = Bitstream::new();
    let c = context(true, 1, 4);
    assert_eq!(encoder.encode_one_symbol(true, c, &mut stream), Err(CodingError::EmptyInterval));
    assert_eq!(encoder.state, BACState { ln: 7, un: 8 });
    assert_eq!(stream.total_size(), 0);
    encoder.encode_one_symbol(false, c, &mut stream).unwrap();
    assert_eq!(encoder.state, BACState { ln: 7, un: 8 });
}

#[test]
fn bounds_that_straddle_the_middle() {
    let c = context(true, 3, 4);
    let mut encoder = BACEncoder::new(4);
    encoder.bac_encoder_set_state(7, 8);
    let mut stream = Bitstream::new();
    encoder.encode_one_symbol(true, c, &mut stream).unwrap();
    assert_eq!(bits_written(&stream), vec![false, true, true, true]);
    assert_eq!(encoder.state, BACState { ln: 0, un: 15 });
    encoder.bac_encoder_set_state(7, 8);
    encoder.encode_one_symbol(false, c, &mut stream).unwrap();
    assert_eq!(
        bits_written(&stream),
        vec![false, true, true, true, true, false, false, false]
    );
    assert_eq!(encoder.state, BACState { ln: 0, un: 15 });
}

#[test]
fn init_refuses_a_short_stream() {
    let mut stream = Bitstream::new();
    for bit in [true, false, true] {
        stream.write_bit(bit).unwrap();
    }
    stream.change_mode_to_read().unwrap();
    let mut decoder = BACDecoder::new(stream, 4);
    assert_eq!(decoder.init(), Err(CodingError::InsufficientBits));
    assert_eq!(decoder.status().bits_remaining, 3);
}

#[test]
fn init_refuses_a_stream_not_switched() {
    let mut stream = Bitstream::new();
    stream.write_number(0xFF, 8).unwrap();
    let mut decoder = BACDecoder::new(stream, 4);
    assert_eq!(decoder.init(), Err(CodingError::InsufficientBits));
}

#[test]
fn init_reads_the_leading_bits() {
    let mut stream = Bitstream::new();
    stream.write_number(0b1001_0110, 8).unwrap();
    stream.change_mode_to_read().unwrap();
    let mut decoder = BACDecoder::new(stream, 4);
    decoder.init().unwrap();
    assert_eq!(decoder.status().bits_remaining, 4);
    // Tag 9 of 16 with 3 of 4 for the most probable symbol: position 2 < 3.
    assert_eq!(decoder.decode_one_symbol(context(true, 3, 4)), Ok(true));
    assert_eq!(
        decoder.status(),
        DecoderStatus { low: 0, high: 11, symbols_processed: 1, bits_remaining: 4 }
    );
    // Tag 9 of [0, 11]: position (10 * 4 - 1) / 12 = 3, the other symbol.
    assert_eq!(decoder.decode_one_symbol(context(true, 3, 4)), Ok(false));
    // [9, 11]: one leading one leaves: [2, 7]; a zero: [4, 15].
    assert_eq!(
        decoder.status(),
        DecoderStatus { low: 4, high: 15, symbols_processed: 2, bits_remaining: 2 }
    );
}

#[test]
fn decoder_refuses_an_invalid_context() {
    let mut stream = Bitstream::new();
    stream.write_number(0, 8).unwrap();
    stream.change_mode_to_read().unwrap();
    let mut decoder = BACDecoder::new(stream, 4);
    decoder.init().unwrap();
    assert_eq!(decoder.decode_one_symbol(context(true, 4, 4)), Err(CodingError::InvalidContext));
    assert_eq!(decoder.decode_one_symbol(context(true, 0, 4)), Err(CodingError::InvalidContext));
    assert_eq!(
        decoder.status(),
        DecoderStatus { low: 0, high: 15, symbols_processed: 0, bits_remaining: 4 }
    );
}

#[test]
fn decoder_refuses_a_tag_outside_the_interval() {
    let mut stream = Bitstream::new();
    stream.write_number(0b0000_1111, 8).unwrap();
    stream.change_mode_to_read().unwrap();
    let mut decoder = BACDecoder::new(stream, 4);
    decoder.init().unwrap();
    assert_eq!(decoder.decode_one_symbol(context(true, 3, 4)), Ok(true));
    decoder.init().unwrap();
    assert_eq!(
        decoder.decode_one_symbol(context(true, 3, 4)),
        Err(CodingError::TagOutOfInterval)
    );
    assert_eq!(
        decoder.status(),
        DecoderStatus { low: 0, high: 11, symbols_processed: 1, bits_remaining: 0 }
    );
}

#[test]
fn decoder_surfaces_the_end_of_the_stream() {
    let mut stream = Bitstream::new();
    stream.write_number(0b1111_1, 5).unwrap();
    stream.change_mode_to_read().unwrap();
    let mut decoder = BACDecoder::new(stream, 4);
    decoder.init().unwrap();
    // Tag 15 selects the other symbol: [12, 15] needs two shifts, one bit is left.
    assert_eq!(decoder.decode_one_symbol(context(true, 3, 4)), Err(CodingError::Finished));
    assert_eq!(
        decoder.status(),
        DecoderStatus { low: 0, high: 15, symbols_processed: 0, bits_remaining: 0 }
    );
}

#[test]
fn decoder_without_a_started_stream() {
    let stream = Bitstream::new();
    let mut decoder = BACDecoder::new(stream, 4);
    // Tag 0 in [0, 15] selects the most probable symbol: [0, 11], no shift, no read.
    assert_eq!(decoder.decode_one_symbol(context(true, 3, 4)), Ok(true));
    // Tag 0 in [0, 11] with 1 of 4: [0, 2], two shifts that need bits.
    assert_eq!(decoder.decode_one_symbol(context(true, 1, 4)), Err(CodingError::NotStarted));
    assert_eq!(
        decoder.status(),
        DecoderStatus { low: 0, high: 11, symbols_processed: 1, bits_remaining: 0 }
    );
}

#[test]
fn rare_most_probable_symbol_can_be_refused_mid_message() {
    // After a shift the interval holds at least two values; a context that
    // gives the most probable symbol less than half of them can leave it none.
    let c = context(true, 1, 4);
    let mut encoder = BACEncoder::new(4);
    let mut stream = Bitstream::new();
    encoder.encode_one_symbol(true, c, &mut stream).unwrap();
    // [0, 3]: two zeros leave, [0, 15] again.
    assert_eq!(encoder.state, BACState { ln: 0, un: 15 });
    encoder.bac_encoder_set_state(7, 9);
    assert_eq!(encoder.encode_one_symbol(true, c, &mut stream), Err(CodingError::EmptyInterval));
    assert_eq!(bits_written(&stream), vec![false, false]);
}

#[test]
fn whole_message_matches_the_steps() {
    let c = context(true, 3, 4);
    let symbols = vec![true, true, false, true];
    let contexts = vec![c; 4];
    let stream = encode_message(&symbols, &contexts, 4).unwrap();
    assert_eq!(
        bits_written(&stream),
        vec![false, true, true, false, false, false, false]
    );
    assert_eq!(stream.flush_to_bytes(), vec![0xE7, 0b0110_0000]);
}

#[test]
fn whole_message_round_trip() {
    for m in [4u64, 9, 16, 31, 32, 63] {
        let symbols = symbols_from(m + 100, 700, 4);
        let contexts: Vec<ContextInfo> = (0..symbols.len() as u64)
            .map(|i| context(i % 2 == 0, 4 + i % 2, 6 + i % 3))
            .collect();
        let mut stream = encode_message(&symbols, &contexts, m).unwrap();
        stream.change_mode_to_read().unwrap();
        assert_eq!(decode_message(stream, &contexts, m), Ok(symbols));
    }
}

#[test]
fn whole_message_stops_with_the_shorter_sequence() {
    let c = context(true, 3, 4);
    let long = encode_message(&vec![true, true, false, true, true], &vec![c; 4], 4).unwrap();
    let short = encode_message(&vec![true, true, false, true], &vec![c; 9], 4).unwrap();
    assert_eq!(bits_written(&long), bits_written(&short));
}

#[test]
fn whole_message_reports_the_first_refusal() {
    let good = context(true, 3, 4);
    let bad = context(true, 4, 4);
    assert_eq!(
        encode_message(&vec![true, false, true], &vec![good, bad, good], 8).err(),
        Some(CodingError::InvalidContext)
    );
    let mut stream = encode_message(&vec![true, false, true], &vec![good; 3], 8).unwrap();
    stream.change_mode_to_read().unwrap();
    assert_eq!(
        decode_message(stream, &vec![good, bad, good], 8),
        Err(CodingError::InvalidContext)
    );
}

#[test]
fn whole_message_needs_the_first_tag() {
    let mut stream = Bitstream::new();
    stream.write_number(0b101, 3).unwrap();
    stream.change_mode_to_read().unwrap();
    assert_eq!(decode_message(stream, &vec![], 4), Err(CodingError::InsufficientBits));
    let unswitched = encode_message(&vec![true], &vec![context(true, 1, 2)], 4).unwrap();
    assert_eq!(
        decode_message(unswitched, &vec![context(true, 1, 2)], 4),
        Err(CodingError::InsufficientBits)
    );
}

#[test]
fn whole_message_runs_out_of_bits() {
    let c = context(true, 3, 4);
    let mut stream = encode_message(&vec![false, false], &vec![c; 2], 4).unwrap();
    stream.change_mode_to_read().unwrap();
    assert_eq!(decode_message(stream, &vec![c; 6], 4), Err(CodingError::Finished));
}
