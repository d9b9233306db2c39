use ternary_steganography::capacity::CapacityAnalyzer;
use ternary_steganography::trit::count_trits;
use ternary_steganography::{
    BitEmbedder, FrequencyModulator, PatternEncoder, SpreadSpectrum, StatisticalStego,
    TernarySequence, Trit,
};

use Trit::{Neg, Pos, Zero};

#[test]
fn trit_value_and_digit_roundtrip() {
    for t in [Neg, Zero, Pos] {
        assert_eq!(Trit::from_i8(t.to_i8()), Some(t));
        assert_eq!(Trit::from_digit(t.digit()), Some(t));
    }
    assert_eq!(Trit::from_i8(-2), None);
    assert_eq!(Trit::from_digit(255), None);
}

#[test]
fn sequence_from_i8_drops_other_values() {
    let seq = TernarySequence::from_i8(&[1, 7, -1, -5, 0]);
    assert_eq!(seq.trits(), &[Pos, Neg, Zero]);
}

#[test]
fn sequence_set_get_and_capacity() {
    let mut seq = TernarySequence::new(vec![Zero, Zero, Zero]);
    seq.set(1, Pos);
    assert_eq!(seq.get(1), Some(Pos));
    seq.set(3, Neg);
    assert_eq!(seq.trits(), &[Zero, Pos, Zero]);
    assert_eq!(seq.get(3), None);
    assert_eq!(seq.bit_capacity(2), 6);
    assert!(TernarySequence::new(vec![]).is_empty());
}

#[test]
fn bit_embed_exact_output() {
    let carrier = TernarySequence::from_i8(&[0; 10]);
    let encoded = BitEmbedder::new(1).encode(&carrier, &[0xA5]).unwrap();
    assert_eq!(encoded.trits(), &[Pos, Neg, Pos, Neg, Neg, Pos, Neg, Pos, Zero, Zero]);
}

#[test]
fn bit_embed_leaves_no_zero_in_region() {
    let carrier = TernarySequence::from_i8(&[0; 16]);
    let encoded = BitEmbedder::new(5).encode(&carrier, &[0x00, 0x7F]).unwrap();
    assert_eq!(encoded.len(), carrier.len());
    assert!(encoded.trits().iter().all(|t| *t != Zero));
}

#[test]
fn bit_decode_needs_eight_trits_per_byte() {
    let embedder = BitEmbedder::new(0);
    let seq = TernarySequence::from_i8(&[1; 15]);
    assert_eq!(embedder.decode(&seq, 2), None);
    assert_eq!(embedder.decode(&seq, 1), Some(vec![0xFF]));
    assert_eq!(embedder.decode(&seq, 0), Some(vec![]));
}

#[test]
fn bit_decode_reads_zero_and_neg_as_zero() {
    let seq = TernarySequence::from_i8(&[0, -1, 1, 0, -1, 0, 0, 1]);
    assert_eq!(BitEmbedder::new(1).decode(&seq, 1), Some(vec![0b0010_0001]));
}

#[test]
fn pattern_encode_exact_digits() {
    // 'A' is 65 = 2*27 + 1*9 + 0*3 + 2
    let encoded = PatternEncoder::new(4).encode("A");
    assert_eq!(encoded.trits(), &[Pos, Zero, Neg, Pos]);
}

#[test]
fn pattern_length_is_at_least_two() {
    let encoded = PatternEncoder::new(0).encode("Az");
    assert_eq!(encoded.len(), 4);
}

#[test]
fn pattern_short_pattern_keeps_low_digits() {
    // With two trits only 65 mod 9 = 2 survives.
    let encoder = PatternEncoder::new(2);
    let encoded = encoder.encode("A");
    assert_eq!(encoded.trits(), &[Neg, Pos]);
    assert_eq!(encoder.decode(&encoded), "\u{2}");
}

#[test]
fn pattern_decode_reads_last_short_chunk() {
    let encoder = PatternEncoder::new(2);
    let seq = TernarySequence::new(vec![Pos, Zero, Pos]);
    assert_eq!(encoder.decode(&seq), "\u{7}\u{2}");
}

#[test]
fn pattern_decode_skips_non_characters() {
    // Fourteen Pos trits are 3^14 - 1, past the last character code.
    let encoder = PatternEncoder::new(14);
    let seq = TernarySequence::new(vec![Pos; 14]);
    assert_eq!(encoder.decode(&seq), "");
}

#[test]
fn pattern_roundtrip_unicode() {
    let encoder = PatternEncoder::new(13);
    let message = "héllo ✓ 🦀";
    assert_eq!(encoder.decode(&encoder.encode(message)), message);
}

#[test]
fn pattern_stego_roundtrip() {
    let carrier = TernarySequence::from_i8(&[0, 1, -1, 0, 1, -1, 0, 1, -1, 0, 1, -1, 0, 1]);
    let encoder = PatternEncoder::new(5);
    let positions = vec![13, 2, 7, 0, 11, 4, 9, 1, 3, 5];
    let hidden = encoder.stego_encode(&carrier, "Hi", &positions).unwrap();
    assert_eq!(hidden.len(), carrier.len());
    assert_eq!(encoder.stego_decode(&hidden, &positions, 2), Some("Hi".to_string()));
}

#[test]
fn pattern_stego_encode_needs_enough_positions() {
    let carrier = TernarySequence::from_i8(&[0; 20]);
    let encoder = PatternEncoder::new(4);
    assert!(encoder.stego_encode(&carrier, "AB", &[0, 1, 2, 3, 4, 5, 6]).is_none());
}

#[test]
fn pattern_stego_encode_skips_positions_past_end() {
    let carrier = TernarySequence::from_i8(&[0; 3]);
    let encoder = PatternEncoder::new(4);
    let hidden = encoder.stego_encode(&carrier, "A", &[0, 50, 2, 1]).unwrap();
    // 'A' is Pos Zero Neg Pos: position 50 is skipped, position 1 gets the last trit.
    assert_eq!(hidden.trits(), &[Pos, Pos, Neg]);
}

#[test]
fn pattern_stego_decode_truncates_to_char_count() {
    let carrier = TernarySequence::new(vec![Pos, Zero, Neg, Pos, Pos, Pos]);
    let encoder = PatternEncoder::new(4);
    let positions = [0, 1, 2, 3, 4, 5];
    assert_eq!(encoder.stego_decode(&carrier, &positions, 1), Some("A".to_string()));
}

#[test]
fn frequency_encode_byte_exact() {
    let modulator = FrequencyModulator::new(6);
    // 65 % 6 = 5 Neg; min((65 / 3) % 6, 6 - 5) = 1 Pos; no Zero.
    let window = modulator.encode_byte(0x41);
    assert_eq!(window, vec![Neg, Neg, Neg, Neg, Neg, Pos]);
    assert_eq!(modulator.decode_byte(&window), 8);
}

#[test]
fn frequency_decode_byte_formula() {
    let modulator = FrequencyModulator::new(3);
    let trits = vec![Pos; 90];
    // 3 * 90 = 270, mod 256 = 14
    assert_eq!(modulator.decode_byte(&trits), 14);
    assert_eq!(modulator.decode_byte(&[Neg, Zero, Pos]), 4);
}

#[test]
fn frequency_window_is_at_least_three() {
    let modulator = FrequencyModulator::new(1);
    assert_eq!(modulator.encode_byte(0), vec![Zero, Zero, Zero]);
}

#[test]
fn frequency_roundtrip_reads_window_values() {
    let carrier = TernarySequence::from_i8(&[1; 40]);
    let modulator = FrequencyModulator::new(9);
    let data = vec![0x41, 0x00, 0xFF, 0x12];
    let encoded = modulator.encode(&carrier, &data).unwrap();
    assert_eq!(encoded.len(), 40);
    assert_eq!(encoded.get(39), Some(Pos));
    let decoded = modulator.decode(&encoded, 4);
    let expected: Vec<u8> = data
        .iter()
        .map(|b| modulator.decode_byte(&modulator.encode_byte(*b)))
        .collect();
    assert_eq!(decoded, expected);
}

#[test]
fn frequency_decode_stops_at_last_whole_window() {
    let carrier = TernarySequence::from_i8(&[-1; 10]);
    let modulator = FrequencyModulator::new(3);
    assert_eq!(modulator.decode(&carrier, 5), vec![3, 3, 3]);
    assert_eq!(modulator.decode(&carrier, 2), vec![3, 3]);
}

#[test]
fn statistical_encode_bit_skips_short_blocks_and_other_bits() {
    let stego = StatisticalStego::new(5);
    let mut short = vec![Zero; 4];
    stego.encode_bit(&mut short, 1);
    assert_eq!(short, vec![Zero; 4]);
    let mut block = vec![Zero; 5];
    stego.encode_bit(&mut block, 2);
    assert_eq!(block, vec![Zero; 5]);
    stego.encode_bit(&mut block, 0);
    assert_eq!(block, vec![Neg, Neg, Zero, Zero, Zero]);
}

#[test]
fn statistical_counts() {
    assert_eq!(count_trits(&[Neg, Neg, Zero, Pos]), (2, 1, 1));
    assert_eq!(count_trits(&[]), (0, 0, 0));
}

#[test]
fn statistical_decode_bit_ties_read_zero() {
    let stego = StatisticalStego::new(0);
    assert_eq!(stego.decode_bit(&[Pos, Neg]), 0);
    assert_eq!(stego.decode_bit(&[]), 0);
    assert_eq!(stego.decode_bit(&[Pos, Zero, Zero]), 1);
}

#[test]
fn statistical_roundtrip_fails_on_opposing_carrier() {
    // Blocks of 3: one Pos written, two carrier Neg left, so bit 1 reads as 0.
    let carrier = TernarySequence::from_i8(&[-1; 24]);
    let stego = StatisticalStego::new(3);
    let encoded = stego.encode(&carrier, &[0xFF]).unwrap();
    assert_eq!(stego.decode(&encoded, 1), vec![0x00]);
}

#[test]
fn statistical_encode_needs_room() {
    let carrier = TernarySequence::from_i8(&[0; 31]);
    let stego = StatisticalStego::new(4);
    assert!(stego.encode(&carrier, &[1]).is_none());
    assert!(stego.encode(&carrier, &[]).is_some());
}

#[test]
fn statistical_decode_past_end_reads_zero_bits() {
    // Blocks of 3 over 7 trits: blocks 0, 1 whole, block 2 has one trit.
    let seq = TernarySequence::from_i8(&[1, 1, 0, -1, -1, 0, 1]);
    let stego = StatisticalStego::new(3);
    assert_eq!(stego.decode(&seq, 2), vec![0b1010_0000, 0]);
}

#[test]
fn spread_pattern_exact() {
    let ss = SpreadSpectrum::new(vec![42, 17, 99], 8);
    assert_eq!(ss.generate_pattern(4), vec![Neg, Neg, Pos, Neg]);
    assert_eq!(ss.generate_pattern(0), vec![]);
}

#[test]
fn spread_encode_bit_negates_for_zero() {
    let ss = SpreadSpectrum::new(vec![1], 3);
    let pattern = [Neg, Zero, Pos];
    assert_eq!(ss.encode_bit(1, &pattern), vec![Neg, Zero, Pos]);
    assert_eq!(ss.encode_bit(0, &pattern), vec![Pos, Zero, Neg]);
    assert_eq!(ss.encode_bit(7, &pattern), vec![Pos, Zero, Neg]);
}

#[test]
fn spread_decode_bit_uses_shorter_length() {
    let ss = SpreadSpectrum::new(vec![1], 3);
    assert_eq!(ss.decode_bit(&[Pos], &[Pos, Neg, Neg]), 1);
    assert_eq!(ss.decode_bit(&[Pos, Pos], &[Neg, Pos]), 0);
}

#[test]
fn spread_zero_pattern_loses_data() {
    // Key 1 gives pattern trit (1 * 31) % 3 = 1, i.e. Zero: nothing correlates.
    let ss = SpreadSpectrum::new(vec![1], 1);
    assert_eq!(ss.generate_pattern(1), vec![Zero]);
    let carrier = TernarySequence::from_i8(&[0; 8]);
    let encoded = ss.encode(&carrier, &[0x01]).unwrap();
    assert_eq!(ss.decode(&encoded, 1), vec![0x00]);
}

#[test]
fn spread_encode_needs_room_and_chip_rate_is_at_least_one() {
    let ss = SpreadSpectrum::new(vec![5, 6], 0);
    let carrier = TernarySequence::from_i8(&[0; 8]);
    assert!(ss.encode(&carrier, &[1, 2]).is_none());
    let encoded = ss.encode(&carrier, &[0xC3]).unwrap();
    assert_eq!(ss.decode(&encoded, 1), vec![0xC3]);
}

#[test]
fn spread_decode_short_carrier_reads_zero_bits() {
    let carrier = TernarySequence::from_i8(&[0; 70]);
    let ss = SpreadSpectrum::new(vec![42, 17, 99], 8);
    let encoded = ss.encode(&carrier, &[0x5A]).unwrap();
    assert_eq!(ss.decode(&encoded, 2), vec![0x5A, 0x00]);
}

#[test]
fn capacity_other_techniques() {
    assert_eq!(CapacityAnalyzer::max_bytes(100, "frequency"), 11);
    assert_eq!(CapacityAnalyzer::max_bytes(100, "statistical"), 3);
    assert_eq!(CapacityAnalyzer::max_bytes(100, "spread"), 1);
    assert_eq!(CapacityAnalyzer::max_bytes(100, "Bit"), 0);
    assert_eq!(CapacityAnalyzer::max_bytes(7, "bit"), 0);
}
