use ternary_steganography::capacity::CapacityAnalyzer;
use ternary_steganography::trit::count_trits;
use ternary_steganography::{
    BitEmbedder, FrequencyModulator, PatternEncoder, SpreadSpectrum, StatisticalStego,
    TernarySequence, Trit,
};

#[test]
fn test_trit_conversions() {
    assert_eq!(Trit::Neg.to_i8(), -1);
    assert_eq!(Trit::Zero.to_i8(), 0);
    assert_eq!(Trit::Pos.to_i8(), 1);
    assert_eq!(Trit::from_i8(-1), Some(Trit::Neg));
    assert_eq!(Trit::from_i8(5), None);
}

#[test]
fn test_trit_digits() {
    assert_eq!(Trit::Neg.digit(), 0);
    assert_eq!(Trit::Zero.digit(), 1);
    assert_eq!(Trit::Pos.digit(), 2);
    assert_eq!(Trit::from_digit(0), Some(Trit::Neg));
    assert_eq!(Trit::from_digit(3), None);
}

#[test]
fn test_ternary_sequence_basic() {
    let seq = TernarySequence::from_i8(&[-1, 0, 1, -1, 0]);
    assert_eq!(seq.len(), 5);
    assert_eq!(seq.get(0), Some(Trit::Neg));
    assert_eq!(seq.get(2), Some(Trit::Pos));
    assert!(!seq.is_empty());
}

#[test]
fn test_ternary_sequence_push() {
    let mut seq = TernarySequence::new(vec![]);
    seq.push(Trit::Pos);
    seq.push(Trit::Neg);
    assert_eq!(seq.len(), 2);
    assert_eq!(seq.get(0), Some(Trit::Pos));
}

#[test]
fn test_bit_embedder_encode_decode() {
    let carrier = TernarySequence::from_i8(&[0, 1, -1, 0, 1, -1, 0, 1, -1, 0, 1, -1, 0, 1, -1, 0, 1, -1, 0, 1]);
    let embedder = BitEmbedder::new(1);
    let data = vec![0x41]; // 'A'
    let encoded = embedder.encode(&carrier, &data).unwrap();
    let decoded = embedder.decode(&encoded, 1).unwrap();
    assert_eq!(decoded, data);
}

#[test]
fn test_bit_embedder_insufficient_capacity() {
    let carrier = TernarySequence::from_i8(&[0, 1]);
    let embedder = BitEmbedder::new(1);
    let data = vec![0xFF, 0xFF];
    assert!(embedder.encode(&carrier, &data).is_none());
}

#[test]
fn test_bit_embedder_multiple_bytes() {
    let carrier = TernarySequence::from_i8(&[0, 1, -1, 0, 1, -1, 0, 1, -1, 0, 1, -1, 0, 1, -1, 0, 1, -1, 0, 1, -1, 0, 1, -1]);
    let embedder = BitEmbedder::new(1);
    let data = vec![0x48, 0x69]; // "Hi"
    let encoded = embedder.encode(&carrier, &data).unwrap();
    let decoded = embedder.decode(&encoded, 2).unwrap();
    assert_eq!(decoded, data);
}

#[test]
fn test_pattern_encoder_basic() {
    let encoder = PatternEncoder::new(6);
    let encoded = encoder.encode("AB");
    let decoded = encoder.decode(&encoded);
    assert_eq!(decoded, "AB");
}

#[test]
fn test_pattern_encoder_empty() {
    let encoder = PatternEncoder::new(4);
    let encoded = encoder.encode("");
    assert_eq!(encoded.len(), 0);
    let decoded = encoder.decode(&encoded);
    assert_eq!(decoded, "");
}

#[test]
fn test_pattern_stego_encode_decode() {
    let carrier = TernarySequence::from_i8(&[0, 1, -1, 0, 1, -1, 0, 1, -1, 0, 1, -1, 0, 1]);
    let encoder = PatternEncoder::new(4);
    let positions = vec![0, 1, 2, 3, 4, 5, 6, 7];
    let encoded = encoder.stego_encode(&carrier, "A", &positions).unwrap();
    assert_eq!(encoded.len(), carrier.len());
}

#[test]
fn test_frequency_modulator_encode_byte() {
    let modulator = FrequencyModulator::new(6);
    let trits = modulator.encode_byte(0x41);
    assert_eq!(trits.len(), 6);
}

#[test]
fn test_frequency_modulator_roundtrip() {
    let carrier = TernarySequence::from_i8(&[0; 36]);
    let modulator = FrequencyModulator::new(9);
    let data = vec![0x41, 0x42, 0x43, 0x00];
    let encoded = modulator.encode(&carrier, &data).unwrap();
    let decoded = modulator.decode(&encoded, 4);
    // The roundtrip should preserve the decode
    assert_eq!(decoded.len(), 4);
}

#[test]
fn test_frequency_modulator_insufficient() {
    let carrier = TernarySequence::from_i8(&[0; 3]);
    let modulator = FrequencyModulator::new(9);
    let data = vec![0x41, 0x42];
    assert!(modulator.encode(&carrier, &data).is_none());
}

#[test]
fn test_statistical_stego_bit() {
    let stego = StatisticalStego::new(8);
    let mut block = vec![Trit::Zero; 8];
    stego.encode_bit(&mut block, 1);
    assert_eq!(stego.decode_bit(&block), 1);
    stego.encode_bit(&mut block, 0);
    assert_eq!(stego.decode_bit(&block), 0);
}

#[test]
fn test_statistical_stego_roundtrip() {
    let carrier = TernarySequence::from_i8(&[0; 256]);
    let stego = StatisticalStego::new(4);
    let data = vec![0xAB];
    let encoded = stego.encode(&carrier, &data).unwrap();
    let decoded = stego.decode(&encoded, 1);
    assert_eq!(decoded, data);
}

#[test]
fn test_spread_spectrum_pattern() {
    let ss = SpreadSpectrum::new(vec![42, 17, 99], 8);
    let pattern = ss.generate_pattern(10);
    assert_eq!(pattern.len(), 10);
    // All should be valid trits
    for t in &pattern {
        assert!(matches!(t, Trit::Neg | Trit::Zero | Trit::Pos));
    }
}

#[test]
fn test_spread_spectrum_bit() {
    let ss = SpreadSpectrum::new(vec![42, 17], 8);
    let pattern = ss.generate_pattern(8);
    let encoded = ss.encode_bit(1, &pattern);
    assert_eq!(ss.decode_bit(&encoded, &pattern), 1);
    let encoded0 = ss.encode_bit(0, &pattern);
    assert_eq!(ss.decode_bit(&encoded0, &pattern), 0);
}

#[test]
fn test_spread_spectrum_roundtrip() {
    let carrier = TernarySequence::from_i8(&[0; 128]);
    let ss = SpreadSpectrum::new(vec![42, 17, 99], 8);
    let data = vec![0x48];
    let encoded = ss.encode(&carrier, &data).unwrap();
    let decoded = ss.decode(&encoded, 1);
    assert_eq!(decoded, data);
}

#[test]
fn test_capacity_analyzer() {
    assert_eq!(CapacityAnalyzer::max_bytes(100, "bit"), 12);
    assert_eq!(CapacityAnalyzer::max_bytes(100, "pattern"), 14);
    assert!(CapacityAnalyzer::max_bytes(100, "unknown") == 0);
}
