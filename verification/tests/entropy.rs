use demixer::bit::Bit;
use demixer::entropy::FinalProbability;
use demixer::entropy::decoder::Decoder;
use demixer::entropy::encoder::Encoder;
use demixer::fixed_point::{FixI32, FixU32};
use demixer::lut::log2::Log2Lut;
use demixer::random::MersenneTwister;

fn random_symbols(seed: u64, count: usize) -> Vec<(u32, Bit)> {
    let mut mt = MersenneTwister::new_by_scalar_seed(seed);
    let mut symbols = Vec::new();
    for _ in 0..count {
        let r = mt.next_int64();
        let probability = (r % 4095 + 1) as u32;
        let threshold = (r >> 32) % 4096;
        let bit = if threshold < probability as u64 { Bit::Zero } else { Bit::One };
        symbols.push((probability, bit));
    }
    symbols
}

#[test]
fn decoder_reads_back_what_encoder_wrote() {
    for seed in 1..6u64 {
        let symbols = random_symbols(seed, 5000);
        let mut encoder = Encoder::new();
        for &(p, bit) in symbols.iter() {
            encoder.encode_bit(FinalProbability::new(p, 12), bit);
        }
        let output = encoder.finish();
        let mut decoder = Decoder::new(output);
        for &(p, bit) in symbols.iter() {
            assert!(decoder.has_input_for_next());
            assert_eq!(decoder.decode_bit(FinalProbability::new(p, 12)), bit);
        }
    }
}

#[test]
fn decoder_reads_back_extreme_probabilities() {
    let mut encoder = Encoder::new();
    let mut symbols = Vec::new();
    for i in 0..3000u32 {
        let p = if i % 3 == 0 { 1 } else if i % 3 == 1 { 4095 } else { 2048 };
        let bit = if i % 7 < 3 { Bit::One } else { Bit::Zero };
        symbols.push((p, bit));
        encoder.encode_bit(FinalProbability::new(p, 12), bit);
    }
    let output = encoder.finish();
    let mut decoder = Decoder::new(output);
    for &(p, bit) in symbols.iter() {
        assert_eq!(decoder.decode_bit(FinalProbability::new(p, 12)), bit);
    }
}

#[test]
fn decoder_reads_back_rare_events() {
    let mut encoder = Encoder::new();
    let events = [false, true, false, false, true, true, false, true, false, false];
    for &event in events.iter() {
        encoder.encode_rare_event(event);
        encoder.encode_bit(FinalProbability::new(1000, 12), Bit::One);
    }
    let output = encoder.finish();
    let mut decoder = Decoder::new(output);
    for &event in events.iter() {
        assert_eq!(decoder.decode_rare_event(), event);
        assert_eq!(decoder.decode_bit(FinalProbability::new(1000, 12)), Bit::One);
    }
}

#[test]
fn encoder_output_only_grows() {
    let mut encoder = Encoder::new();
    let mut previous: Vec<u8> = Vec::new();
    for &(p, bit) in random_symbols(42, 2000).iter() {
        encoder.encode_bit(FinalProbability::new(p, 12), bit);
        let current = encoder.output().clone();
        assert!(current.starts_with(&previous));
        previous = current;
    }
    let finished = encoder.finish();
    assert!(finished.starts_with(&previous));
}

#[test]
fn cost_of_an_even_bit_is_one_bit() {
    let lut = Log2Lut::new();
    let half = FinalProbability::new(2048, 12);
    assert_eq!(half.estimate_cost(false, &lut).raw(), 1 << 11);
    assert_eq!(half.estimate_cost(true, &lut).raw(), 1 << 11);
    let quarter = FinalProbability::new(1024, 12);
    assert_eq!(quarter.estimate_cost(false, &lut).raw(), 2 << 11);
}
