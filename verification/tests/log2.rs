use demixer::fixed_point::FixU32;
use demixer::fixed_point::types::FractOnlyU32;
use demixer::lut::log2::{Log2Lut, one_plus_log2_restricted};

#[test]
fn lut_is_correct() {
    let lut = Log2Lut::new();
    let bits = 11;
    let scale: u32 = 1 << bits;
    for (index, input) in (scale..scale * 2).enumerate() {
        let log2_fract = (input as f64).log2().fract();
        let output = (log2_fract * scale as f64).round() as u32 + scale;
        assert!(output >= input);
        let diff = output - input;
        assert!(diff <= 176);
        assert_eq!(diff as u8, lut.0[index]);
        assert_eq!(lut.log2_restricted(input), output - scale);
    }
}

#[test]
fn binary_logarithm_computation_is_correct() {
    for input in 500..1000 {
        let input = input as f64 / 1000.0;
        let expected = input.log2() + 1.0;
        let result = one_plus_log2_restricted(
            FractOnlyU32::new((((1u32 << 31) as f64) * input) as u32, 31));
        let actual = result.raw() as f64 / (1u64 << 31) as f64;
        assert!((actual - expected).abs() < 0.00001);
    }
}

#[test]
fn one_half_has_logarithm_minus_one() {
    assert_eq!(one_plus_log2_restricted(FractOnlyU32::new(0x4000_0000, 31)).raw(), 0);
}
