use demixer::fixed_point::{fix_i32, FixI32, FixI64};
use demixer::fixed_point::types::{
    FractOnlyI32, MixerWeight, StretchedProbD, StretchedProbQ,
};

const SAMPLES: [i32; 9] = [
    0, 1, 3, 1 << 20, (1 << 21) + 1, 12345678, 0x7fff_ffff, 0x4000_0001, 77,
];

#[test]
fn mul_i32_is_symmetric() {
    for &a in SAMPLES.iter() {
        for &b in SAMPLES.iter() {
            let x = FractOnlyI32::new_unchecked(a);
            let y = FractOnlyI32::new_unchecked(b >> 2);
            let neg_x = FractOnlyI32::new_unchecked(-a);
            let p: MixerWeight = fix_i32::mul(&x, &y);
            let q: MixerWeight = fix_i32::mul(&neg_x, &y);
            assert_eq!(p.raw(), -q.raw());
            let r: MixerWeight = fix_i32::mul(&y, &x);
            assert_eq!(p.raw(), r.raw());
        }
    }
}

#[test]
fn mul_i64_is_symmetric() {
    for &a in SAMPLES.iter() {
        for &b in SAMPLES.iter() {
            let w = MixerWeight::new_unchecked(a >> 8);
            let neg_w = MixerWeight::new_unchecked(-(a >> 8));
            let st = StretchedProbD::new_unchecked(b % (12 << 21));
            let p: StretchedProbQ = fix_i32::mul_wide(&w, &st);
            let q: StretchedProbQ = fix_i32::mul_wide(&neg_w, &st);
            assert_eq!(p.raw(), -q.raw());
            let r: StretchedProbQ = fix_i32::mul_wide(&st, &w);
            assert_eq!(p.raw(), r.raw());
        }
    }
}

#[test]
fn mul_rounds_to_nearest_halves_away_from_zero() {
    let half = FractOnlyI32::half();
    let three = MixerWeight::new_unchecked(3);
    let minus_three = MixerWeight::new_unchecked(-3);
    let p: MixerWeight = fix_i32::mul(&three, &half);
    let q: MixerWeight = fix_i32::mul(&minus_three, &half);
    assert_eq!(p.raw(), 2);
    assert_eq!(q.raw(), -2);
}
