use jpeg_decoder::color::{clamp_to_u8, y_cb_cr_to_rgb};
use jpeg_decoder::transform::{
    dequantize, discrete_cosine_transform_inverse, zigzag, zigzag_inverse,
};

const ZIGZAG: [usize; 64] = [
    0, 1, 8, 16, 9, 2, 3, 10, 17, 24, 32, 25, 18, 11, 4, 5, 12, 19, 26, 33, 40, 48, 41, 34, 27,
    20, 13, 6, 7, 14, 21, 28, 35, 42, 49, 56, 57, 50, 43, 36, 29, 22, 15, 23, 30, 37, 44, 51, 58,
    59, 52, 45, 38, 31, 39, 46, 53, 60, 61, 54, 47, 55, 62, 63,
];

#[test]
fn zigzag_matches_the_standard_order() {
    let natural: Vec<i32> = (0..64).collect();
    let zz = zigzag(&natural);
    for k in 0..64 {
        assert_eq!(zz[k] as usize, ZIGZAG[k]);
    }
}

#[test]
fn zigzag_round_trip_both_ways() {
    let v: Vec<i32> = (0..64).map(|i| i * 7 - 100).collect();
    assert_eq!(zigzag_inverse(&zigzag(&v)), v);
    assert_eq!(zigzag(&zigzag_inverse(&v)), v);
}

#[test]
fn dequantize_is_elementwise() {
    let block: Vec<i16> = (0..64).map(|i| (i as i16) - 32).collect();
    let quant: Vec<u8> = (0..64).map(|i| (i % 5 + 1) as u8).collect();
    let deq = dequantize(&block, &quant);
    for i in 0..64 {
        assert_eq!(deq[i], block[i] as i32 * quant[i] as i32);
    }
}

#[test]
fn idct_of_zero_block_is_zero() {
    let coeffs = vec![0i32; 64];
    let out = discrete_cosine_transform_inverse(&coeffs);
    assert_eq!(out, vec![0i32; 64]);
}

#[test]
fn idct_of_pure_dc_is_flat() {
    // with F(0,0) = 800 every sample is 800/8 = 100
    let mut coeffs = vec![0i32; 64];
    coeffs[0] = 800;
    let out = discrete_cosine_transform_inverse(&coeffs);
    for &s in &out {
        assert_eq!(s, 100);
    }
}

fn dct_f64(x: &[f64; 64]) -> [f64; 64] {
    let pi = std::f64::consts::PI;
    let alpha = |u: usize| if u == 0 { 1.0 / 2f64.sqrt() } else { 1.0 };
    let mut out = [0.0f64; 64];
    for v in 0..8 {
        for u in 0..8 {
            let mut sum = 0.0;
            for y in 0..8 {
                for xx in 0..8 {
                    sum += x[8 * y + xx]
                        * ((2.0 * xx as f64 + 1.0) * u as f64 * pi / 16.0).cos()
                        * ((2.0 * y as f64 + 1.0) * v as f64 * pi / 16.0).cos();
                }
            }
            out[8 * v + u] = alpha(u) * alpha(v) * sum / 4.0;
        }
    }
    out
}

#[test]
fn idct_inverts_dct_within_tolerance() {
    // a smooth centered ramp; coefficients rounded to integers
    let mut x = [0.0f64; 64];
    for yy in 0..8 {
        for xx in 0..8 {
            x[8 * yy + xx] = (xx as f64) * 14.0 + (yy as f64) * 6.0 - 80.0;
        }
    }
    let coeffs_f = dct_f64(&x);
    let coeffs: Vec<i32> = coeffs_f.iter().map(|&c| c.round() as i32).collect();
    let out = discrete_cosine_transform_inverse(&coeffs);
    for i in 0..64 {
        let err = (out[i] as f64 - x[i]).abs();
        assert!(err <= 3.0, "sample {i}: got {}, want {}, err {err}", out[i], x[i]);
    }
}

#[test]
fn color_conversion_maps_zero_to_zero() {
    let rgb = y_cb_cr_to_rgb(0, 0, 0);
    assert_eq!(rgb, (0, 0, 0));
}

#[test]
fn color_conversion_known_values() {
    // r = y + 1.402 * cr, b = y + 1.772 * cb in 16-bit fixed point
    let rgb = y_cb_cr_to_rgb(0, 100, 100);
    assert_eq!(rgb.0, 140);
    assert_eq!(rgb.2, 177);
    assert_eq!(rgb.1, -106);
}

#[test]
fn color_conversion_pure_luma() {
    let rgb = y_cb_cr_to_rgb(55, 0, 0);
    assert_eq!(rgb.0, 55);
    assert_eq!(rgb.1, 55);
    assert_eq!(rgb.2, 55);
}

#[test]
fn clamp_saturates_both_ends() {
    assert_eq!(clamp_to_u8(-5), 0);
    assert_eq!(clamp_to_u8(0), 0);
    assert_eq!(clamp_to_u8(128), 128);
    assert_eq!(clamp_to_u8(255), 255);
    assert_eq!(clamp_to_u8(300), 255);
}
