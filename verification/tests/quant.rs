//! Block formats: what is written reads back.

use moe::float::{f16_to_f32, f32_to_bf16, f32_to_f16};
use moe::quant::{dequant, quantize, reach, Row, Term, BLK};
use moe::{Dt, QT};

/// The row that a format is written from: scales and rounded levels, or the numbers.
fn row_of(dt: Dt, src: &[f32]) -> Row {
    let top = reach(dt);
    if top == 0 {
        return Row::Plain(src.iter().map(|v| v.to_bits()).collect());
    }
    let (mut scales, mut levels) = (Vec::new(), Vec::new());
    for s in src.chunks_exact(BLK) {
        let amax = s.iter().fold(0f32, |m, v| m.max(v.abs()));
        let d = amax / top as f32;
        scales.push(d.to_bits());
        let inv = if d > 0.0 { 1.0 / f32::from_bits(f16_to_f32(f32_to_f16(d.to_bits()))) } else { 0.0 };
        levels.extend(s.iter().map(|v| (v * inv).round() as i32));
    }
    Row::Levels(scales, levels)
}

fn value(t: Term) -> f32 {
    match t {
        Term::Plain(b) => f32::from_bits(b),
        Term::Scaled(d, q) => f32::from_bits(d) * q as f32,
        Term::Parted(d, s, q) => f32::from_bits(d) * s as f32 * q as f32,
        Term::Floored(d, s, q, m, o) => (f32::from_bits(d) * s as f32) * q as f32 - f32::from_bits(m) * o as f32,
    }
}

fn pack(dt: Dt, row: &[f32]) -> Vec<u8> {
    quantize(dt, &row_of(dt, row))
}

fn unpack(dt: Dt, packed: &[u8], cols: usize) -> Vec<f32> {
    dequant(dt, packed, cols).into_iter().map(value).collect()
}

#[test]
fn f16_roundtrip() {
    for v in [0.0f32, 1.0, -1.0, 0.5, 65504.0, 1e-5, -3.5, 1e-8] {
        let back = f32::from_bits(f16_to_f32(f32_to_f16(v.to_bits())));
        assert!((back - v).abs() <= v.abs() * 1e-3 + 1e-7, "{v} -> {back}");
    }
}

#[test]
fn quant_roundtrip_within_tolerance() {
    let row: Vec<f32> = (0..128).map(|i| ((i * 37 % 71) as f32 - 35.0) / 10.0).collect();
    for (dt, tol) in [
        (Dt::F32, 1e-6),
        (Dt::F16, 1e-2),
        (Dt::BF16, 5e-2),
        (Dt::Q8, 3e-2),
        (Dt::Q6, 6e-2),
        (Dt::Q5, 0.12),
        (Dt::Q4, 0.4),
    ] {
        let packed = pack(dt, &row);
        assert_eq!(packed.len(), dt.row_bytes(row.len()));
        for (a, b) in row.iter().zip(&unpack(dt, &packed, row.len())) {
            assert!((a - b).abs() < tol, "{:?}: {a} vs {b}", dt);
        }
    }
}

/// The block formats must sit in the right order on both axes: more bits
/// means more bytes and less error. A layout bug in the spare-bit planes
/// would show up here as Q5 or Q6 being no better than Q4.
#[test]
fn more_bits_costs_more_space_and_loses_less() {
    // A smooth ramp with an outlier, so the per-block scale is exercised.
    let row: Vec<f32> = (0..256).map(|i| (i as f32 / 255.0 - 0.5) * if i == 3 { 9.0 } else { 2.0 }).collect();
    let mut prev: Option<(Dt, usize, f32)> = None;
    for dt in [Dt::Q4, Dt::Q5, Dt::Q6, Dt::Q8] {
        let bytes = dt.row_bytes(row.len());
        let back = unpack(dt, &pack(dt, &row), row.len());
        let err = row.iter().zip(&back).fold(0.0f32, |m, (a, b)| m.max((a - b).abs()));
        if let Some((pdt, pbytes, perr)) = prev {
            assert!(bytes > pbytes, "{dt:?} is not larger than {pdt:?}: {bytes} vs {pbytes}");
            assert!(err < perr, "{dt:?} is not more accurate than {pdt:?}: {err} vs {perr}");
        }
        prev = Some((dt, bytes, err));
    }
    // The advertised widths, to the byte: 4.5, 5.5, 6.5 and 8.5 bits.
    for (dt, bits) in [(Dt::Q4, 4.5), (Dt::Q5, 5.5), (Dt::Q6, 6.5), (Dt::Q8, 8.5)] {
        let got = dt.row_bytes(BLK) as f32 * 8.0 / BLK as f32;
        assert!((got - bits).abs() < 1e-6, "{dt:?} costs {got} bits per weight, not {bits}");
    }
}

/// Every representable level must survive a round trip, or the high-bit
/// plane is being packed or read at the wrong offset.
#[test]
fn every_level_round_trips() {
    for (dt, levels) in [(Dt::Q4, 15i32), (Dt::Q5, 31), (Dt::Q6, 63), (Dt::Q8, 255)] {
        let half = levels / 2;
        // Exactly the grid the format quantises to, scaled by 1.
        let row: Vec<f32> = (0..BLK).map(|i| (i as i32 % (half + 1) - half / 2) as f32).collect();
        let back = unpack(dt, &pack(dt, &row), row.len());
        let amax = row.iter().fold(0f32, |m, v| m.max(v.abs()));
        let step = amax / (half as f32).max(1.0);
        for (i, (a, b)) in row.iter().zip(&back).enumerate() {
            assert!((a - b).abs() <= step * 0.75, "{dt:?} position {i}: {a} came back as {b} (step {step})");
        }
    }
}

#[test]
fn names_round_trip_through_parse() {
    for dt in [Dt::F32, Dt::F16, Dt::BF16, Dt::Q8, Dt::Q6, Dt::Q5, Dt::Q4] {
        assert_eq!(Dt::parse(dt.name()), Some(dt));
        assert_eq!(Dt::parse(&dt.name().to_lowercase()), Some(dt));
    }
    assert_eq!(Dt::parse("q3"), None);
}

/// Levels under a scale of one come back exactly, whatever they are.
#[test]
fn levels_come_back_exactly() {
    for dt in [Dt::Q4, Dt::Q5, Dt::Q6, Dt::Q8] {
        let top = reach(dt);
        let levels: Vec<i32> = (0..BLK as i32).map(|i| (i * 7) % (2 * top + 1) - top).collect();
        let packed = quantize(dt, &Row::Levels(vec![1.0f32.to_bits()], levels.clone()));
        let back: Vec<i32> = unpack(dt, &packed, BLK).into_iter().map(|v| v as i32).collect();
        assert_eq!(back, levels, "{dt:?}");
    }
}

/// Each block is cut into steps of its own: a block of large values beside one of
/// small values costs the small ones nothing.
#[test]
fn errors_stay_within_a_blocks_own_step() {
    let row: Vec<f32> = (0..4 * BLK)
        .map(|i| ((i * 29 % 61) as f32 - 30.0) * [0.05, 900.0, 1.0, 7.3][i / BLK])
        .collect();
    for dt in [Dt::Q4, Dt::Q5, Dt::Q6, Dt::Q8] {
        let back = unpack(dt, &pack(dt, &row), row.len());
        for (a, b) in row.chunks_exact(BLK).zip(back.chunks_exact(BLK)) {
            let amax = a.iter().fold(0f32, |m, v| m.max(v.abs()));
            for (x, y) in a.iter().zip(b) {
                assert!((x - y).abs() <= 0.51 * amax / reach(dt) as f32, "{dt:?}: {x} vs {y}");
            }
        }
    }
    // Under a step of one, 6.4 goes to 6 and -2.6 to -3.
    let mut few = vec![0f32; BLK];
    few[..3].copy_from_slice(&[7.0, 6.4, -2.6]);
    assert_eq!(unpack(Dt::Q4, &pack(Dt::Q4, &few), BLK)[..4], [7.0, 6.0, -3.0, 0.0]);
}

#[test]
fn brain_floats_round_to_even() {
    assert_eq!(f32_to_bf16(1.0f32.to_bits()), 0x3f80);
    assert_eq!(f32_to_bf16(0x3f80_8000), 0x3f80);
    assert_eq!(f32_to_bf16(0x3f81_8000), 0x3f82);
}

/// The K formats are read with a scale and a floor per sub-block.
#[test]
fn k_formats_are_read() {
    let mut q4k = vec![0u8; Dt::Q4K.row_bytes(256)];
    q4k[..2].copy_from_slice(&f32_to_f16(1.0f32.to_bits()).to_le_bytes());
    q4k[2..4].copy_from_slice(&f32_to_f16(0.5f32.to_bits()).to_le_bytes());
    q4k[4] = 3;
    q4k[8] = 2;
    q4k[16] = 5;
    let got = unpack(Dt::Q4K, &q4k, 256);
    assert_eq!(got[0], 3.0 * 5.0 - 0.5 * 2.0);
    assert_eq!(got[1], -1.0);
    let mut q6k = vec![0u8; Dt::Q6K.row_bytes(256)];
    q6k[208..210].copy_from_slice(&f32_to_f16(2.0f32.to_bits()).to_le_bytes());
    q6k[192] = 255;
    q6k[0] = 4;
    q6k[128] = 1;
    let got = unpack(Dt::Q6K, &q6k, 256);
    assert_eq!(got[0], 2.0 * -1.0 * (4.0 + 16.0 - 32.0));
    assert_eq!(got[64 + 16], 0.0);
}

#[test]
fn rows_of_a_view_are_its_bytes() {
    let data: &'static [u8] = Box::leak((0u8..24).collect::<Vec<u8>>().into_boxed_slice());
    let t = QT::new(Dt::F16, 3, 4, data);
    assert_eq!(t.row(1), &data[8..16]);
    assert!(Dt::Q8.fits(64) && !Dt::Q8.fits(33) && Dt::Q4K.fits(512) && !Dt::Q4K.fits(32));
    assert_eq!(Dt::F32.checked_row_bytes(usize::MAX), None);
}
