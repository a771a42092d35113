use black_sea::float::{F32, F64};

/// A small generator, so that the cases are the same on every run.
fn next(state: &mut u64) -> u64 {
    *state ^= *state << 13;
    *state ^= *state >> 7;
    *state ^= *state << 17;
    *state
}

fn f32_cases() -> Vec<u32> {
    let mut v: Vec<u32> = vec![
        0, 0x8000_0000, 1, 0x8000_0001, 0x007f_ffff, 0x0080_0000, 0x3f80_0000, 0xbf80_0000,
        0x4000_0000, 0x4b80_0000, 0x4b7f_ffff, 0x4f80_0000, 0x7f7f_ffff, 0xff7f_ffff,
        0x7f80_0000, 0xff80_0000, 0x7fc0_0000, 0x3f00_0000, 0x4120_0000, 0x458f_7000,
    ];
    let mut s: u64 = 0x9e37_79b9_7f4a_7c15;
    for i in 0..160u64 {
        let r = next(&mut s);
        if i % 2 == 0 {
            v.push(r as u32);
        } else {
            v.push(((r % 6_000_000) as f32 / 1000.0 - 100.0).to_bits());
        }
    }
    v
}

fn f64_cases() -> Vec<u64> {
    let mut v: Vec<u64> = vec![
        0, 1 << 63, 1, 0x000f_ffff_ffff_ffff, 0x0010_0000_0000_0000, 1.0f64.to_bits(),
        (-1.0f64).to_bits(), 0.5f64.to_bits(), 2.5f64.to_bits(), 3.5f64.to_bits(),
        (-2.5f64).to_bits(), f64::MAX.to_bits(), f64::MIN.to_bits(), f64::INFINITY.to_bits(),
        f64::NEG_INFINITY.to_bits(), f64::NAN.to_bits(), 58.8f64.to_bits(), 17.5f64.to_bits(),
        4503599627370497.5f64.to_bits(), 9007199254740993.0f64.to_bits(), 1e300f64.to_bits(),
        0.49999999999999994f64.to_bits(), 18446744073709551615.0f64.to_bits(),
    ];
    let mut s: u64 = 0x2545_f491_4f6c_dd1d;
    for i in 0..160u64 {
        let r = next(&mut s);
        if i % 2 == 0 {
            v.push(r);
        } else {
            v.push(((r % 100_000_000) as f64 / 1_000_000.0 - 20.0).to_bits());
        }
    }
    v
}

fn same32(ours: F32, theirs: f32, what: &str) {
    if theirs.is_nan() {
        assert!(ours.is_nan(), "{what}");
    } else {
        assert_eq!(ours.to_bits(), theirs.to_bits(), "{what}");
    }
}

fn same64(ours: F64, theirs: f64, what: &str) {
    if theirs.is_nan() {
        assert!(ours.is_nan(), "{what}");
    } else {
        assert_eq!(ours.to_bits(), theirs.to_bits(), "{what}");
    }
}

#[test]
fn single_precision_agrees_with_the_machine() {
    let cases = f32_cases();
    for &a in &cases {
        let x = F32::from_bits(a);
        let hx = f32::from_bits(a);
        same32(x.sqrt(), hx.sqrt(), &format!("sqrt {hx:e}"));
        assert_eq!(x.to_u32(), hx as u32, "{hx:e} as u32");
        same64(x.to_f64(), hx as f64, &format!("{hx:e} as f64"));
        same32(x.neg(), -hx, &format!("-{hx:e}"));
        same32(x.abs(), hx.abs(), &format!("abs {hx:e}"));
        for &b in &cases {
            let y = F32::from_bits(b);
            let hy = f32::from_bits(b);
            same32(x.add(y), hx + hy, &format!("{hx:e} + {hy:e}"));
            same32(x.sub(y), hx - hy, &format!("{hx:e} - {hy:e}"));
            same32(x.mul(y), hx * hy, &format!("{hx:e} * {hy:e}"));
            same32(x.div(y), hx / hy, &format!("{hx:e} / {hy:e}"));
            assert_eq!(x.lt(y), hx < hy, "{hx:e} < {hy:e}");
            assert_eq!(x.le(y), hx <= hy, "{hx:e} <= {hy:e}");
        }
    }
}

#[test]
fn double_precision_agrees_with_the_machine() {
    let cases = f64_cases();
    for &a in &cases {
        let x = F64::from_bits(a);
        let hx = f64::from_bits(a);
        same64(x.sqrt(), hx.sqrt(), &format!("sqrt {hx:e}"));
        same64(x.round(), hx.round(), &format!("round {hx:e}"));
        assert_eq!(x.to_usize(), hx as usize, "{hx:e} as usize");
        assert_eq!(x.to_u64(), hx as u64, "{hx:e} as u64");
        same32(x.to_f32(), hx as f32, &format!("{hx:e} as f32"));
        for &b in &cases {
            let y = F64::from_bits(b);
            let hy = f64::from_bits(b);
            same64(x.add(y), hx + hy, &format!("{hx:e} + {hy:e}"));
            same64(x.sub(y), hx - hy, &format!("{hx:e} - {hy:e}"));
            same64(x.mul(y), hx * hy, &format!("{hx:e} * {hy:e}"));
            same64(x.div(y), hx / hy, &format!("{hx:e} / {hy:e}"));
            assert_eq!(x.lt(y), hx < hy, "{hx:e} < {hy:e}");
            assert_eq!(x.le(y), hx <= hy, "{hx:e} <= {hy:e}");
            if !(hx == 0.0 && hy == 0.0) {
                same64(x.max(y), hx.max(hy), &format!("max {hx:e} {hy:e}"));
                same64(x.min(y), hx.min(hy), &format!("min {hx:e} {hy:e}"));
            }
            if hx <= hy {
                for &c in &cases[0..20] {
                    let hz = f64::from_bits(c);
                    same64(F64::from_bits(c).clamp(x, y), hz.clamp(hx, hy), &format!("clamp {hz:e} {hx:e} {hy:e}"));
                }
            }
        }
    }
}

#[test]
fn integers_become_the_nearest_number() {
    let mut s: u64 = 7;
    for n in [0u64, 1, 2, 16777215, 16777216, 16777217, 16777219, 4294967295, u64::MAX, 9007199254740993] {
        same32(F32::from_u64(n), n as f32, "f32");
        same64(F64::from_u64(n), n as f64, "f64");
    }
    for i in 0..200u64 {
        let n = next_shifted(&mut s, i);
        same32(F32::from_u64(n), n as f32, "f32");
        same64(F64::from_u64(n), n as f64, "f64");
    }
}

fn next_shifted(s: &mut u64, i: u64) -> u64 {
    next(s) >> (i % 60)
}

#[test]
fn nothing_is_nearer_than_the_result() {
    // Three times a single precision number is exact in double precision.
    for n in [1u32, 2, 5, 7, 100, 8501, 16_777_215] {
        let third = F32::from_bits((n as f32).to_bits()).div(F32::from_bits(3.0_f32.to_bits()));
        let apart = |bits: u32| (3.0 * f32::from_bits(bits) as f64 - n as f64).abs();
        let bits = third.to_bits();
        assert!(apart(bits) <= apart(bits - 1));
        assert!(apart(bits) <= apart(bits + 1));
    }
}
