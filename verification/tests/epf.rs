use crabmagick_core::jxl::epf::{
    epf_kernel_offsets, epf_row, inner_range, EpfPart, EpfPixel, EpfRows,
};

const WIDTH: usize = 48;
const ROWS: usize = 7;

const CHANNEL_SCALE: [f32; 3] = [40.0, 5.0, 3.5];
const PASS0_SIGMA_SCALE: f32 = 0.9;
const PASS2_SIGMA_SCALE: f32 = 6.5;
const BORDER_SAD_MUL: f32 = 2.0 / 3.0;

// Deterministic smooth-ish data in a narrow range, so that weights are neither all zero nor all
// one.
fn make_channel(seed: u64) -> Vec<f32> {
    let mut s = seed ^ 0x9e3779b97f4a7c15;
    let mut out = Vec::with_capacity(ROWS * WIDTH);
    for _ in 0..ROWS * WIDTH {
        s ^= s << 13;
        s ^= s >> 7;
        s ^= s << 17;
        let noise = ((s >> 40) as f32) / ((1u64 << 24) as f32);
        out.push(0.5 + 0.02 * (noise - 0.5));
    }
    out
}

fn step_multiplier(step: usize) -> f32 {
    match step {
        0 => PASS0_SIGMA_SCALE,
        2 => PASS2_SIGMA_SCALE,
        _ => 1.0,
    }
}

fn weight(distance: f32, sigma: f32, multiplier: f32) -> f32 {
    let neg_inv_sigma = 6.6 * (std::f32::consts::FRAC_1_SQRT_2 - 1.0) / sigma * multiplier;
    (distance * neg_inv_sigma + 1.0).max(0.0)
}

fn filter(p: &EpfPixel, step: usize) -> [u32; 3] {
    let sigma = f32::from_bits(p.sigma);
    let original: Vec<f32> = p.original.iter().map(|v| f32::from_bits(*v)).collect();
    if sigma < 0.3 {
        return [p.original[0], p.original[1], p.original[2]];
    }
    let mut multiplier = step_multiplier(step);
    if p.border {
        multiplier *= BORDER_SAD_MUL;
    }
    let mut sum_weights = 1.0f32;
    let mut sums = [original[0], original[1], original[2]];
    for tap in &p.taps {
        let n = tap.around.len() / 3;
        let mut distance = 0.0f32;
        for c in 0..3 {
            let mut acc = 0.0f32;
            for i in 0..n {
                acc += (f32::from_bits(tap.around[c * n + i])
                    - f32::from_bits(tap.base[c * n + i]))
                .abs();
            }
            distance += CHANNEL_SCALE[c] * acc;
        }
        let w = weight(distance, sigma, multiplier);
        sum_weights += w;
        for c in 0..3 {
            sums[c] += w * f32::from_bits(tap.value[c]);
        }
    }
    [
        (sums[0] / sum_weights).to_bits(),
        (sums[1] / sum_weights).to_bits(),
        (sums[2] / sum_weights).to_bits(),
    ]
}

fn mirror(x: i64, n: i64) -> usize {
    let m = if x < 0 {
        -x - 1
    } else if x >= n {
        2 * n - 1 - x
    } else {
        x
    };
    m as usize
}

// The filter written down on the samples themselves.
fn reference(chans: &[Vec<f32>], y: usize, sigma_row: &[f32], step: usize, c: usize, x: usize) -> f32 {
    let at = |c: usize, x: i64, row: i64| chans[c][row as usize * WIDTH + mirror(x, WIDTH as i64)];
    let x = x as i64;
    let sigma = sigma_row[x as usize / 8];
    if sigma < 0.3 {
        return at(c, x, 3);
    }
    let mut offsets: Vec<(i64, i64)> = Vec::new();
    let far: i64 = if step == 0 { 2 } else { 1 };
    for dy in -far..=far {
        for dx in -far..=far {
            let d = dx.abs() + dy.abs();
            if d > 0 && d <= far {
                offsets.push((dx, dy));
            }
        }
    }
    let near: Vec<(i64, i64)> = if step == 2 {
        vec![(0, 0)]
    } else {
        vec![(0, 0), (-1, 0), (1, 0), (0, -1), (0, 1)]
    };
    let on_border = x % 8 == 0 || x % 8 == 7 || y % 8 == 0 || y % 8 == 7;
    let multiplier = step_multiplier(step) * if on_border { BORDER_SAD_MUL } else { 1.0 };
    let mut sum_weights = 1.0f32;
    let mut sum = at(c, x, 3);
    for (kx, ky) in offsets {
        let mut distance = 0.0f32;
        for ch in 0..3 {
            for (ix, iy) in &near {
                distance += CHANNEL_SCALE[ch]
                    * (at(ch, x + kx + ix, 3 + ky + iy) - at(ch, x + ix, 3 + iy)).abs();
            }
        }
        let w = weight(distance, sigma, multiplier);
        sum_weights += w;
        sum += w * at(c, x + kx, 3 + ky);
    }
    sum / sum_weights
}

fn run_case(step: usize, y: usize, sigma_row: &[f32]) {
    let chans: Vec<Vec<f32>> = (0..3).map(|c| make_channel(c as u64 + 1)).collect();
    let rows: EpfRows = chans
        .iter()
        .map(|ch| {
            (0..ROWS)
                .map(|r| ch[r * WIDTH..(r + 1) * WIDTH].iter().map(|v| v.to_bits()).collect())
                .collect()
        })
        .collect();
    let sigma_bits: Vec<u32> = sigma_row.iter().map(|v| v.to_bits()).collect();
    let kernel = |p: &EpfPixel| filter(p, step);

    let mut whole: Vec<Vec<u32>> = vec![vec![0u32; WIDTH]; 3];
    epf_row(&kernel, &rows, WIDTH, &sigma_bits, step, y, EpfPart::Whole, &mut whole);

    let mut parts: Vec<Vec<u32>> = vec![vec![0u32; WIDTH]; 3];
    epf_row(&kernel, &rows, WIDTH, &sigma_bits, step, y, EpfPart::Inner, &mut parts);
    let (first, last) = inner_range(WIDTH, step);
    for c in 0..3 {
        for x in 0..WIDTH {
            if x < first || x >= last {
                assert_eq!(parts[c][x], 0);
            }
        }
    }
    epf_row(&kernel, &rows, WIDTH, &sigma_bits, step, y, EpfPart::Border, &mut parts);

    for c in 0..3 {
        for x in 0..WIDTH {
            let a = f32::from_bits(whole[c][x]);
            let b = f32::from_bits(parts[c][x]);
            assert!(
                (a - b).abs() <= 1e-4,
                "step={} y={} c={} x={}: whole={} parts={}",
                step,
                y,
                c,
                x,
                a,
                b
            );
            let e = reference(&chans, y, sigma_row, step, c, x);
            assert!((a - e).abs() <= 1e-4, "step={} y={} c={} x={}: {} {}", step, y, c, x, a, e);
        }
    }
}

fn sigma_all(v: f32) -> Vec<f32> {
    vec![v; WIDTH.div_ceil(8)]
}

fn sigma_mixed() -> Vec<f32> {
    (0..WIDTH.div_ceil(8)).map(|i| if i % 2 == 0 { 1.7 } else { 0.1 }).collect()
}

#[test]
fn avx2_matches_generic_step0() {
    run_case(0, 4, &sigma_all(1.7));
    run_case(0, 7, &sigma_all(1.7));
    run_case(0, 5, &sigma_mixed());
}

#[test]
fn avx2_matches_generic_step1() {
    run_case(1, 4, &sigma_all(1.7));
    run_case(1, 7, &sigma_all(1.7));
    run_case(1, 5, &sigma_mixed());
}

#[test]
fn avx2_matches_generic_step2() {
    run_case(2, 4, &sigma_all(1.7));
    run_case(2, 7, &sigma_all(1.7));
    run_case(2, 5, &sigma_mixed());
}

#[test]
fn kernel_offsets_have_the_documented_counts() {
    assert_eq!(epf_kernel_offsets(0).len(), 12);
    assert_eq!(epf_kernel_offsets(1).len(), 4);
    assert_eq!(epf_kernel_offsets(2).len(), 4);
}

#[test]
fn inner_range_stays_clear_of_the_edges() {
    assert_eq!(inner_range(48, 0), (8, 40));
    assert_eq!(inner_range(48, 2), (8, 40));
    assert_eq!(inner_range(50, 2), (8, 48));
    assert_eq!(inner_range(5, 0), (8, 8));
    assert_eq!(inner_range(10, 0), (8, 8));
}
