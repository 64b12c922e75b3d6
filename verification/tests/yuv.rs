use crabmagick_core::webp::yuv::{
    fill_rgb_buffer_fancy, fill_rgb_buffer_simple, fill_rgba_row_simple,
    fill_row_fancy_with_1_uv_row, fill_row_fancy_with_2_uv_rows,
    fill_row_fancy_with_2_uv_rows_scalar, get_fancy_chroma_value, yuv_to_b, yuv_to_g, yuv_to_r,
};

#[test]
fn test_fancy_grid() {
    let y_buffer: Vec<u8> = vec![
        77, 162, 202, 185, 28, 13, 199, 182, 135, 147, 164, 135, 66, 27, 171, 130,
    ];
    let u_buffer: Vec<u8> = vec![34, 101, 123, 163];
    let v_buffer: Vec<u8> = vec![97, 167, 149, 23];

    let mut rgb_buffer = vec![0u8; 16 * 3];
    fill_rgb_buffer_fancy::<3>(&mut rgb_buffer, &y_buffer, &u_buffer, &v_buffer, 4, 4, 4);

    let upsampled_u_buffer: [u8; 16] = [
        34, 51, 84, 101, 56, 71, 101, 117, 101, 112, 136, 148, 123, 133, 153, 163,
    ];
    let upsampled_v_buffer: [u8; 16] = [
        97, 115, 150, 167, 110, 115, 126, 131, 136, 117, 78, 59, 149, 118, 55, 23,
    ];

    let mut upsampled_rgb_buffer = vec![0u8; 16 * 3];
    for (((rgb_val, y), u), v) in upsampled_rgb_buffer
        .chunks_exact_mut(3)
        .zip(y_buffer.iter())
        .zip(upsampled_u_buffer)
        .zip(upsampled_v_buffer)
    {
        rgb_val[0] = yuv_to_r(*y, v);
        rgb_val[1] = yuv_to_g(*y, u, v);
        rgb_val[2] = yuv_to_b(*y, u);
    }

    assert_eq!(rgb_buffer, upsampled_rgb_buffer);
}

#[test]
fn test_yuv_conversions() {
    let (y, u, v) = (203, 40, 42);

    assert_eq!(yuv_to_r(y, v), 80);
    assert_eq!(yuv_to_g(y, u, v), 255);
    assert_eq!(yuv_to_b(y, u), 40);
}

#[test]
fn test_avx2_matches_scalar() {
    for &width in &[7usize, 8, 15, 16, 33, 64, 65, 100, 101, 257] {
        let chroma_width = width.div_ceil(2);
        let make = |seed: usize, len: usize| -> Vec<u8> {
            (0..len)
                .map(|i| {
                    ((i.wrapping_mul(2654435761).wrapping_add(seed.wrapping_mul(40503))) >> 5) as u8
                })
                .collect()
        };
        let y_row = make(1, width);
        let u_row_1 = make(2, chroma_width);
        let u_row_2 = make(3, chroma_width);
        let v_row_1 = make(4, chroma_width);
        let v_row_2 = make(5, chroma_width);

        let mut scalar_buf = vec![0u8; width * 3];
        let mut plain_buf = vec![0u8; width * 3];
        fill_row_fancy_with_2_uv_rows_scalar::<3>(
            &mut scalar_buf,
            &y_row,
            &u_row_1,
            &u_row_2,
            &v_row_1,
            &v_row_2,
        );
        fill_row_fancy_with_2_uv_rows::<3>(
            &mut plain_buf,
            &y_row,
            &u_row_1,
            &u_row_2,
            &v_row_1,
            &v_row_2,
        );
        assert_eq!(scalar_buf, plain_buf, "rows differ at width {}", width);
    }
}

#[test]
fn chroma_weights() {
    assert_eq!(get_fancy_chroma_value(16, 32, 48, 64), 28);
    assert_eq!(get_fancy_chroma_value(200, 200, 200, 200), 200);
    assert_eq!(get_fancy_chroma_value(255, 255, 255, 255), 255);
}

#[test]
fn one_chroma_row_is_two_equal_ones() {
    let y: Vec<u8> = vec![10, 60, 110, 160, 210];
    let u: Vec<u8> = vec![50, 128, 200];
    let v: Vec<u8> = vec![90, 128, 10];
    let mut a = vec![7u8; 20];
    let mut b = vec![7u8; 20];
    fill_row_fancy_with_1_uv_row::<4>(&mut a, &y, &u, &v);
    fill_row_fancy_with_2_uv_rows::<4>(&mut b, &y, &u, &u, &v, &v);
    assert_eq!(a, b);
    for p in a.chunks_exact(4) {
        assert_eq!(p[3], 7);
    }
    assert_eq!(&a[..3], &[yuv_to_r(10, 90), yuv_to_g(10, 50, 90), yuv_to_b(10, 50)]);
}

#[test]
fn simple_rows_share_chroma() {
    let y: Vec<u8> = vec![10, 20, 30];
    let mut rgb = vec![0u8; 9];
    fill_rgba_row_simple::<3>(&y, &vec![100, 200], &vec![60, 70], &mut rgb);
    let expected: Vec<u8> = [(10u8, 100u8, 60u8), (20, 100, 60), (30, 200, 70)]
        .iter()
        .flat_map(|(y, u, v)| [yuv_to_r(*y, *v), yuv_to_g(*y, *u, *v), yuv_to_b(*y, *u)])
        .collect();
    assert_eq!(rgb, expected);
    // Without samples pixels stay.
    let mut short = vec![9u8; 9];
    fill_rgba_row_simple::<3>(&y, &vec![100], &vec![60], &mut short);
    assert_eq!(&short[6..], &[9, 9, 9]);
}

#[test]
fn simple_image_doubles_chroma_rows() {
    let y: Vec<u8> = vec![1, 2, 3, 4, 5, 6, 7, 8];
    let u: Vec<u8> = vec![100, 120, 130, 140];
    let v: Vec<u8> = vec![90, 80, 70, 60];
    let mut rgb = vec![0u8; 24];
    fill_rgb_buffer_simple::<3>(&mut rgb, &y, &u, &v, 4, 2, 4);
    for row in 0..2usize {
        for x in 0..4usize {
            let (yy, uu, vv) = (y[row * 4 + x], u[x / 2], v[x / 2]);
            let at = 3 * (row * 4 + x);
            assert_eq!(
                &rgb[at..at + 3],
                &[yuv_to_r(yy, vv), yuv_to_g(yy, uu, vv), yuv_to_b(yy, uu)]
            );
        }
    }
}

#[test]
fn odd_sizes_are_filled_whole() {
    let (w, h, stride) = (5usize, 3usize, 16usize);
    let y: Vec<u8> = (0..stride * h).map(|i| (i * 7) as u8).collect();
    let u: Vec<u8> = (0..stride / 2 * 2).map(|i| (i * 31) as u8).collect();
    let v: Vec<u8> = (0..stride / 2 * 2).map(|i| (255 - i * 17) as u8).collect();
    let mut rgb = vec![0u8; 3 * w * h];
    fill_rgb_buffer_fancy::<3>(&mut rgb, &y, &u, &v, w, h, stride);
    let near = |i: usize, n: usize| if i % 2 == 1 { (i / 2 + 1).min(n - 1) } else { (i / 2).saturating_sub(1) };
    for row in 0..h {
        for x in 0..w {
            let mix = |p: &Vec<u8>| {
                let (m, s) = (row / 2, near(row, 2));
                let (a, b) = (x / 2, near(x, 3));
                let at = |r: usize, c: usize| p[r * stride / 2 + c] as u32;
                ((9 * at(m, a) + 3 * at(m, b) + 3 * at(s, a) + at(s, b) + 8) / 16) as u8
            };
            let (uu, vv, yy) = (mix(&u), mix(&v), y[row * stride + x]);
            let at = 3 * (row * w + x);
            assert_eq!(
                &rgb[at..at + 3],
                &[yuv_to_r(yy, vv), yuv_to_g(yy, uu, vv), yuv_to_b(yy, uu)]
            );
        }
    }
}
