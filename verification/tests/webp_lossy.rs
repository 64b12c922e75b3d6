use crabmagick_core::raster::RgbImage;
use crabmagick_core::vp8::bool_coder::BoolEncoder;
use crabmagick_core::vp8::encoder::{
    build_vp8_frame, encode_lossy_webp, encode_lossy_webp_with_partitions, quality_to_q_index,
    wrap_riff_webp,
};
use crabmagick_core::vp8::partitions::choose_token_partitions;
use crabmagick_core::vp8::planes::{
    pad_plane_clamped, predict_bdc_4x4, predict_dc_8x8, read_block_4x4, rgb_to_yuv420,
    write_block_4x4,
};
use crabmagick_core::vp8::quant_tables::{ac_step, dc_step};
use crabmagick_core::vp8::tokens::value_to_token;
use crabmagick_core::vp8::transform::{
    dequantize_block, fdct4x4, idct4x4, idct4x4_scalar, idct4x4_sse41, iwht4x4, quantize_block,
    reconstruct_from_coeffs, residual_from_prediction,
};
use image::ImageDecoder;

fn image_from(width: u32, height: u32, f: impl Fn(u32, u32) -> [u8; 3]) -> RgbImage {
    let mut data = Vec::new();
    for y in 0..height {
        for x in 0..width {
            data.extend_from_slice(&f(x, y));
        }
    }
    RgbImage { width, height, data }
}

fn try_decode(file: &[u8]) -> Option<Vec<u8>> {
    let decoder =
        image::codecs::webp::WebPDecoder::new(std::io::Cursor::new(file.to_vec())).unwrap();
    let mut out = vec![0; decoder.total_bytes() as usize];
    decoder.read_image(&mut out).ok().map(|_| out)
}

#[test]
fn encodes_decodable_lossy_webp() {
    let img = image_from(16, 16, |x, y| {
        [
            ((x * 13 + y * 7) & 0xFF) as u8,
            ((x * 3 + y * 19) & 0xFF) as u8,
            ((x * 11 + y * 5) & 0xFF) as u8,
        ]
    });
    let encoded = encode_lossy_webp(&img, 85).expect("encode should succeed");
    let decoder = image::codecs::webp::WebPDecoder::new(std::io::Cursor::new(encoded))
        .expect("decode init should work");
    assert_eq!(decoder.dimensions(), (16, 16));
    let mut rgb = vec![0u8; decoder.total_bytes() as usize];
    decoder.read_image(&mut rgb).expect("encoded webp should decode");
    assert_eq!(rgb.len(), 16 * 16 * 3);
}

#[test]
fn multi_partition_matches_single_partition() {
    let img = image_from(200, 160, |x, y| {
        [
            ((x * 7 + y * 3) & 0xFF) as u8,
            ((x * 5 + y * 11) & 0xFF) as u8,
            ((x.wrapping_mul(2) + y * 17) & 0xFF) as u8,
        ]
    });
    assert_eq!(choose_token_partitions(160u32.div_ceil(16) as usize), 8);

    let single = encode_lossy_webp_with_partitions(&img, 90, 1).expect("single encode");
    let single_px = try_decode(&single);
    println!("N=1: decoded {}", single_px.is_some());
    for &n in &[2usize, 4, 8] {
        let enc = encode_lossy_webp_with_partitions(&img, 90, n).expect("enc");
        let px = try_decode(&enc);
        println!("N={}: decoded {}, matches {}", n, px.is_some(), px == single_px);
    }
    let multi = encode_lossy_webp(&img, 90).expect("multi-partition encode");
    let eight = encode_lossy_webp_with_partitions(&img, 90, 8).expect("enc");
    assert_eq!(multi, eight);
}

#[test]
fn idct4x4_sse41_matches_scalar() {
    let mut state: u64 = 0x1234_5678_9abc_def0;
    let mut next = || {
        state = state.wrapping_mul(6364136223846793005).wrapping_add(1442695040888963407);
        (state >> 33) as i64
    };
    for _ in 0..100_000 {
        let mut block: Vec<i32> = (0..16).map(|_| (next() % 65535 - 32767) as i32).collect();
        let mut expected = block.clone();
        idct4x4_scalar(&mut expected);
        idct4x4_sse41(&mut block);
        assert_eq!(block, expected, "lanes differ");
    }
}

#[test]
fn lanes_wrap_before_rounding() {
    // Far out of the range of coefficients the two differ.
    let mut lanes = vec![i32::MAX; 16];
    let mut scalar = lanes.clone();
    idct4x4_sse41(&mut lanes);
    idct4x4_scalar(&mut scalar);
    assert_ne!(lanes, scalar);
}

#[test]
fn transforms_of_flat_blocks() {
    let mut dc = vec![0i32; 17];
    dc[0] = 80;
    dc[16] = 5;
    idct4x4(&mut dc);
    assert_eq!(&dc[..16], &[10; 16]);
    assert_eq!(dc[16], 5);
    let mut wht = vec![0i32; 16];
    wht[0] = 21;
    iwht4x4(&mut wht);
    assert_eq!(wht, vec![3; 16]);
    // The rounding terms show through.
    assert_eq!(fdct4x4(&[0; 16]), [0, 0, 0, 0, 1, 1, 1, 1, 0, 0, 0, 0, 0, 0, 0, 0]);
}

#[test]
fn quantization_and_back() {
    let mut dct = [0i16; 16];
    dct[0] = 100;
    dct[1] = -57;
    let (q, nonzero) = quantize_block(&dct, 0);
    assert!(nonzero);
    let back = dequantize_block(&q, 0);
    assert!((back[0] - 100).abs() <= dc_step(0));
    assert!((back[1] + 57).abs() <= ac_step(0));
    assert_eq!(quantize_block(&[0; 16], 10), ([0; 16], false));
    assert_eq!(reconstruct_from_coeffs(&[0; 16], 10, 77), [77; 16]);
    assert_eq!(residual_from_prediction(&[80; 16], 77), [3; 16]);
}

#[test]
fn qualities_and_steps() {
    assert_eq!(quality_to_q_index(100), 0);
    assert_eq!(quality_to_q_index(0), 127);
    assert_eq!(quality_to_q_index(255), 0);
    assert_eq!(quality_to_q_index(50), 63);
    assert_eq!(dc_step(0), 4);
    assert_eq!(ac_step(127), 284);
    assert_eq!(dc_step(127), 157);
}

#[test]
fn impossible_images_are_refused() {
    let empty = RgbImage { width: 0, height: 3, data: Vec::new() };
    let e = encode_lossy_webp(&empty, 80).unwrap_err();
    assert_eq!(e.message(), "VP8 encoder does not support empty images");
    let wide = RgbImage { width: 16384, height: 1, data: vec![0; 3 * 16384] };
    let e = encode_lossy_webp(&wide, 80).unwrap_err();
    assert_eq!(e.message(), "VP8 encoder only supports dimensions up to 16383x16383");
}

#[test]
fn frame_header_fields() {
    let frame = build_vp8_frame(300, 200, &vec![1, 2, 3], &vec![vec![4, 5]]).unwrap();
    assert_eq!(&frame[3..6], &[0x9D, 0x01, 0x2A]);
    assert_eq!(u16::from_le_bytes([frame[6], frame[7]]), 300);
    assert_eq!(u16::from_le_bytes([frame[8], frame[9]]), 200);
    assert_eq!(&frame[10..], &[1, 2, 3, 4, 5]);
    let tag = frame[0] as u32 | (frame[1] as u32) << 8 | (frame[2] as u32) << 16;
    assert_eq!(tag >> 5, 3);
    let two = build_vp8_frame(16, 16, &vec![9], &vec![vec![1, 1, 1], vec![2]]).unwrap();
    assert_eq!(&two[10..], &[9, 3, 0, 0, 1, 1, 1, 2]);
    let file = wrap_riff_webp(&vec![7, 7, 7]);
    assert_eq!(&file[..4], b"RIFF");
    assert_eq!(&file[8..16], b"WEBPVP8 ");
    assert_eq!(&file[16..], &[3, 0, 0, 0, 7, 7, 7, 0]);
}

#[test]
fn token_categories() {
    assert_eq!(value_to_token(1).0, 1);
    assert_eq!(value_to_token(4).0, 4);
    let (_, bits, extra) = value_to_token(6);
    assert_eq!((bits, extra), (1, 1));
}

#[test]
fn partitions_grow_with_height() {
    assert_eq!(choose_token_partitions(1), 1);
    assert!(choose_token_partitions(4) <= 4);
    assert_eq!(choose_token_partitions(100), 8);
}

#[test]
fn planes_of_a_grey_image() {
    let img = image_from(3, 3, |_, _| [128, 128, 128]);
    let (y, u, v) = rgb_to_yuv420(3, 3, &img.data);
    assert_eq!(y.len(), 9);
    assert_eq!(u.len(), 4);
    assert_eq!(v, vec![128; 4]);
    assert_eq!(u, vec![128; 4]);
    assert!(y.iter().all(|p| *p == y[0]));
    let padded = pad_plane_clamped(&vec![1, 2, 3, 4], 2, 2, 4, 3);
    assert_eq!(padded, vec![1, 2, 2, 2, 3, 4, 4, 4, 3, 4, 4, 4]);
}

#[test]
fn blocks_are_read_and_written() {
    let mut plane: Vec<u8> = (0..64).collect();
    let block = read_block_4x4(&plane, 8, 4, 4);
    assert_eq!(block[0], 36);
    assert_eq!(block[15], 63);
    write_block_4x4(&mut plane, 8, 0, 0, &block);
    assert_eq!(plane[0], 36);
    assert_eq!(plane[27], 63);
    assert_eq!(predict_dc_8x8(&vec![0; 64], 8, 0, 0), 128);
    let mut flat = vec![50u8; 256];
    flat[0] = 50;
    assert_eq!(predict_bdc_4x4(&flat, 16, 4, 4), 50);
}

#[test]
fn bool_coder_is_deterministic() {
    let mut a = BoolEncoder::new();
    a.write_literal(8, 0xA5);
    a.write_bool(true, 200);
    a.write_flag(false);
    a.write_signed(4, -3);
    let mut b = BoolEncoder::new();
    for i in (0..8).rev() {
        b.write_bool((0xA5u32 >> i) & 1 == 1, 128);
    }
    b.write_bool(true, 200);
    b.write_bool(false, 128);
    b.write_signed(4, -3);
    assert_eq!(a.finish(), b.finish());
}
