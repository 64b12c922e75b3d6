use crabmagick_core::webp::backref::{
    choose_cache_bits, find_longest_match, should_use_copy, tokenize_pixels, ColorCache, HashChain,
    Token,
};
use crabmagick_core::webp::bit_writer::BitWriter;
use crabmagick_core::webp::encoder::{ColorType, EncoderParams, EncodingError, WebPEncoder};
use crabmagick_core::webp::huffman::build_huffman_tree;
use crabmagick_core::webp::riff::{chunk_size, write_chunk};
use crabmagick_core::webp::symbols::{
    pack_pixel, pixel_channels, plane_code_to_distance, value_to_prefix,
};
use image::ImageDecoder;
use rand::RngCore;

fn random_bytes(n: usize) -> Vec<u8> {
    let mut v = vec![0; n];
    rand::thread_rng().fill_bytes(&mut v);
    v
}

fn decode(file: &[u8]) -> Vec<u8> {
    let decoder = image::codecs::webp::WebPDecoder::new(std::io::Cursor::new(file.to_vec())).unwrap();
    let mut out = vec![0; decoder.total_bytes() as usize];
    decoder.read_image(&mut out).unwrap();
    out
}

#[test]
fn write_webp() {
    let img = random_bytes(256 * 256 * 4);
    let output = WebPEncoder::new(Vec::new()).encode(&img, 256, 256, ColorType::Rgba8).unwrap();
    assert_eq!(img, decode(&output));
}

#[test]
fn write_webp_exif() {
    let img = random_bytes(256 * 256 * 3);
    let exif = random_bytes(10);

    let mut encoder = WebPEncoder::new(Vec::new());
    encoder.set_exif_metadata(exif.clone());
    let output = encoder.encode(&img, 256, 256, ColorType::Rgb8).unwrap();

    let mut decoder =
        image::codecs::webp::WebPDecoder::new(std::io::Cursor::new(output.clone())).unwrap();
    let exif2 = decoder.exif_metadata().unwrap();
    assert_eq!(img, decode(&output));
    assert_eq!(Some(exif), exif2);
}

fn roundtrip_libwebp_params(params: EncoderParams) {
    println!("Testing {params:?}");
    let img = random_bytes(256 * 256 * 4);

    let mut encoder = WebPEncoder::new(Vec::new());
    encoder.set_params(params);
    let output = encoder.encode(&img[..256 * 256 * 3], 256, 256, ColorType::Rgb8).unwrap();
    let decoded = webp::Decoder::new(&output).decode().unwrap();
    assert_eq!(img[..256 * 256 * 3], *decoded);

    let mut encoder = WebPEncoder::new(Vec::new());
    encoder.set_params(params);
    let output = encoder.encode(&img, 256, 256, ColorType::Rgba8).unwrap();
    let decoded = webp::Decoder::new(&output).decode().unwrap();
    assert_eq!(img, *decoded);

    let mut encoder = WebPEncoder::new(Vec::new());
    encoder.set_params(params);
    encoder.set_icc_profile(vec![0; 10]);
    let output = encoder.encode(&img, 256, 256, ColorType::Rgba8).unwrap();
    let decoded = webp::Decoder::new(&output).decode().unwrap();
    assert_eq!(img, *decoded);

    let mut encoder = WebPEncoder::new(Vec::new());
    encoder.set_params(params);
    encoder.set_exif_metadata(vec![0; 10]);
    let output = encoder.encode(&img, 256, 256, ColorType::Rgba8).unwrap();
    let decoded = webp::Decoder::new(&output).decode().unwrap();
    assert_eq!(img, *decoded);

    let mut encoder = WebPEncoder::new(Vec::new());
    encoder.set_params(params);
    encoder.set_xmp_metadata(vec![0; 7]);
    encoder.set_icc_profile(vec![0; 8]);
    encoder.set_icc_profile(vec![0; 9]);
    let output = encoder.encode(&img, 256, 256, ColorType::Rgba8).unwrap();
    let decoded = webp::Decoder::new(&output).decode().unwrap();
    assert_eq!(img, *decoded);
}

#[test]
fn roundtrip_libwebp() {
    roundtrip_libwebp_params(EncoderParams::default());
    roundtrip_libwebp_params(EncoderParams { use_predictor_transform: false });
}

#[test]
fn structured_images_come_back() {
    // Repetitions make copies and cache hits.
    for (w, h) in [(1u32, 1u32), (7, 3), (64, 64), (300, 5)] {
        let img: Vec<u8> =
            (0..w * h).flat_map(|i| [(i % 5) as u8 * 40, (i / 7 % 3) as u8, 200]).collect();
        let output = WebPEncoder::new(Vec::new()).encode(&img, w, h, ColorType::Rgb8).unwrap();
        let decoded = webp::Decoder::new(&output).decode().unwrap();
        assert_eq!(img, *decoded);
    }
    for color in [ColorType::L8, ColorType::La8] {
        let per = if color == ColorType::L8 { 1 } else { 2 };
        let img: Vec<u8> = (0..32 * 16 * per).map(|i| (i * 3 % 251) as u8).collect();
        let output = WebPEncoder::new(Vec::new()).encode(&img, 32, 16, color).unwrap();
        let decoded = webp::Decoder::new(&output).decode().unwrap();
        let channels = decoded.len() / (32 * 16);
        for p in 0..32 * 16 {
            assert_eq!(decoded[p * channels], img[p * per]);
            assert_eq!(decoded[p * channels + 2], img[p * per]);
            if per == 2 {
                assert_eq!(decoded[p * channels + 3], img[p * per + 1]);
            }
        }
    }
}

#[test]
fn output_is_appended() {
    let img = vec![1u8, 2, 3];
    let fresh = WebPEncoder::new(Vec::new()).encode(&img, 1, 1, ColorType::Rgb8).unwrap();
    let appended = WebPEncoder::new(vec![9, 9]).encode(&img, 1, 1, ColorType::Rgb8).unwrap();
    assert_eq!(&appended[..2], &[9, 9]);
    assert_eq!(&appended[2..], &fresh[..]);
    assert_eq!(&fresh[..4], b"RIFF");
    assert_eq!(&fresh[8..16], b"WEBPVP8L");
}

#[test]
fn impossible_dimensions_are_refused() {
    let r = WebPEncoder::new(Vec::new()).encode(&[], 0, 4, ColorType::Rgb8);
    assert_eq!(r, Err(EncodingError::InvalidDimensions));
    let wide = vec![0u8; 16385];
    let r = WebPEncoder::new(Vec::new()).encode(&wide, 16385, 1, ColorType::L8);
    assert_eq!(r, Err(EncodingError::InvalidDimensions));
    let widest = vec![0u8; 16384];
    assert!(WebPEncoder::new(Vec::new()).encode(&widest, 16384, 1, ColorType::L8).is_ok());
}

#[test]
fn bits_come_lowest_first() {
    let mut w = BitWriter::new(Vec::new());
    w.write_bits(0b101, 3);
    w.write_bits(0b11, 2);
    w.write_bits(0x1FF, 9);
    assert_eq!((w.nbits, w.writer.len()), (14, 0));
    let mut full = BitWriter::new(vec![1]);
    full.write_bits(3, 60);
    full.write_bits(0x1F, 10);
    assert_eq!((full.nbits, full.writer.len()), (6, 9));
    w.flush();
    assert_eq!(w.writer, vec![0b1111_1101, 0b0011_1111]);
}

#[test]
fn prefix_values() {
    assert_eq!(value_to_prefix(1), (0, 0, 0));
    assert_eq!(value_to_prefix(4), (3, 0, 0));
    assert_eq!(value_to_prefix(5), (4, 1, 0));
    assert_eq!(value_to_prefix(6), (4, 1, 1));
    assert_eq!(value_to_prefix(7), (5, 1, 0));
    assert_eq!(value_to_prefix(u32::MAX), (63, 30, (1 << 30) - 2));
}

#[test]
fn plane_codes() {
    assert_eq!(plane_code_to_distance(10, 1), 10);
    assert_eq!(plane_code_to_distance(10, 2), 1);
    assert_eq!(plane_code_to_distance(10, 121), 1);
    assert_eq!(plane_code_to_distance(10, 130), 10);
}

#[test]
fn pixels_are_packed_and_taken_apart() {
    let p = pack_pixel(&[1, 2, 3, 4]);
    assert_eq!(p, 0x0401_0203);
    assert_eq!(pixel_channels(p), (1, 2, 3, 4));
}

#[test]
fn huffman_lengths() {
    let mut lengths = vec![0u8; 4];
    let mut codes = vec![0u16; 4];
    assert!(build_huffman_tree(&[8, 4, 2, 1], &mut lengths, &mut codes, 15));
    assert_eq!(lengths, vec![1, 2, 3, 3]);
    // One symbol makes no tree.
    assert!(!build_huffman_tree(&[0, 7, 0, 0], &mut lengths, &mut codes, 15));
}

#[test]
fn repeated_pixels_become_a_copy() {
    let pixels = vec![0xFF00_0000u32; 64];
    let (tokens, _) = tokenize_pixels(&pixels, None);
    let mut out: Vec<u32> = Vec::new();
    for t in &tokens {
        match t {
            Token::Literal(p) => out.push(*p),
            Token::Copy { len, dist } => {
                for _ in 0..*len {
                    out.push(out[out.len() - *dist as usize]);
                }
            }
            Token::CacheHit(_) => unreachable!(),
        }
    }
    assert_eq!(out, pixels);
    assert!(tokens.len() < 4);
}

#[test]
fn tokens_with_a_cache_replay() {
    let pixels: Vec<u32> = (0..200u32).map(|i| 0xFF00_0000 | (i * i % 23) << 8).collect();
    let bits = 4u8;
    let (tokens, _) = tokenize_pixels(&pixels, Some(bits));
    let mut cache = ColorCache::new(bits);
    let mut out: Vec<u32> = Vec::new();
    for t in &tokens {
        match t {
            Token::Literal(p) => {
                out.push(*p);
                cache.insert(*p);
            }
            Token::CacheHit(i) => {
                let p = cache.table[*i as usize];
                out.push(p);
                cache.insert(p);
            }
            Token::Copy { len, dist } => {
                for _ in 0..*len {
                    let p = out[out.len() - *dist as usize];
                    out.push(p);
                    cache.insert(p);
                }
            }
        }
    }
    assert_eq!(out, pixels);
}

#[test]
fn cache_lookup_follows_insert() {
    let mut cache = ColorCache::new(6);
    assert_eq!(cache.lookup(0xFF12_3456), None);
    cache.insert(0xFF12_3456);
    assert!(cache.lookup(0xFF12_3456).is_some());
}

#[test]
fn longest_match_is_found() {
    let pixels: Vec<u32> = vec![1, 2, 3, 4, 5, 6, 1, 2, 3, 4, 5, 9];
    let chain = HashChain::build(&pixels);
    assert_eq!(find_longest_match(&pixels, &chain, 6), Some((5, 6)));
    assert_eq!(find_longest_match(&pixels, &chain, 0), None);
    assert!(should_use_copy(64, 1, false));
    assert!(choose_cache_bits(1) <= choose_cache_bits(1_000_000));
}

#[test]
fn chunks_are_padded() {
    let mut out = Vec::new();
    write_chunk(&mut out, b"TEST", &[1, 2, 3]);
    assert_eq!(out, vec![b'T', b'E', b'S', b'T', 3, 0, 0, 0, 1, 2, 3, 0]);
    assert_eq!(chunk_size(3), 12);
    assert_eq!(chunk_size(4), 12);
}
