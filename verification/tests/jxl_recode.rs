use crabmagick_core::jxl::f16::f32_to_f16_bits;
use crabmagick_core::jxl::jpeg_data::{
    map_jpeg_coefficients, JpegComponent, JpegComponentType, JpegData, JpegQuantTable,
};
use crabmagick_core::jxl::jpeg_encode::{
    build_dc_dequant, build_jpeg_file_header, build_jpeg_frame_header, build_raw_qtables,
    encode_jpeg_to_jxl, encode_jpeg_to_jxl_container, encode_jpeg_to_jxl_container_sequential,
    encode_jpeg_to_jxl_inner, encode_jpeg_to_jxl_sequential, fill_container, RecodePlan,
    SideData,
};
use crabmagick_core::jxl::jpeg_recode::{
    aligned_count_in_range, ceil_log2_nonzero, channel_shifts, compute_jpeg_upsampling,
    estimate_jpeg_ac_tokens_for_group, write_ac_global_jpeg, write_dc_global_jpeg, BlockRegion,
    RecodeError, SectionOp, Shift,
};

fn component(id: u32, h: u32, v: u32, quant_idx: u32, blocks: u32) -> JpegComponent {
    JpegComponent {
        id,
        h_samp_factor: h,
        v_samp_factor: v,
        quant_idx,
        width_in_blocks: blocks,
        height_in_blocks: blocks,
        coeffs: Vec::new(),
    }
}

fn sampled(h: u32, v: u32) -> JpegData {
    JpegData {
        width: 128,
        height: 128,
        is_progressive: false,
        quant: Vec::new(),
        components: vec![
            component(1, h, v, 0, 16),
            component(2, 1, 1, 1, 8),
            component(3, 1, 1, 1, 8),
        ],
        component_type: JpegComponentType::YCbCr,
        icc: None,
    }
}

// A picture of 16 by 16 pixels without subsampling; coefficients count up.
fn small(progressive: bool, count: usize) -> JpegData {
    let mut components = Vec::new();
    for c in 0..count {
        let mut comp = component(c as u32 + 1, 1, 1, (c % 2) as u32, 2);
        comp.coeffs = (0..256).map(|i| ((i * 7 + c * 3) % 11) as i16 - 5).collect();
        components.push(comp);
    }
    let mut first = [0i32; 64];
    let mut second = [0i32; 64];
    for i in 0..64 {
        first[i] = i as i32 + 1;
        second[i] = 100 + i as i32;
    }
    JpegData {
        width: 16,
        height: 16,
        is_progressive: progressive,
        quant: vec![JpegQuantTable { values: first }, JpegQuantTable { values: second }],
        components,
        component_type: JpegComponentType::YCbCr,
        icc: None,
    }
}

#[test]
fn test_f16_conversion() {
    assert_eq!(f32_to_f16_bits(1.0f32.to_bits()).unwrap(), 0x3C00);
    assert_eq!(f32_to_f16_bits(0.0f32.to_bits()).unwrap(), 0x0000);
    assert_eq!(f32_to_f16_bits((-1.0f32).to_bits()).unwrap(), 0xBC00);
    let qtable_den = 1.0f32 / 2040.0;
    let bits = f32_to_f16_bits(qtable_den.to_bits()).unwrap();
    assert!(bits > 0 && bits < 0x4000, "qtable_den f16 bits = 0x{bits:04X}");
}

#[test]
fn f16_limits() {
    assert_eq!(f32_to_f16_bits(65504.0f32.to_bits()).unwrap(), 0x7BFF);
    assert!(f32_to_f16_bits(1.0e6f32.to_bits()).is_err());
    assert!(f32_to_f16_bits(f32::INFINITY.to_bits()).is_err());
    assert_eq!(f32_to_f16_bits(0.5f32.to_bits()).unwrap(), 0x3800);
    assert_eq!(f32_to_f16_bits(6.103515625e-5f32.to_bits()).unwrap(), 0x0400);
}

#[test]
fn test_compute_jpeg_upsampling() {
    let c_map = [1usize, 0, 2];
    let up = compute_jpeg_upsampling(&sampled(2, 2), &c_map);
    assert_eq!(up, [0, 1, 0], "expected [0,1,0] for 4:2:0 YCbCr");

    let up_422 = compute_jpeg_upsampling(&sampled(2, 1), &c_map);
    assert_eq!(up_422, [0, 2, 0], "expected [0,2,0] for 4:2:2 YCbCr");

    let up_440 = compute_jpeg_upsampling(&sampled(1, 2), &c_map);
    assert_eq!(up_440, [0, 3, 0], "expected [0,3,0] for 4:4:0 YCbCr");

    let up_444 = compute_jpeg_upsampling(&sampled(1, 1), &c_map);
    assert_eq!(up_444, [0, 0, 0], "expected [0,0,0] for 4:4:4 YCbCr");
}

#[test]
fn shifts_follow_the_largest_factor() {
    assert_eq!(
        channel_shifts(&[0, 1, 0]),
        [Shift { h: 1, v: 1 }, Shift { h: 0, v: 0 }, Shift { h: 1, v: 1 }]
    );
    assert_eq!(channel_shifts(&[0, 0, 0]), [Shift { h: 0, v: 0 }; 3]);
}

#[test]
fn coefficients_are_kept() {
    let jpeg = small(false, 3);
    let channels = map_jpeg_coefficients(&jpeg, &[1, 0, 2], false);
    assert_eq!(channels.len(), 3);
    for (c, comp) in [1usize, 0, 2].iter().enumerate() {
        for by in 0..2 {
            for bx in 0..2 {
                let block = &jpeg.components[*comp].coeffs[64 * (by * 2 + bx)..][..64];
                let row = &channels[c][by];
                assert_eq!(row.dc[bx], block[0]);
                let nz = block[1..].iter().filter(|v| **v != 0).count();
                assert_eq!(row.nz[bx] as usize, nz);
                let mut mapped: Vec<i32> = row.ac[bx].to_vec();
                let mut source: Vec<i32> = block.iter().map(|v| *v as i32).collect();
                mapped[0] = 0;
                source[0] = 0;
                mapped.sort();
                source.sort();
                assert_eq!(mapped, source);
                // Rows and columns change places.
                assert_eq!(row.ac[bx][1], block[8] as i32);
            }
        }
    }
    let again = map_jpeg_coefficients(&jpeg, &[1, 0, 2], true);
    assert_eq!(again[2][1].ac[1], channels[2][1].ac[1]);
}

#[test]
fn tables_of_a_picture() {
    let jpeg = small(false, 3);
    let tables = build_raw_qtables(&jpeg, &[1, 0, 2]);
    assert_eq!(tables.len(), 192);
    assert_eq!(tables[0], 100);
    assert_eq!(tables[64], 1);
    assert_eq!(build_dc_dequant(&jpeg, &[1, 0, 2]), [100, 1, 1]);
    let header = build_jpeg_file_header(30, 20, true, false);
    assert_eq!((header.width, header.height, header.is_gray), (30, 20, true));
    let frame = build_jpeg_frame_header(&jpeg, [0, 0, 0]);
    assert!(frame.is_vardct && frame.do_ycbcr && !frame.gaborish);
}

#[test]
fn plans_cover_all_blocks() {
    let jpeg = small(false, 3);
    let plan = encode_jpeg_to_jxl_inner(&jpeg, false).ok().unwrap();
    assert_eq!((plan.size.xsize_blocks, plan.size.ysize_blocks), (2, 2));
    assert_eq!(plan.ac_groups.len(), 1);
    assert_eq!(plan.ac_groups[0].len(), 12);
    assert_eq!(plan.ac_groups[0][0].predicted, 32);
    let same = encode_jpeg_to_jxl_inner(&jpeg, true).ok().unwrap();
    assert_eq!(plan.ac_groups[0], same.ac_groups[0]);
}

#[test]
fn color_profiles_are_kept() {
    let mut jpeg = small(false, 3);
    let plan = encode_jpeg_to_jxl_inner(&jpeg, false).ok().unwrap();
    assert!(!plan.file_header.want_icc && plan.icc.is_none());
    jpeg.icc = Some(vec![1, 2, 3]);
    let plan = encode_jpeg_to_jxl_inner(&jpeg, true).ok().unwrap();
    assert!(plan.file_header.want_icc);
    assert_eq!(plan.icc, Some(vec![1, 2, 3]));
}

#[test]
fn other_component_counts_are_refused() {
    let jpeg = small(false, 2);
    assert!(matches!(encode_jpeg_to_jxl_inner(&jpeg, false), Err(RecodeError::ComponentCount(2))));
    let code = |_: &RecodePlan| -> Result<(Vec<u8>, usize), RecodeError> { Ok((vec![1], 0)) };
    let e = encode_jpeg_to_jxl(&jpeg, code).unwrap_err();
    assert_eq!(e, RecodeError::ComponentCount(2));
    assert_eq!(e.message(), "JPEG reencoding requires 1 or 3 components, got 2");
}

#[test]
fn codestreams_come_from_the_coder() {
    let code = |plan: &RecodePlan| -> Result<(Vec<u8>, usize), RecodeError> {
        Ok((vec![0xFF, 0x0A, plan.ac_groups[0].len() as u8, 4, 5], 2))
    };
    let failing = |_: &RecodePlan| -> Result<(Vec<u8>, usize), RecodeError> { Err(RecodeError::Coder) };
    for count in [1usize, 3] {
        let jpeg = small(false, count);
        let out = encode_jpeg_to_jxl(&jpeg, code).unwrap();
        assert_eq!(&out[..2], &[0xFF, 0x0A]);
        assert_eq!(out, encode_jpeg_to_jxl_sequential(&jpeg, code).unwrap());
    }
    assert_eq!(encode_jpeg_to_jxl(&small(false, 3), failing), Err(RecodeError::Coder));
}

#[test]
fn containers_split_at_the_header() {
    let code = |_: &RecodePlan| -> Result<(Vec<u8>, usize), RecodeError> { Ok((vec![1, 2, 3, 4], 3)) };
    let side = |_: &JpegData| SideData { jbrd: Ok(vec![7]), exif: Some(vec![8]), xmp: None };
    let jpeg = small(false, 3);
    let out = encode_jpeg_to_jxl_container(&jpeg, code, side).ok().unwrap();
    assert_eq!((out.head, out.tail), (vec![1, 2, 3], vec![4]));
    assert_eq!((out.jbrd, out.exif, out.xmp), (vec![7], Some(vec![8]), None));
    // What restores the file is there for a progressive file too.
    let out = encode_jpeg_to_jxl_container_sequential(&small(true, 3), code, side).ok().unwrap();
    assert_eq!((out.head, out.tail, out.jbrd), (vec![1, 2, 3], vec![4], vec![7]));
    let none = |_: &JpegData| SideData { jbrd: Err(RecodeError::Coder), exif: None, xmp: None };
    for progressive in [false, true] {
        let r = encode_jpeg_to_jxl_container(&small(progressive, 3), code, none);
        assert!(matches!(r, Err(RecodeError::Coder)));
    }
    let broken = SideData { jbrd: Err(RecodeError::Coder), exif: None, xmp: None };
    assert!(matches!(fill_container(vec![1], 0, broken), Err(RecodeError::Coder)));
}

#[test]
fn group_estimates() {
    assert_eq!(aligned_count_in_range(0, 32, 0), 32);
    assert_eq!(aligned_count_in_range(0, 32, 1), 16);
    assert_eq!(aligned_count_in_range(1, 4, 1), 1);
    let region = BlockRegion { start_bx: 0, start_by: 0, end_bx: 2, end_by: 2 };
    let none = [Shift { h: 0, v: 0 }; 3];
    let full = estimate_jpeg_ac_tokens_for_group(&region, &none);
    let halved = estimate_jpeg_ac_tokens_for_group(
        &region,
        &[Shift { h: 1, v: 1 }, Shift { h: 0, v: 0 }, Shift { h: 1, v: 1 }],
    );
    assert!(full > halved);
    assert_eq!(ceil_log2_nonzero(1), 0);
    assert_eq!(ceil_log2_nonzero(5), 3);
    assert_eq!(ceil_log2_nonzero(8), 3);
}

#[test]
fn global_sections() {
    let dc = write_dc_global_jpeg(&[5, 6, 7], 2);
    assert!(dc.contains(&SectionOp::DcQuant(6)));
    assert!(dc.contains(&SectionOp::ContextTree { num_dc_groups: 2 }));
    let one = write_ac_global_jpeg(1);
    let many = write_ac_global_jpeg(5);
    assert!(one.len() >= 3);
    assert!(many.iter().any(|op| matches!(op, SectionOp::Bits { n: 3, .. })));
}
