use crabmagick_core::jxl::block::{BlockInfo, ChannelShift, TransformType};
use crabmagick_core::jxl::compact::{
    write_hf_coeff_compact, write_hf_coeff_direct, CompactHfCoeffStore, HfBlock,
};
use crabmagick_core::jxl::error::{
    BitstreamError, CodingError, ColorError, IoErrorKind, ModularError, OutOfMemory, VardctError,
};
use crabmagick_core::jxl::frame_error;
use crabmagick_core::jxl::grid::{Grid, SharedSubgrid};
use crabmagick_core::jxl::hf_coeff::{HfBlockContext, HfCoeffParams, HfPass};
use crabmagick_core::jxl::hf_decode::unpack_signed;
use crabmagick_core::jxl::hf_store::write_hf_coeff;
use crabmagick_core::jxl::noise::NoiseParameters;
use crabmagick_core::jxl::pass_group::{
    decode_hf_coeff_direct, decode_pass_group, decode_pass_group_compact,
    decode_pass_group_modular, FrameHeader, HfGlobal, LfGlobalVarDct, LfGroup, ModularSubimage,
    PassGroupParams, PassGroupParamsCompact, PassGroupParamsVardct, PassGroupParamsVardctCompact,
};
use crabmagick_core::jxl::render_error;
use crabmagick_core::jxl::symbols::SymbolTape;

fn grid<T: Clone>(width: usize, height: usize, v: T) -> Grid<T> {
    Grid { data: vec![v; width * height], width, height }
}

fn context() -> HfBlockContext {
    HfBlockContext {
        qf_thresholds: Vec::new(),
        lf_thresholds: [Vec::new(), Vec::new(), Vec::new()],
        block_ctx_map: vec![0; 39],
        num_block_clusters: 1,
    }
}

fn pass() -> HfPass {
    let order: Vec<(u8, u8)> = (0..64u8).map(|i| (i % 8, i / 8)).collect();
    HfPass { orders: vec![order; 39], cluster_map: vec![0; 495] }
}

// Symbols in the order in which they are read.
fn tape(symbols: &[u32]) -> SymbolTape {
    let mut queue = symbols.to_vec();
    queue.reverse();
    SymbolTape { raw: vec![0; 16], queues: vec![queue] }
}

fn params<'a>(ctx: &'a HfBlockContext, info: &'a Grid<BlockInfo>, pass: &'a HfPass) -> HfCoeffParams<'a> {
    HfCoeffParams {
        num_hf_presets: 1,
        hf_block_ctx: ctx,
        block_info: info.as_subgrid(),
        jpeg_upsampling: [0, 0, 0],
        lf_quant: None,
        hf_pass: pass,
        coeff_shift: 0,
        tracker: None,
    }
}

fn dct8() -> BlockInfo {
    BlockInfo::Data { dct_select: TransformType::Dct8, hf_mul: 3 }
}

// Luma: two coefficients, the first and the third behind the lowest; chroma: none, then one.
const SYMBOLS: [u32; 7] = [2, 3, 0, 4, 0, 1, 1];

#[test]
fn coefficients_land_alike_in_all_stores() {
    let ctx = context();
    let info = grid(1, 1, dct8());
    let hf_pass = pass();

    let mut grids: Vec<Grid<i32>> = vec![grid(8, 8, 0), grid(8, 8, 0), grid(8, 8, 0)];
    assert!(write_hf_coeff(&mut tape(&SYMBOLS), params(&ctx, &info, &hf_pass), &mut grids).is_ok());

    let mut store = CompactHfCoeffStore::new(&info.as_subgrid());
    assert!(
        write_hf_coeff_compact(&mut tape(&SYMBOLS), params(&ctx, &info, &hf_pass), &mut store).is_ok()
    );

    let mut blocks: Vec<HfBlock> = Vec::new();
    assert!(
        write_hf_coeff_direct(&mut tape(&SYMBOLS), params(&ctx, &info, &hf_pass), &mut blocks).is_ok()
    );

    assert_eq!(blocks.len(), 1);
    assert_eq!((blocks[0].x, blocks[0].y, blocks[0].hf_mul), (0, 0, 3));
    for c in 0..3 {
        assert_eq!(store.get_channel(0, 0, c), &grids[c].data[..]);
        assert_eq!(store.get_channel_unchecked(0, 0, c), &grids[c].data[..]);
        assert_eq!(blocks[0].channel(c), &grids[c].data[..]);
    }
    let luma: Vec<i32> = grids[1].data.iter().copied().filter(|v| *v != 0).collect();
    assert_eq!(luma, vec![-2, 2]);
    assert!(grids[0].data.iter().all(|v| *v == 0));
    assert_eq!(grids[2].data.iter().sum::<i32>(), -1);

    // A second pass adds.
    assert!(
        write_hf_coeff_compact(&mut tape(&SYMBOLS), params(&ctx, &info, &hf_pass), &mut store).is_ok()
    );
    for i in 0..64 {
        assert_eq!(store.get_channel(0, 0, 1)[i], 2 * grids[1].data[i]);
    }
    store.get_channel_mut(0, 0, 0)[5] = 9;
    assert_eq!(store.get_channel(0, 0, 0)[5], 9);
}

#[test]
fn early_ends_keep_what_was_decoded() {
    let ctx = context();
    let info = grid(1, 1, dct8());
    let hf_pass = pass();
    let mut grids: Vec<Grid<i32>> = vec![grid(8, 8, 0), grid(8, 8, 0), grid(8, 8, 0)];
    let r = write_hf_coeff(&mut tape(&SYMBOLS[..2]), params(&ctx, &info, &hf_pass), &mut grids);
    assert!(r.unwrap_err().unexpected_eof());
    assert_eq!(grids[1].data.iter().sum::<i32>(), -2);
    let too_many = write_hf_coeff(&mut tape(&[64]), params(&ctx, &info, &hf_pass), &mut grids);
    assert!(matches!(
        too_many,
        Err(VardctError::Bitstream(BitstreamError::ValidationFailed("non_zeros too large")))
    ));
}

#[test]
fn signed_numbers() {
    assert_eq!(unpack_signed(0), 0);
    assert_eq!(unpack_signed(1), -1);
    assert_eq!(unpack_signed(2), 1);
    assert_eq!(unpack_signed(u32::MAX), i32::MIN);
}

fn header() -> FrameHeader {
    FrameHeader {
        groups_per_row: 1,
        num_groups: 1,
        num_lf_groups: 1,
        group_dim: 256,
        jpeg_upsampling: [0, 0, 0],
        pass_shifts: vec![0],
    }
}

fn lf_group() -> LfGroup {
    LfGroup { hf_meta: Some(grid(1, 1, dct8())), lf_quant: None }
}

#[test]
fn pass_groups_fill_their_stores() {
    let frame_header = header();
    let lf = lf_group();
    let lf_vardct = LfGlobalVarDct { hf_block_ctx: context() };
    let hf_global = HfGlobal { num_hf_presets: 1, hf_passes: vec![pass()] };
    let mut grids: Vec<Grid<i32>> = vec![grid(8, 8, 0), grid(8, 8, 0), grid(8, 8, 0)];
    let r = decode_pass_group(
        &mut tape(&SYMBOLS),
        PassGroupParams {
            frame_header: &frame_header,
            lf_group: &lf,
            pass_idx: 0,
            group_idx: 0,
            modular: Some(ModularSubimage { is_empty: false }),
            vardct: Some(PassGroupParamsVardct {
                lf_vardct: &lf_vardct,
                hf_global: &hf_global,
                hf_coeff_output: &mut grids,
            }),
            allow_partial: true,
            tracker: None,
        },
    );
    let task = r.unwrap().unwrap();
    assert!(task.allow_partial);
    assert_eq!(grids[2].data.iter().sum::<i32>(), -1);

    let info = grid(1, 1, dct8());
    let mut store = CompactHfCoeffStore::new(&info.as_subgrid());
    let r = decode_pass_group_compact(
        &mut tape(&SYMBOLS),
        PassGroupParamsCompact {
            frame_header: &frame_header,
            lf_group: &lf,
            pass_idx: 0,
            group_idx: 0,
            modular: None,
            vardct: Some(PassGroupParamsVardctCompact {
                lf_vardct: &lf_vardct,
                hf_global: &hf_global,
                hf_coeff_compact: &mut store,
            }),
            allow_partial: false,
            tracker: None,
        },
    );
    assert!(r.unwrap().is_none());
    assert_eq!(store.get_channel(0, 0, 1), &grids[1].data[..]);

    let mut blocks = Vec::new();
    let r = decode_hf_coeff_direct(
        &mut tape(&SYMBOLS),
        &frame_header,
        &lf,
        0,
        0,
        &lf_vardct,
        &hf_global,
        None,
        &mut blocks,
    );
    assert!(r.is_ok());
    assert_eq!(blocks[0].channel(1), &grids[1].data[..]);
}

#[test]
fn modular_streams_have_their_own_numbers() {
    let frame_header = header();
    let a = decode_pass_group_modular(&frame_header, 0, 0, ModularSubimage { is_empty: false }, false)
        .unwrap();
    let b = decode_pass_group_modular(&frame_header, 1, 0, ModularSubimage { is_empty: false }, false)
        .unwrap();
    assert_ne!(a.stream_index, b.stream_index);
    assert!(decode_pass_group_modular(&frame_header, 0, 0, ModularSubimage { is_empty: true }, false)
        .is_none());
}

#[test]
fn noise_values_come_in_order() {
    let mut source = SymbolTape { raw: vec![8, 7, 6, 5, 4, 3, 2, 1], queues: Vec::new() };
    assert_eq!(NoiseParameters::parse(&mut source).unwrap().lut, vec![1, 2, 3, 4, 5, 6, 7, 8]);
    let mut short = SymbolTape { raw: vec![1, 2, 3], queues: Vec::new() };
    assert!(NoiseParameters::parse(&mut short).unwrap_err().unexpected_eof());
}

#[test]
fn errors_know_an_early_end() {
    let eof = BitstreamError::Io(IoErrorKind::UnexpectedEof);
    let other = BitstreamError::Io(IoErrorKind::Other);
    assert!(eof.unexpected_eof() && !other.unexpected_eof());
    assert!(!BitstreamError::NotAligned.unexpected_eof());
    let coding = CodingError::Bitstream(eof);
    let modular = ModularError::Decoder(coding);
    let vardct = VardctError::Modular(modular);
    for e in [
        frame_error::Error::from(eof),
        frame_error::Error::from(coding),
        frame_error::Error::from(modular),
        frame_error::Error::from(vardct),
    ] {
        assert!(e.unexpected_eof());
        assert!(render_error::Error::from(e).unexpected_eof());
    }
    assert!(!frame_error::Error::HadError.unexpected_eof());
    assert!(!frame_error::Error::from(OutOfMemory(3)).unexpected_eof());
    assert!(render_error::Error::from(ColorError::Bitstream(eof)).unexpected_eof());
    assert!(!render_error::Error::NotReady.unexpected_eof());
}

#[test]
fn errors_tell_what_happened() {
    let e = frame_error::Error::IncompleteFrameData { field: "LfGlobal" };
    assert_eq!(e.message(""), "incomplete frame data: LfGlobal is missing");
    let e = frame_error::Error::from(VardctError::Bitstream(BitstreamError::NotAligned));
    assert_eq!(e.message("not aligned"), "vardct error: not aligned");
    assert_eq!(frame_error::Error::OutOfMemory.message("x"), "out of memory");
    let e = render_error::Error::UninitializedLfFrame(12);
    assert_eq!(e.message(""), "uninitialized LF frame for level 12");
    assert_eq!(render_error::Error::InvalidReference(0).message(""), "invalid reference 0");
    assert_eq!(render_error::Error::NotSupported("patches").message(""), "not supported: patches");
    assert_eq!(
        render_error::Error::from(ModularError::InvalidParameters("p")).message("p"),
        "modular subimage decode error: p"
    );
}

#[test]
fn transform_sizes() {
    assert_eq!(TransformType::Dct8.dct_select_size(), (1, 1));
    assert_eq!(TransformType::Dct32x8.dct_select_size().0 * TransformType::Dct32x8.dct_select_size().1, 4);
    assert_eq!(TransformType::Dct256.dct_select_size(), (32, 32));
    let shift = ChannelShift::from_jpeg_upsampling(&[0, 1, 0], 0);
    assert!(shift.h_subsample && shift.v_subsample);
    assert_eq!(shift.shift_size(5, 3), (3, 2));
    assert_eq!(shift.hshift(5), 2);
    let full = ChannelShift::from_jpeg_upsampling(&[0, 0, 0], 1);
    assert_eq!(full.shift_size(5, 3), (5, 3));
    let g = grid(2, 2, 7u32);
    let part: SharedSubgrid<'_, u32> = g.as_subgrid().subgrid(1, 1, 1, 1);
    assert_eq!(part.get(0, 0), 7);
}
