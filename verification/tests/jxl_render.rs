use crabmagick_core::jxl::block::{BlockInfo, ChannelShift, TransformType};
use crabmagick_core::jxl::block_transform::{get_rect, put_rect};
use crabmagick_core::jxl::compact::CompactHfCoeffStore;
use crabmagick_core::jxl::dequant::{
    dequant_cfl_compact_transform_grouped, dequant_cfl_transform_compact_dct8_grouped, BlockJob,
    GroupInput,
};
use crabmagick_core::jxl::dequant_rows::{dequant_cfl_compact_to_strided, fill_from_lf, RowJob};
use crabmagick_core::jxl::gabor::{apply_gabor_like, filter_area, Stencil};
use crabmagick_core::jxl::grid::Grid;
use crabmagick_core::jxl::group_result::Kernels;
use crabmagick_core::jxl::group_transform::{BlockInput, BlockOutput, Source};
use crabmagick_core::jxl::image_transform::{transform_and_quantize, TransformOutput};
use crabmagick_core::jxl::lf_stage::{
    chroma_from_luma_hf_grouped, chroma_from_luma_lf, copy_lf_dequant, insert_lf_dc, CflJob,
    LfBand, LfSample,
};
use crabmagick_core::jxl::plane_blocks::{
    dequant_cfl_direct_transform_block, dequant_hf_varblock_grouped, transform_with_lf_grouped,
    GroupBlocks, PlaneJob,
};
use crabmagick_core::jxl::region::Region;
use crabmagick_core::jxl::render::{
    cfl_area, choose_decode_step, chroma_tile, compact_hf_lf_area, group_is_rendered, lf_region,
    render_region, rounded_size, Area, DecodeStep, PassEntry,
};
use crabmagick_core::jxl::varblocks::{
    all_blocks_are_dct8, for_each_varblocks, row_segments, Segment, VarblockInfo,
};

fn grid<T: Clone>(width: usize, height: usize, v: T) -> Grid<T> {
    Grid { data: vec![v; width * height], width, height }
}

fn counting(width: usize, height: usize) -> Grid<u32> {
    Grid { data: (0..(width * height) as u32).collect(), width, height }
}

fn no_shift() -> ChannelShift {
    ChannelShift::from_jpeg_upsampling(&[0, 0, 0], 0)
}

fn data(t: TransformType) -> BlockInfo {
    BlockInfo::Data { dct_select: t, hf_mul: 5 }
}

// Two blocks side by side: one of the smallest transform, one twice as high.
fn mixed() -> Grid<BlockInfo> {
    Grid {
        data: vec![
            data(TransformType::Dct8),
            data(TransformType::Dct16x8),
            data(TransformType::Dct8),
            BlockInfo::Occupied,
        ],
        width: 2,
        height: 2,
    }
}

#[test]
fn blocks_are_listed_once() {
    let info = mixed();
    let list = for_each_varblocks(&info.as_subgrid(), no_shift());
    let places: Vec<(usize, usize)> = list.iter().map(|v| (v.shifted_bx, v.shifted_by)).collect();
    assert_eq!(places, vec![(0, 0), (1, 0), (0, 1)]);
    assert!(!all_blocks_are_dct8(&info.as_subgrid()));
    assert!(all_blocks_are_dct8(&grid(2, 2, data(TransformType::Dct8)).as_subgrid()));
    let halved = ChannelShift::from_jpeg_upsampling(&[0, 1, 0], 0);
    let list = for_each_varblocks(&grid(2, 2, data(TransformType::Dct8)).as_subgrid(), halved);
    assert_eq!(list.len(), 1);
}

#[test]
fn rows_are_cut_at_tiles() {
    assert_eq!(
        row_segments(48, 32),
        vec![Segment { x: 0, len: 16, tile: 0 }, Segment { x: 16, len: 16, tile: 1 }]
    );
    assert_eq!(row_segments(64, 8), vec![Segment { x: 0, len: 8, tile: 1 }]);
}

#[test]
fn rectangles() {
    let mut v: Vec<u32> = (0..20).collect();
    assert_eq!(get_rect(&v, 5, 1, 2, 2, 2), vec![11, 12, 16, 17]);
    put_rect(&mut v, 5, 1, 2, 2, 2, &vec![90, 91, 92, 93]);
    assert_eq!(get_rect(&v, 5, 1, 2, 2, 2), vec![90, 91, 92, 93]);
    assert_eq!(v[10], 10);
    assert_eq!(v[13], 13);
}

fn block_pixels(job: &BlockJob) -> Vec<Vec<u32>> {
    (0..3)
        .map(|c| {
            job.coeffs[c].iter().map(|q| (*q + 1000 * (c as i32 + 1) + job.hf_mul) as u32).collect()
        })
        .collect()
}

#[test]
fn groups_are_rendered_block_by_block() {
    let info = mixed();
    let mut store = CompactHfCoeffStore::new(&info.as_subgrid());
    for (bx, by) in [(0usize, 0usize), (1, 0), (0, 1)] {
        for c in 0..3 {
            for (i, v) in store.get_channel_mut(bx, by, c).iter_mut().enumerate() {
                *v = (i + 200 * bx + 400 * by) as i32;
            }
        }
    }
    let lf = counting(2, 2);
    let factors = grid(1, 1, 3i32);
    let input = GroupInput {
        store: &store,
        block_info: info.as_subgrid(),
        shift: no_shift(),
        lf: vec![lf.as_subgrid(), lf.as_subgrid(), lf.as_subgrid()],
        x_from_y: factors.as_subgrid(),
        b_from_y: factors.as_subgrid(),
    };
    let mut out = vec![grid(16, 16, 0u32), grid(16, 16, 0u32), grid(16, 16, 0u32)];
    dequant_cfl_compact_transform_grouped(&block_pixels, &input, &mut out);
    assert_eq!(out[0].get(0, 0), 1005);
    assert_eq!(out[1].get(9, 3), 2005 + 200 + 25);
    assert_eq!(out[2].get(9, 12), 3005 + 200 + 97);
    assert_eq!(out[2].get(2, 9), 3005 + 400 + 10);

    let row_kernel = |job: &RowJob| -> Vec<Vec<u32>> {
        (0..3)
            .map(|c| job.coeffs[c].iter().map(|q| (*q + 10 * job.kx + c as i32) as u32).collect())
            .collect()
    };
    let mut rows = vec![grid(16, 16, 0u32), grid(16, 16, 0u32), grid(16, 16, 0u32)];
    dequant_cfl_compact_to_strided(&row_kernel, &input, &mut rows);
    assert_eq!(rows[2].get(9, 12), 200 + 97 + 30 + 2);

    // One block at a time gives the same.
    let mut direct = vec![grid(16, 16, 0u32), grid(16, 16, 0u32), grid(16, 16, 0u32)];
    for v in for_each_varblocks(&info.as_subgrid(), no_shift()) {
        let coeffs: Vec<Vec<i32>> =
            (0..3).map(|c| store.get_channel(v.shifted_bx, v.shifted_by, c).to_vec()).collect();
        dequant_cfl_direct_transform_block(
            &block_pixels,
            coeffs,
            &mut direct,
            &input.lf,
            v,
            &input.x_from_y,
            &input.b_from_y,
        );
    }
    for c in 0..3 {
        assert_eq!(direct[c].data, out[c].data);
    }
}

#[test]
fn smallest_transforms_have_one_factor() {
    let info = grid(2, 1, data(TransformType::Dct8));
    let store = CompactHfCoeffStore::new(&info.as_subgrid());
    let lf = counting(2, 1);
    let factors = grid(1, 1, 7i32);
    let input = GroupInput {
        store: &store,
        block_info: info.as_subgrid(),
        shift: no_shift(),
        lf: vec![lf.as_subgrid(), lf.as_subgrid(), lf.as_subgrid()],
        x_from_y: factors.as_subgrid(),
        b_from_y: factors.as_subgrid(),
    };
    let kernel = |job: &BlockJob| -> Vec<Vec<u32>> {
        assert_eq!(job.x_from_y, vec![7; 8]);
        vec![vec![job.lf[0][0]; 64], vec![job.lf[1][0]; 64], vec![job.lf[2][0]; 64]]
    };
    let mut out = vec![grid(16, 8, 9u32), grid(16, 8, 9u32), grid(16, 8, 9u32)];
    dequant_cfl_transform_compact_dct8_grouped(&kernel, &input, &mut out);
    assert_eq!(out[0].get(7, 7), 0);
    assert_eq!(out[2].get(8, 0), 1);
}

#[test]
fn planes_are_worked_on_in_place() {
    let info = mixed();
    let shifts = [no_shift(), no_shift(), no_shift()];
    let kernel = |job: &PlaneJob| -> Vec<u32> {
        job.values.iter().map(|v| v + 1000 * (job.channel as u32 + 1)).collect()
    };
    let mut out = vec![counting(16, 16), counting(16, 16), counting(16, 16)];
    dequant_hf_varblock_grouped(&kernel, &info.as_subgrid(), &shifts, &mut out);
    for c in 0..3u32 {
        for i in 0..256u32 {
            assert_eq!(out[c as usize].data[i as usize], i + 1000 * (c + 1));
        }
    }

    let lf = counting(2, 2);
    let parts = vec![lf.as_subgrid(), lf.as_subgrid(), lf.as_subgrid()];
    let with_lf = |job: &PlaneJob| -> Vec<u32> { vec![job.lf.iter().sum(); job.values.len()] };
    let mut out = vec![counting(16, 16), counting(16, 16), counting(16, 16)];
    transform_with_lf_grouped(&with_lf, &parts, &mut out, &shifts, &GroupBlocks::Missing);
    assert_eq!(out[0].data, counting(16, 16).data);
    transform_with_lf_grouped(&with_lf, &parts, &mut out, &shifts, &GroupBlocks::LfOnly);
    assert_eq!(out[1].get(8, 7), 1);
    assert_eq!(out[1].get(15, 15), 3);
    transform_with_lf_grouped(
        &with_lf,
        &parts,
        &mut out,
        &shifts,
        &GroupBlocks::Blocks(info.as_subgrid()),
    );
    assert_eq!(out[2].get(0, 0), 0);
    assert_eq!(out[2].get(12, 12), 4);
    assert_eq!(out[2].get(3, 12), 2);
}

#[test]
fn chroma_takes_from_luma_by_tile() {
    let mut grids = vec![counting(70, 2), counting(70, 2), counting(70, 2)];
    let x_factors = Grid { data: vec![10, 20], width: 2, height: 1 };
    let b_factors = Grid { data: vec![1, 2], width: 2, height: 1 };
    let kernel = |j: &CflJob| -> (u32, u32) {
        (j.x + j.y * j.x_factor as u32, j.b + j.y * j.b_factor as u32)
    };
    chroma_from_luma_hf_grouped(&kernel, &mut grids, &x_factors.as_subgrid(), &b_factors.as_subgrid());
    assert_eq!(grids[0].get(3, 0), 3 + 30);
    assert_eq!(grids[0].get(65, 1), 135 + 2700);
    assert_eq!(grids[2].get(65, 1), 135 + 270);
    assert_eq!(grids[1].data, counting(70, 2).data);
    // Columns without factors stay.
    let mut grids = vec![counting(70, 1), counting(70, 1), counting(70, 1)];
    let one = Grid { data: vec![10], width: 1, height: 1 };
    chroma_from_luma_hf_grouped(&kernel, &mut grids, &one.as_subgrid(), &b_factors.as_subgrid());
    assert_eq!(grids[0].get(66, 0), 66);
}

#[test]
fn low_frequencies_are_prepared() {
    let kernel = |s: &LfSample| -> (u32, u32) { (s.x + s.y, s.b + 2 * s.y) };
    let mut xs = vec![1, 2, 3];
    let mut bs = vec![5, 6];
    chroma_from_luma_lf(&kernel, &mut xs, &vec![10, 20, 30], &mut bs);
    assert_eq!((xs, bs), (vec![11, 22, 3], vec![25, 46]));

    let mut out = grid(3, 2, 9u32);
    let quant = Grid { data: vec![1i32, 2], width: 2, height: 1 };
    copy_lf_dequant(&|q: i32| 100 * q as u32, &mut out, &quant);
    assert_eq!(out.data, vec![100, 200, 9, 9, 9, 9]);

    let lf = counting(4, 4);
    let band = |b: &LfBand| -> Vec<u32> { b.values.iter().map(|v| v + 50).collect() };
    let small = VarblockInfo { shifted_bx: 2, shifted_by: 1, dct_select: TransformType::Afv1, hf_mul: 1 };
    let mut coeff = grid(8, 8, 0u32);
    insert_lf_dc(&band, &mut coeff, &lf.as_subgrid(), small);
    assert_eq!(coeff.get(0, 0), 6);
    let large = VarblockInfo { shifted_bx: 1, shifted_by: 1, dct_select: TransformType::Dct16, hf_mul: 1 };
    let mut coeff = grid(16, 16, 0u32);
    insert_lf_dc(&band, &mut coeff, &lf.as_subgrid(), large);
    assert_eq!((coeff.get(0, 0), coeff.get(1, 0)), (55, 56));
    assert_eq!((coeff.get(0, 1), coeff.get(1, 1), coeff.get(2, 0)), (59, 60, 0));

    let mut filled = grid(16, 9, 0u32);
    fill_from_lf(&mut filled, &counting(2, 2).as_subgrid());
    assert_eq!((filled.get(15, 0), filled.get(7, 8)), (1, 2));
}

#[test]
fn stencils_are_clamped() {
    let g = counting(3, 2);
    let sum = |s: &Stencil| -> u32 {
        s.top.iter().sum::<u32>() + s.center.iter().sum::<u32>() + s.bottom.iter().sum::<u32>()
    };
    let a = apply_gabor_like(&sum, &g, true);
    let b = apply_gabor_like(&sum, &g, false);
    assert_eq!(a.data, b.data);
    let at = |x: i32, y: i32| g.get(x.clamp(0, 2) as usize, y.clamp(0, 1) as usize);
    for y in 0..2 {
        for x in 0..3 {
            let mut expected = 0;
            for dy in -1..=1 {
                for dx in -1..=1 {
                    expected += at(x + dx, y + dy);
                }
            }
            assert_eq!(a.get(x as usize, y as usize), expected);
        }
    }
}

#[test]
fn regions() {
    let r = Region { left: 10, top: 5, width: 20, height: 8 };
    let c = r.container_aligned(16);
    assert_eq!(c, Region { left: 0, top: 0, width: 32, height: 16 });
    assert_eq!(r.pad(2), Region { left: 8, top: 3, width: 24, height: 12 });
    assert_eq!(
        r.intersection(Region::with_size(15, 100)),
        Region { left: 10, top: 5, width: 5, height: 8 }
    );
    assert!(Region::with_size(0, 3).is_empty());
    assert_eq!(rounded_size(5, 7, &[0, 1, 0]), (16, 16));
    assert_eq!(rounded_size(5, 9, &[0, 0, 0]), (8, 16));
    let rendered = render_region(r, 256, 1000, 500);
    assert!(rendered.left <= 10 && rendered.width >= 20);
    let lf = lf_region(Region::with_size(256, 256), 256, true, 300, 300);
    assert!(lf.width >= 32);
    assert!(group_is_rendered(0, 4, 256, Region::with_size(10, 10)));
    assert!(!group_is_rendered(1, 4, 256, Region::with_size(10, 10)));
    let area = filter_area(Region::with_size(20, 20), Region { left: 2, top: 3, width: 4, height: 5 });
    assert_eq!(area, (2, 3, 6, 8));
}

#[test]
fn steps_of_a_group() {
    let plain = PassEntry { partial: false, has_modular: false };
    assert_eq!(choose_decode_step(false, true, false, 1, Some(plain), false), DecodeStep::Nothing);
    let single = choose_decode_step(true, true, false, 1, Some(plain), false);
    let several = choose_decode_step(true, true, false, 2, Some(plain), false);
    assert_eq!(single, DecodeStep::Direct);
    assert_eq!(several, DecodeStep::Compact);
    assert_eq!(choose_decode_step(true, true, false, 1, Some(plain), true), DecodeStep::Compact);
    assert_eq!(choose_decode_step(true, true, true, 1, Some(plain), false), DecodeStep::Strided);
    assert_eq!(choose_decode_step(true, false, true, 1, Some(plain), false), DecodeStep::Nothing);
}

#[test]
fn areas_of_a_group() {
    let area = compact_hf_lf_area(1, 2, 256, 256, 100, Region::with_size(64, 13), no_shift());
    assert_eq!(area, Area { left: 32, top: 0, width: 32, height: 13 });
    let tiles = cfl_area(1, 2, 256, 200, 64);
    assert_eq!(tiles, Area { left: 4, top: 0, width: 4, height: 1 });
    assert_eq!(chroma_tile(100, 1), (64, 36));
}

fn two_by_one() -> (Source, Grid<BlockInfo>) {
    let plane: Vec<u32> = (0..16 * 8).collect();
    let source = Source {
        planes: vec![plane.clone(), plane.clone(), plane],
        stride: 16,
        quant_field: vec![4, 5],
        xsize_blocks: 2,
        ysize_blocks: 1,
    };
    (source, grid(2, 1, data(TransformType::Dct8)))
}

#[test]
fn images_are_transformed_by_block() {
    let block = |inp: &BlockInput| -> BlockOutput {
        let mut coeffs = vec![vec![0i32; 64]; 3];
        coeffs[1][1] = inp.pixels[1][9] as i32;
        BlockOutput {
            float_dc: vec![vec![inp.pixels[0][0]]; 3],
            quant_dc: vec![vec![inp.quant as i16]; 3],
            coeffs,
        }
    };
    let factors = |inp: &BlockInput| -> [i32; 3] {
        if inp.x == 0 {
            [300, 2, 3]
        } else {
            [1, 2, -7]
        }
    };
    let fixed = Kernels { block, factors, adjust: false };
    let (mut source, blocks) = two_by_one();
    let out: TransformOutput = transform_and_quantize(&fixed, &mut source, &blocks, false, false);
    assert_eq!(out.channels[0].quant_dc, vec![4, 5]);
    assert_eq!(source.quant_field, vec![4, 5]);
    let kernel = Kernels { block, factors, adjust: true };
    let (mut source, blocks) = two_by_one();
    let out: TransformOutput = transform_and_quantize(&kernel, &mut source, &blocks, false, false);
    assert_eq!(out.channels.len(), 3);
    assert_eq!(out.channels[0].quant_dc, vec![300, 5]);
    assert_eq!(out.channels[0].float_dc, vec![0, 8]);
    assert_eq!(out.channels[1].quant_ac[0][1], 17);
    assert_eq!(out.channels[1].quant_ac[1][1], 25);
    assert_eq!(out.channels[1].nzeros, vec![1, 1]);
    assert_eq!(out.channels[2].nzeros, vec![0, 0]);
    assert_eq!(source.quant_field, vec![255, 5]);
    let (mut again, blocks) = two_by_one();
    let seq = transform_and_quantize(&kernel, &mut again, &blocks, true, true);
    assert_eq!(seq.channels[1].quant_ac, out.channels[1].quant_ac);
}
