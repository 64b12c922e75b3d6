use crabmagick_core::jxl::block::{BlockInfo, TransformType};
use crabmagick_core::jxl::dequant::{BlockJob, Pixels};
use crabmagick_core::jxl::frame_error::Error;
use crabmagick_core::jxl::grid::Grid;
use crabmagick_core::jxl::group_task::{GroupOutcome, GroupTask, PassData};
use crabmagick_core::jxl::hf_coeff::{HfBlockContext, HfPass};
use crabmagick_core::jxl::lf_stage::LfSample;
use crabmagick_core::jxl::pass_group::{
    FrameHeader, HfGlobal, LfGlobalVarDct, LfGroup, ModularSubimage,
};
use crabmagick_core::jxl::plane_blocks::PlaneJob;
use crabmagick_core::jxl::region::Region;
use crabmagick_core::jxl::render_error;
use crabmagick_core::jxl::render_frame::{
    choose_lf_global, render_vardct, GroupPlace, LfGlobal, LfGlobalFrom, LfGlobals, LfSource,
    RenderKernels, VardctFrame,
};
use crabmagick_core::jxl::render_group::{
    group_factors, group_lf, render_group, render_groups, FrameInput, GroupSource, PassSource,
    RenderedGroup,
};
use crabmagick_core::jxl::symbols::SymbolTape;

fn grid<T: Clone>(width: usize, height: usize, v: T) -> Grid<T> {
    Grid { data: vec![v; width * height], width, height }
}

// Luma: two coefficients, the first and the third behind the lowest; chroma: none, then one.
const SYMBOLS: [u32; 7] = [2, 3, 0, 4, 0, 1, 1];

fn data(symbols: &[u32], partial: bool) -> Option<PassData<SymbolTape>> {
    let mut queue = symbols.to_vec();
    queue.reverse();
    let bitstream = SymbolTape { raw: vec![0; 16], queues: vec![queue] };
    Some(PassData { bitstream, partial, modular: None })
}

struct Frame {
    header: FrameHeader,
    lf_group: LfGroup,
    lf_vardct: LfGlobalVarDct,
    hf_global: HfGlobal,
    lf: Grid<u32>,
    factors: Grid<i32>,
}

fn frame(select: Option<TransformType>, upsampling: u32) -> Frame {
    let order: Vec<(u8, u8)> = (0..64u8).map(|i| (i % 8, i / 8)).collect();
    let pass = || HfPass { orders: vec![order.clone(); 39], cluster_map: vec![0; 495] };
    Frame {
        header: FrameHeader {
            groups_per_row: 1,
            num_groups: 1,
            num_lf_groups: 1,
            group_dim: 256,
            jpeg_upsampling: [upsampling; 3],
            pass_shifts: vec![0, 0],
        },
        lf_group: LfGroup {
            hf_meta: select.map(|s| grid(1, 1, BlockInfo::Data { dct_select: s, hf_mul: 3 })),
            lf_quant: None,
        },
        lf_vardct: LfGlobalVarDct {
            hf_block_ctx: HfBlockContext {
                qf_thresholds: Vec::new(),
                lf_thresholds: [Vec::new(), Vec::new(), Vec::new()],
                block_ctx_map: vec![0; 39],
                num_block_clusters: 1,
            },
        },
        hf_global: HfGlobal { num_hf_presets: 1, hf_passes: vec![pass(), pass()] },
        lf: grid(1, 1, 1000),
        factors: grid(1, 1, 7),
    }
}

impl Frame {
    fn task(&self, rendered: bool) -> GroupTask<'_> {
        GroupTask {
            frame_header: &self.header,
            lf_group: &self.lf_group,
            group_idx: 0,
            lf_vardct: &self.lf_vardct,
            hf_global: Some(&self.hf_global),
            tracker: None,
            rendered,
            lf: vec![self.lf.as_subgrid(), self.lf.as_subgrid(), self.lf.as_subgrid()],
            x_from_y: self.factors.as_subgrid(),
            b_from_y: self.factors.as_subgrid(),
        }
    }
}

// Each pixel of a block: its coefficient, its low frequency and the factor of its row.
fn block_kernel(job: &BlockJob) -> Pixels {
    (0..3)
        .map(|c| {
            job.coeffs[c].iter().map(|q| (*q + job.lf[c][0] as i32 + job.x_from_y[0]) as u32).collect()
        })
        .collect()
}

fn dequant_kernel(job: &PlaneJob) -> Vec<u32> {
    job.values.iter().map(|v| (*v as i32 * job.hf_mul) as u32).collect()
}

fn transform_kernel(job: &PlaneJob) -> Vec<u32> {
    job.values.iter().map(|v| v.wrapping_add(job.lf[0])).collect()
}

fn planes() -> Vec<Grid<u32>> {
    vec![grid(8, 8, 0), grid(8, 8, 0), grid(8, 8, 0)]
}

fn run(
    frame: &Frame,
    rendered: bool,
    passes: Vec<Option<PassData<SymbolTape>>>,
) -> (GroupOutcome, Vec<Grid<u32>>) {
    let mut out = planes();
    let outcome = render_group(
        &block_kernel,
        &dequant_kernel,
        &transform_kernel,
        &frame.task(rendered),
        passes,
        &mut out,
    );
    (outcome, out)
}

// What is off a pixel's usual value.
fn odd(grid: &Grid<u32>, usual: u32) -> Vec<i32> {
    grid.data.iter().filter(|v| **v != usual).map(|v| v.wrapping_sub(usual) as i32).collect()
}

#[test]
fn slabs_take_all_passes() {
    let f = frame(Some(TransformType::Dct8), 0);
    let (outcome, out) = run(&f, true, vec![data(&SYMBOLS, false)]);
    assert!(outcome.failure.is_none());
    assert_eq!(outcome.modular.len(), 1);
    assert_eq!(odd(&out[0], 1007), Vec::<i32>::new());
    assert_eq!(odd(&out[1], 1007), vec![-2, 2]);
    assert_eq!(odd(&out[2], 1007), vec![-1]);
    let (outcome, out) = run(&f, true, vec![data(&SYMBOLS, false), data(&SYMBOLS, false)]);
    assert!(outcome.failure.is_none());
    assert_eq!(odd(&out[1], 1007), vec![-4, 4]);
    // A pass that is not there is passed over.
    let (outcome, out) = run(&f, true, vec![None, data(&SYMBOLS, false)]);
    assert_eq!(outcome.modular.len(), 2);
    assert_eq!(odd(&out[1], 1007), vec![-2, 2]);
}

#[test]
fn blocks_are_rendered_at_once() {
    let f = frame(Some(TransformType::Hornuss), 0);
    let (outcome, out) = run(&f, true, vec![data(&SYMBOLS, false)]);
    assert!(outcome.failure.is_none());
    assert_eq!(odd(&out[1], 1007), vec![-2, 2]);
    // A block that is not complete is left out.
    let (outcome, out) = run(&f, true, vec![data(&SYMBOLS[..3], false)]);
    assert!(outcome.failure.unwrap().unexpected_eof());
    assert_eq!(odd(&out[1], 0), Vec::<i32>::new());
}

#[test]
fn subsampled_groups_are_decoded_in_place() {
    let f = frame(Some(TransformType::Dct8), 1);
    let (outcome, out) = run(&f, true, vec![data(&SYMBOLS, false)]);
    assert!(outcome.failure.is_none());
    assert_eq!(odd(&out[1], 1000), vec![-6, 6]);
    assert_eq!(odd(&out[2], 1000), vec![-3]);
    // What was decoded before an error is not dequantized.
    let (outcome, out) = run(&f, true, vec![data(&SYMBOLS[..2], false)]);
    assert!(outcome.failure.is_some());
    assert_eq!(odd(&out[1], 1000), vec![-2]);
}

#[test]
fn failed_groups_keep_their_low_frequencies() {
    let f = frame(Some(TransformType::Dct8), 0);
    let (outcome, out) = run(&f, true, vec![data(&SYMBOLS[..2], false)]);
    assert!(outcome.failure.unwrap().unexpected_eof());
    assert_eq!(odd(&out[1], 1000), Vec::<i32>::new());
    // Data that may end early counts as far as it goes.
    let (outcome, out) = run(&f, true, vec![data(&SYMBOLS[..2], true)]);
    assert!(outcome.failure.is_none());
    assert_eq!(odd(&out[1], 1007), vec![-2]);
}

#[test]
fn groups_without_coefficients() {
    let f = frame(None, 0);
    let (outcome, out) = run(&f, true, Vec::new());
    assert!(outcome.failure.is_none() && outcome.modular.is_empty());
    assert_eq!(odd(&out[0], 1000), Vec::<i32>::new());
    let f = frame(Some(TransformType::Dct8), 0);
    let (outcome, out) = run(&f, false, vec![data(&SYMBOLS, false)]);
    assert!(outcome.failure.is_none() && outcome.modular.is_empty());
    assert_eq!(odd(&out[1], 1000), Vec::<i32>::new());
}

#[test]
fn modular_images_follow_the_coefficients() {
    let f = frame(Some(TransformType::Hornuss), 0);
    let mut entry = data(&SYMBOLS, false).unwrap();
    entry.modular = Some(ModularSubimage { is_empty: false });
    let (outcome, out) = run(&f, true, vec![Some(entry)]);
    assert_eq!(outcome.modular[0].unwrap().stream_index, 21);
    assert_eq!(odd(&out[1], 1007), vec![-2, 2]);
}

fn source<'a>(f: &'a Frame, pass: PassSource<SymbolTape>) -> GroupSource<'a, SymbolTape> {
    GroupSource {
        group_idx: 0,
        lf_group: Some(&f.lf_group),
        lf: vec![f.lf.as_subgrid(), f.lf.as_subgrid(), f.lf.as_subgrid()],
        x_from_y: f.factors.as_subgrid(),
        b_from_y: f.factors.as_subgrid(),
        passes: vec![pass],
        out: planes(),
    }
}

fn coded<'a>(f: &'a Frame, symbols: &[u32]) -> GroupSource<'a, SymbolTape> {
    source(f, PassSource::Found(data(symbols, false).unwrap()))
}

fn whole(
    f: &Frame,
    with_tables: bool,
    sources: Vec<GroupSource<'_, SymbolTape>>,
) -> Result<Vec<RenderedGroup>, Error> {
    let input = FrameInput {
        frame_header: &f.header,
        lf_vardct: &f.lf_vardct,
        hf_global: if with_tables { Some(&f.hf_global) } else { None },
        region: Region::with_size(8, 8),
        tracker: None,
    };
    render_groups(&block_kernel, &dequant_kernel, &transform_kernel, &input, sources)
}

#[test]
fn all_groups_are_rendered() {
    let f = frame(Some(TransformType::Dct8), 0);
    let mut outside = coded(&f, &SYMBOLS);
    outside.lf_group = None;
    let done = whole(&f, true, vec![coded(&f, &SYMBOLS), outside, coded(&f, &SYMBOLS)]).ok().unwrap();
    assert_eq!(done.len(), 3);
    assert_eq!(odd(&done[0].grids[1], 1007), vec![-2, 2]);
    assert_eq!(odd(&done[1].grids[1], 0), Vec::<i32>::new());
    assert_eq!(odd(&done[2].grids[2], 1007), vec![-1]);
    let done = whole(&f, false, vec![coded(&f, &SYMBOLS)]).ok().unwrap();
    assert_eq!(odd(&done[0].grids[1], 1000), Vec::<i32>::new());
    assert!(done[0].modular.is_empty());
}

#[test]
fn the_last_error_of_the_groups_is_handed_on() {
    let f = frame(Some(TransformType::Dct8), 0);
    let lost = || source(&f, PassSource::Failed(Error::HadError));
    let missing = source(&f, PassSource::Missing);
    assert!(whole(&f, true, vec![coded(&f, &SYMBOLS), missing]).is_ok());
    let r = whole(&f, true, vec![coded(&f, &[64]), coded(&f, &SYMBOLS[..2]), coded(&f, &SYMBOLS)]);
    assert!(r.err().unwrap().unexpected_eof());
    let r = whole(&f, true, vec![coded(&f, &SYMBOLS[..2]), coded(&f, &[64])]);
    assert!(!r.err().unwrap().unexpected_eof());
    assert!(matches!(whole(&f, true, vec![lost()]), Err(Error::HadError)));
    // What goes wrong in decoding comes later than what is not found.
    let r = whole(&f, true, vec![coded(&f, &SYMBOLS[..2]), lost()]);
    assert!(r.err().unwrap().unexpected_eof());
}

#[test]
fn groups_take_their_parts() {
    let mut f = frame(None, 0);
    f.header.groups_per_row = 2;
    let factors = Grid { data: (0..64).collect(), width: 8, height: 8 };
    let part = group_factors(&factors, &f.header, 1, 200, 64);
    assert_eq!((part.left, part.top, part.width, part.height), (4, 0, 4, 1));
    assert_eq!(part.get(1, 0), 5);
    let lf = Grid { data: (0..64 * 13).collect(), width: 64, height: 13 };
    let part = group_lf(&lf, &f.header, 1, 256, 100, Region::with_size(64, 13), 0);
    assert_eq!((part.left, part.top, part.width, part.height), (32, 0, 32, 13));
    assert_eq!(part.get(1, 1), 64 + 33);
}

#[test]
fn global_data_is_cached_or_parsed() {
    let whole: Option<Result<bool, Error>> = Some(Ok(false));
    assert!(matches!(choose_lf_global(Some(false), None, true), Ok(LfGlobalFrom::Cached)));
    for cached in [None, Some(true)] {
        assert!(matches!(choose_lf_global(cached, whole, true), Ok(LfGlobalFrom::Parsed)));
        assert!(matches!(
            choose_lf_global(cached, None, false),
            Err(render_error::Error::IncompleteFrame)
        ));
        assert!(matches!(
            choose_lf_global(cached, Some(Err(Error::HadError)), false),
            Err(render_error::Error::Frame(Error::HadError))
        ));
        assert!(matches!(
            choose_lf_global(cached, Some(Ok(true)), true),
            Err(render_error::Error::IncompleteFrame)
        ));
        assert!(matches!(choose_lf_global(cached, Some(Ok(true)), false), Ok(LfGlobalFrom::Parsed)));
    }
}

fn place<'a>(f: &'a Frame, symbols: &[u32]) -> GroupPlace<'a, SymbolTape> {
    GroupPlace {
        group_idx: 0,
        width: 8,
        height: 8,
        lf_group: Some(&f.lf_group),
        x_from_y: &f.factors,
        b_from_y: &f.factors,
        passes: vec![PassSource::Found(data(symbols, false).unwrap())],
        out: planes(),
    }
}

const REGIONS: [Region; 3] = [Region { left: 0, top: 0, width: 1, height: 1 }; 3];

// Low frequencies 1000 of all channels.
fn low() -> Vec<Grid<u32>> {
    vec![grid(1, 1, 1000), grid(1, 1, 1000), grid(1, 1, 1000)]
}

fn predict(s: &LfSample) -> (u32, u32) {
    (s.x + s.y / 10, s.b + s.y / 5)
}

type Grids = Result<Vec<Grid<u32>>, render_error::Error>;

fn smooth(lf: &Vec<Grid<u32>>) -> Grids {
    Ok(lf.iter().map(|g| grid(g.width, g.height, g.data[0] + 1)).collect())
}

fn rendered(f: &Frame, skip: bool, lf: LfSource) -> Result<Vec<RenderedGroup>, render_error::Error> {
    let kernels = RenderKernels {
        block: block_kernel,
        dequant: dequant_kernel,
        transform: transform_kernel,
        predict,
        smooth,
    };
    let frame = VardctFrame {
        frame_header: &f.header,
        globals: LfGlobals {
            cached: None,
            parsed: Some(Ok(LfGlobal { partial: false, vardct: &f.lf_vardct })),
        },
        hf_global: Ok(Some(&f.hf_global)),
        skip_smoothing: skip,
        width: 8,
        height: 8,
        region: Region::with_size(8, 8),
        tracker: None,
    };
    render_vardct(&kernels, &frame, lf, vec![place(f, &SYMBOLS)])
}

#[test]
fn frames_are_rendered_with_their_low_frequencies() {
    let f = frame(Some(TransformType::Dct8), 0);
    let loaded = || LfSource { loaded: Ok(Some(low())), lf_frame: None, regions: REGIONS };
    // Chroma is predicted; nothing is smoothed.
    let done = rendered(&f, true, loaded()).ok().unwrap();
    assert_eq!(odd(&done[0].grids[0], 1107), Vec::<i32>::new());
    assert_eq!(odd(&done[0].grids[1], 1007), vec![-2, 2]);
    assert_eq!(odd(&done[0].grids[2], 1207), vec![-1]);
    // Smoothing comes behind the prediction.
    let done = rendered(&f, false, loaded()).ok().unwrap();
    assert_eq!(odd(&done[0].grids[0], 1108), Vec::<i32>::new());
    // A frame of low frequencies is taken as it is.
    let own = LfSource { loaded: Ok(None), lf_frame: Some(Ok(low())), regions: REGIONS };
    let done = rendered(&f, false, own).ok().unwrap();
    assert_eq!(odd(&done[0].grids[0], 1007), Vec::<i32>::new());
    // With subsampling chroma is not predicted.
    let halved = frame(Some(TransformType::Dct8), 1);
    let done = rendered(&halved, true, loaded()).ok().unwrap();
    assert_eq!(odd(&done[0].grids[0], 1000), Vec::<i32>::new());
    let failed = LfSource { loaded: Err(render_error::Error::NotReady), lf_frame: None, regions: REGIONS };
    assert!(matches!(rendered(&f, true, failed), Err(render_error::Error::NotReady)));
}

#[test]
fn incomplete_frames_are_told() {
    let f = frame(Some(TransformType::Dct8), 0);
    let kernels = RenderKernels {
        block: block_kernel,
        dequant: dequant_kernel,
        transform: transform_kernel,
        predict,
        smooth,
    };
    let run = |globals: LfGlobals<'_>, tables: bool| {
        let frame = VardctFrame {
            frame_header: &f.header,
            globals: LfGlobals { cached: globals.cached, parsed: globals.parsed },
            hf_global: if tables { Ok(None) } else { Err(render_error::Error::NotReady) },
            skip_smoothing: true,
            width: 8,
            height: 8,
            region: Region::with_size(8, 8),
            tracker: None,
        };
        let lf = LfSource { loaded: Ok(Some(low())), lf_frame: None, regions: REGIONS };
        render_vardct(&kernels, &frame, lf, vec![place(&f, &SYMBOLS)]).err()
    };
    let whole = LfGlobal { partial: false, vardct: &f.lf_vardct };
    let none = LfGlobals { cached: None, parsed: None };
    assert!(matches!(run(none, true), Some(render_error::Error::IncompleteFrame)));
    let cached = LfGlobals { cached: Some(whole), parsed: None };
    assert!(run(cached, true).is_none());
    let cached = LfGlobals { cached: Some(whole), parsed: None };
    assert!(matches!(run(cached, false), Some(render_error::Error::NotReady)));
}

#[test]
fn groups_are_placed_by_their_number() {
    let mut f = frame(Some(TransformType::Dct8), 0);
    f.header.groups_per_row = 2;
    f.header.num_groups = 2;
    let row = |v: u32| BlockInfo::Data { dct_select: TransformType::Dct8, hf_mul: v as i32 };
    f.lf_group.hf_meta = Some(Grid { data: (0..33).map(row).collect(), width: 33, height: 1 });
    let factors = Grid { data: vec![0, 0, 0, 0, 5], width: 5, height: 1 };
    let values: Vec<u32> = (0..33).map(|i| 1000 + i).collect();
    let lf: Vec<Grid<u32>> =
        (0..3).map(|_| Grid { data: values.clone(), width: 33, height: 1 }).collect();
    let mut second = place(&f, &SYMBOLS);
    second.group_idx = 1;
    second.x_from_y = &factors;
    second.b_from_y = &factors;
    let kernels = RenderKernels {
        block: block_kernel,
        dequant: dequant_kernel,
        transform: transform_kernel,
        predict: |s: &LfSample| (s.x, s.b),
        smooth,
    };
    let input = VardctFrame {
        frame_header: &f.header,
        globals: LfGlobals {
            cached: None,
            parsed: Some(Ok(LfGlobal { partial: false, vardct: &f.lf_vardct })),
        },
        hf_global: Ok(Some(&f.hf_global)),
        skip_smoothing: true,
        width: 264,
        height: 8,
        region: Region { left: 256, top: 0, width: 8, height: 8 },
        tracker: None,
    };
    assert_eq!(input.needed_lf(), Region { left: 0, top: 0, width: 33, height: 1 });
    let source = LfSource {
        loaded: Ok(Some(lf)),
        lf_frame: None,
        regions: [Region { left: 0, top: 0, width: 33, height: 1 }; 3],
    };
    let done = render_vardct(&kernels, &input, source, vec![second]).ok().unwrap();
    // The last low frequency and the last factor.
    assert_eq!(odd(&done[0].grids[1], 1032 + 5), vec![-2, 2]);
}
