//! JPEG XL encoder settings, and what an encoder is asked for.
use crate::request::{encode_failed, unencoded, CrabMagickError, ErrorModel};
use vstd::prelude::*;

verus! {

/// The bits of the single-precision float one.
pub const ONE_BITS: u32 = 0x3F80_0000;

/// How an encoder chooses.
#[derive(Debug, Clone, Copy, PartialEq, Eq, Structural)]
pub enum EncoderMode {
    /// As the reference encoder does.
    Reference,
    /// With experimental choices.
    Experimental,
}

/// JPEG XL encoder settings.
#[derive(Debug, Clone, Copy)]
pub struct JxlEncodeOptions {
    /// Lossless mode.
    pub lossless: bool,
    /// Butteraugli distance: the bits of a single-precision float.
    pub distance: Option<u32>,
    /// Effort.
    pub effort: u8,
    /// Threads; 0 for as many as there are cores.
    pub threads: usize,
    /// How the encoder chooses.
    pub mode: EncoderMode,
    /// Largest transform.
    pub max_strategy_size: Option<u8>,
    /// The one transform to use.
    pub force_strategy: Option<u8>,
    /// Coefficient orders of the picture.
    pub custom_orders: Option<bool>,
    /// Adaptive block contexts.
    pub adaptive_block_contexts: Option<bool>,
    /// Patches.
    pub patches: Option<bool>,
    /// Learned trees, lossless mode.
    pub lossless_tree_learning: Option<bool>,
    /// LZ77, lossless mode.
    pub lossless_lz77: Option<bool>,
    /// Squeeze transform, lossless mode.
    pub lossless_squeeze: Option<bool>,
    /// Gaborish filter.
    pub gaborish: Option<bool>,
    /// Loss in the pixel domain.
    pub pixel_domain_loss: Option<bool>,
    /// Adaptive quantization.
    pub adaptive_quant: Option<bool>,
    /// Adjusted quantization.
    pub adjust_quant_ac: Option<bool>,
    /// Chromacity adjustment.
    pub chromacity_adjustment: Option<bool>,
    /// Chroma from luma.
    pub cfl: Option<bool>,
    /// Chroma from luma in two passes.
    pub cfl_two_pass: Option<bool>,
    /// Edge-preserving filter.
    pub epf: Option<bool>,
    /// Dynamic sharpness of that filter.
    pub epf_dynamic_sharpness: Option<bool>,
    /// Optimized codes.
    pub optimize_codes: Option<bool>,
}

impl JxlEncodeOptions {
    /// Settings to start from.
    pub open spec fn initial() -> Self {
        JxlEncodeOptions {
            lossless: false,
            distance: Some(ONE_BITS),
            effort: 5,
            threads: 0,
            mode: EncoderMode::Experimental,
            max_strategy_size: None,
            force_strategy: None,
            custom_orders: None,
            adaptive_block_contexts: None,
            patches: None,
            lossless_tree_learning: None,
            lossless_lz77: None,
            lossless_squeeze: None,
            gaborish: None,
            pixel_domain_loss: None,
            adaptive_quant: None,
            adjust_quant_ac: None,
            chromacity_adjustment: None,
            cfl: None,
            cfl_two_pass: None,
            epf: None,
            epf_dynamic_sharpness: None,
            optimize_codes: None,
        }
    }
}

impl Default for JxlEncodeOptions {
    fn default() -> (r: Self)
        ensures
            r == Self::initial(),
    {
        JxlEncodeOptions {
            lossless: false,
            distance: Some(ONE_BITS),
            effort: 5,
            threads: 0,
            mode: EncoderMode::Experimental,
            max_strategy_size: None,
            force_strategy: None,
            custom_orders: None,
            adaptive_block_contexts: None,
            patches: None,
            lossless_tree_learning: None,
            lossless_lz77: None,
            lossless_squeeze: None,
            gaborish: None,
            pixel_domain_loss: None,
            adaptive_quant: None,
            adjust_quant_ac: None,
            chromacity_adjustment: None,
            cfl: None,
            cfl_two_pass: None,
            epf: None,
            epf_dynamic_sharpness: None,
            optimize_codes: None,
        }
    }
}

/// A setting that differs from the encoder's own.
#[derive(Debug, Clone, Copy, PartialEq, Eq, Structural)]
pub enum JxlSetting {
    /// Patches.
    Patches(bool),
    /// Learned trees, lossless mode.
    TreeLearning(bool),
    /// LZ77, lossless mode.
    Lz77(bool),
    /// Squeeze transform, lossless mode.
    Squeeze(bool),
    /// Largest transform.
    MaxStrategySize(u8),
    /// The one transform to use.
    ForceStrategy(u8),
    /// Coefficient orders of the picture.
    CustomOrders(bool),
    /// Adaptive block contexts.
    AdaptiveBlockContexts(bool),
    /// Gaborish filter.
    Gaborish(bool),
    /// Loss in the pixel domain.
    PixelDomainLoss(bool),
    /// Adaptive quantization.
    AdaptiveQuant(bool),
    /// Adjusted quantization.
    AdjustQuantAc(bool),
    /// Chromacity adjustment.
    ChromacityAdjustment(bool),
    /// Chroma from luma.
    Cfl(bool),
    /// Chroma from luma in two passes.
    CflTwoPass(bool),
    /// Edge-preserving filter.
    Epf(bool),
    /// Dynamic sharpness of that filter.
    EpfDynamicSharpness(bool),
    /// Optimized codes.
    OptimizeCodes(bool),
}

/// What an encoder is asked for.
#[derive(Debug)]
pub struct JxlPlan {
    /// The distance of lossy mode, as the bits of a single-precision float; none in lossless mode.
    pub distance: Option<u32>,
    /// Effort.
    pub effort: u8,
    /// How the encoder chooses.
    pub mode: EncoderMode,
    /// Threads.
    pub threads: usize,
    /// Settings, in the order in which they are made.
    pub settings: Vec<JxlSetting>,
}

/// A setting, if it is made.
pub open spec fn made(setting: Option<JxlSetting>) -> Seq<JxlSetting> {
    match setting {
        Some(v) => seq![v],
        None => Seq::empty(),
    }
}

fn make(settings: &mut Vec<JxlSetting>, setting: Option<JxlSetting>)
    ensures
        final(settings)@ == old(settings)@ + made(setting),
{
    let ghost before = settings@;
    match setting {
        Some(v) => {
            settings.push(v);
        },
        None => {},
    }
    assert(settings@ =~= before + made(setting));
}

/// Patches.
pub open spec fn patches_setting(o: JxlEncodeOptions) -> Option<JxlSetting> {
    match o.patches {
        Some(v) => Some(JxlSetting::Patches(v)),
        None => None,
    }
}

fn get_patches(o: &JxlEncodeOptions) -> (r: Option<JxlSetting>)
    ensures
        r == patches_setting(*o),
{
    match o.patches {
        Some(v) => Some(JxlSetting::Patches(v)),
        None => None,
    }
}

/// Learned trees, lossless mode.
pub open spec fn lossless_tree_learning_setting(o: JxlEncodeOptions) -> Option<JxlSetting> {
    match o.lossless_tree_learning {
        Some(v) => Some(JxlSetting::TreeLearning(v)),
        None => None,
    }
}

fn get_lossless_tree_learning(o: &JxlEncodeOptions) -> (r: Option<JxlSetting>)
    ensures
        r == lossless_tree_learning_setting(*o),
{
    match o.lossless_tree_learning {
        Some(v) => Some(JxlSetting::TreeLearning(v)),
        None => None,
    }
}

/// LZ77, lossless mode.
pub open spec fn lossless_lz77_setting(o: JxlEncodeOptions) -> Option<JxlSetting> {
    match o.lossless_lz77 {
        Some(v) => Some(JxlSetting::Lz77(v)),
        None => None,
    }
}

fn get_lossless_lz77(o: &JxlEncodeOptions) -> (r: Option<JxlSetting>)
    ensures
        r == lossless_lz77_setting(*o),
{
    match o.lossless_lz77 {
        Some(v) => Some(JxlSetting::Lz77(v)),
        None => None,
    }
}

/// Squeeze transform, lossless mode.
pub open spec fn lossless_squeeze_setting(o: JxlEncodeOptions) -> Option<JxlSetting> {
    match o.lossless_squeeze {
        Some(v) => Some(JxlSetting::Squeeze(v)),
        None => None,
    }
}

fn get_lossless_squeeze(o: &JxlEncodeOptions) -> (r: Option<JxlSetting>)
    ensures
        r == lossless_squeeze_setting(*o),
{
    match o.lossless_squeeze {
        Some(v) => Some(JxlSetting::Squeeze(v)),
        None => None,
    }
}

/// Largest transform.
pub open spec fn max_strategy_size_setting(o: JxlEncodeOptions) -> Option<JxlSetting> {
    match o.max_strategy_size {
        Some(v) => Some(JxlSetting::MaxStrategySize(v)),
        None => None,
    }
}

fn get_max_strategy_size(o: &JxlEncodeOptions) -> (r: Option<JxlSetting>)
    ensures
        r == max_strategy_size_setting(*o),
{
    match o.max_strategy_size {
        Some(v) => Some(JxlSetting::MaxStrategySize(v)),
        None => None,
    }
}

/// The one transform to use.
pub open spec fn force_strategy_setting(o: JxlEncodeOptions) -> Option<JxlSetting> {
    match o.force_strategy {
        Some(v) => Some(JxlSetting::ForceStrategy(v)),
        None => None,
    }
}

fn get_force_strategy(o: &JxlEncodeOptions) -> (r: Option<JxlSetting>)
    ensures
        r == force_strategy_setting(*o),
{
    match o.force_strategy {
        Some(v) => Some(JxlSetting::ForceStrategy(v)),
        None => None,
    }
}

/// Coefficient orders of the picture.
pub open spec fn custom_orders_setting(o: JxlEncodeOptions) -> Option<JxlSetting> {
    match o.custom_orders {
        Some(v) => Some(JxlSetting::CustomOrders(v)),
        None => None,
    }
}

fn get_custom_orders(o: &JxlEncodeOptions) -> (r: Option<JxlSetting>)
    ensures
        r == custom_orders_setting(*o),
{
    match o.custom_orders {
        Some(v) => Some(JxlSetting::CustomOrders(v)),
        None => None,
    }
}

/// Adaptive block contexts.
pub open spec fn adaptive_block_contexts_setting(o: JxlEncodeOptions) -> Option<JxlSetting> {
    match o.adaptive_block_contexts {
        Some(v) => Some(JxlSetting::AdaptiveBlockContexts(v)),
        None => None,
    }
}

fn get_adaptive_block_contexts(o: &JxlEncodeOptions) -> (r: Option<JxlSetting>)
    ensures
        r == adaptive_block_contexts_setting(*o),
{
    match o.adaptive_block_contexts {
        Some(v) => Some(JxlSetting::AdaptiveBlockContexts(v)),
        None => None,
    }
}

/// Gaborish filter.
pub open spec fn gaborish_setting(o: JxlEncodeOptions) -> Option<JxlSetting> {
    match o.gaborish {
        Some(v) => Some(JxlSetting::Gaborish(v)),
        None => None,
    }
}

fn get_gaborish(o: &JxlEncodeOptions) -> (r: Option<JxlSetting>)
    ensures
        r == gaborish_setting(*o),
{
    match o.gaborish {
        Some(v) => Some(JxlSetting::Gaborish(v)),
        None => None,
    }
}

/// Loss in the pixel domain.
pub open spec fn pixel_domain_loss_setting(o: JxlEncodeOptions) -> Option<JxlSetting> {
    match o.pixel_domain_loss {
        Some(v) => Some(JxlSetting::PixelDomainLoss(v)),
        None => None,
    }
}

fn get_pixel_domain_loss(o: &JxlEncodeOptions) -> (r: Option<JxlSetting>)
    ensures
        r == pixel_domain_loss_setting(*o),
{
    match o.pixel_domain_loss {
        Some(v) => Some(JxlSetting::PixelDomainLoss(v)),
        None => None,
    }
}

/// Adaptive quantization.
pub open spec fn adaptive_quant_setting(o: JxlEncodeOptions) -> Option<JxlSetting> {
    match o.adaptive_quant {
        Some(v) => Some(JxlSetting::AdaptiveQuant(v)),
        None => None,
    }
}

fn get_adaptive_quant(o: &JxlEncodeOptions) -> (r: Option<JxlSetting>)
    ensures
        r == adaptive_quant_setting(*o),
{
    match o.adaptive_quant {
        Some(v) => Some(JxlSetting::AdaptiveQuant(v)),
        None => None,
    }
}

/// Adjusted quantization.
pub open spec fn adjust_quant_ac_setting(o: JxlEncodeOptions) -> Option<JxlSetting> {
    match o.adjust_quant_ac {
        Some(v) => Some(JxlSetting::AdjustQuantAc(v)),
        None => None,
    }
}

fn get_adjust_quant_ac(o: &JxlEncodeOptions) -> (r: Option<JxlSetting>)
    ensures
        r == adjust_quant_ac_setting(*o),
{
    match o.adjust_quant_ac {
        Some(v) => Some(JxlSetting::AdjustQuantAc(v)),
        None => None,
    }
}

/// Chromacity adjustment.
pub open spec fn chromacity_adjustment_setting(o: JxlEncodeOptions) -> Option<JxlSetting> {
    match o.chromacity_adjustment {
        Some(v) => Some(JxlSetting::ChromacityAdjustment(v)),
        None => None,
    }
}

fn get_chromacity_adjustment(o: &JxlEncodeOptions) -> (r: Option<JxlSetting>)
    ensures
        r == chromacity_adjustment_setting(*o),
{
    match o.chromacity_adjustment {
        Some(v) => Some(JxlSetting::ChromacityAdjustment(v)),
        None => None,
    }
}

/// Chroma from luma.
pub open spec fn cfl_setting(o: JxlEncodeOptions) -> Option<JxlSetting> {
    match o.cfl {
        Some(v) => Some(JxlSetting::Cfl(v)),
        None => None,
    }
}

fn get_cfl(o: &JxlEncodeOptions) -> (r: Option<JxlSetting>)
    ensures
        r == cfl_setting(*o),
{
    match o.cfl {
        Some(v) => Some(JxlSetting::Cfl(v)),
        None => None,
    }
}

/// Chroma from luma in two passes.
pub open spec fn cfl_two_pass_setting(o: JxlEncodeOptions) -> Option<JxlSetting> {
    match o.cfl_two_pass {
        Some(v) => Some(JxlSetting::CflTwoPass(v)),
        None => None,
    }
}

fn get_cfl_two_pass(o: &JxlEncodeOptions) -> (r: Option<JxlSetting>)
    ensures
        r == cfl_two_pass_setting(*o),
{
    match o.cfl_two_pass {
        Some(v) => Some(JxlSetting::CflTwoPass(v)),
        None => None,
    }
}

/// Edge-preserving filter.
pub open spec fn epf_setting(o: JxlEncodeOptions) -> Option<JxlSetting> {
    match o.epf {
        Some(v) => Some(JxlSetting::Epf(v)),
        None => None,
    }
}

fn get_epf(o: &JxlEncodeOptions) -> (r: Option<JxlSetting>)
    ensures
        r == epf_setting(*o),
{
    match o.epf {
        Some(v) => Some(JxlSetting::Epf(v)),
        None => None,
    }
}

/// Dynamic sharpness of that filter.
pub open spec fn epf_dynamic_sharpness_setting(o: JxlEncodeOptions) -> Option<JxlSetting> {
    match o.epf_dynamic_sharpness {
        Some(v) => Some(JxlSetting::EpfDynamicSharpness(v)),
        None => None,
    }
}

fn get_epf_dynamic_sharpness(o: &JxlEncodeOptions) -> (r: Option<JxlSetting>)
    ensures
        r == epf_dynamic_sharpness_setting(*o),
{
    match o.epf_dynamic_sharpness {
        Some(v) => Some(JxlSetting::EpfDynamicSharpness(v)),
        None => None,
    }
}

/// Optimized codes.
pub open spec fn optimize_codes_setting(o: JxlEncodeOptions) -> Option<JxlSetting> {
    match o.optimize_codes {
        Some(v) => Some(JxlSetting::OptimizeCodes(v)),
        None => None,
    }
}

fn get_optimize_codes(o: &JxlEncodeOptions) -> (r: Option<JxlSetting>)
    ensures
        r == optimize_codes_setting(*o),
{
    match o.optimize_codes {
        Some(v) => Some(JxlSetting::OptimizeCodes(v)),
        None => None,
    }
}

/// Settings of lossless mode.
pub open spec fn lossless_settings(o: JxlEncodeOptions) -> Seq<JxlSetting> {
    made(patches_setting(o))
        + made(lossless_tree_learning_setting(o))
        + made(lossless_lz77_setting(o))
        + made(lossless_squeeze_setting(o))
}

fn collect_lossless(o: &JxlEncodeOptions) -> (r: Vec<JxlSetting>)
    ensures
        r@ == lossless_settings(*o),
{
    let mut r: Vec<JxlSetting> = Vec::new();
    make(&mut r, get_patches(o));
    assert(r@ =~= made(patches_setting(*o)));
    make(&mut r, get_lossless_tree_learning(o));
    make(&mut r, get_lossless_lz77(o));
    make(&mut r, get_lossless_squeeze(o));
    r
}

/// Settings of lossy mode.
pub open spec fn lossy_settings(o: JxlEncodeOptions) -> Seq<JxlSetting> {
    made(max_strategy_size_setting(o))
        + made(force_strategy_setting(o))
        + made(custom_orders_setting(o))
        + made(adaptive_block_contexts_setting(o))
        + made(patches_setting(o))
        + made(gaborish_setting(o))
        + made(pixel_domain_loss_setting(o))
        + made(adaptive_quant_setting(o))
        + made(adjust_quant_ac_setting(o))
        + made(chromacity_adjustment_setting(o))
        + made(cfl_setting(o))
        + made(cfl_two_pass_setting(o))
        + made(epf_setting(o))
        + made(epf_dynamic_sharpness_setting(o))
        + made(optimize_codes_setting(o))
}

fn collect_lossy(o: &JxlEncodeOptions) -> (r: Vec<JxlSetting>)
    ensures
        r@ == lossy_settings(*o),
{
    let mut r: Vec<JxlSetting> = Vec::new();
    make(&mut r, get_max_strategy_size(o));
    assert(r@ =~= made(max_strategy_size_setting(*o)));
    make(&mut r, get_force_strategy(o));
    make(&mut r, get_custom_orders(o));
    make(&mut r, get_adaptive_block_contexts(o));
    make(&mut r, get_patches(o));
    make(&mut r, get_gaborish(o));
    make(&mut r, get_pixel_domain_loss(o));
    make(&mut r, get_adaptive_quant(o));
    make(&mut r, get_adjust_quant_ac(o));
    make(&mut r, get_chromacity_adjustment(o));
    make(&mut r, get_cfl(o));
    make(&mut r, get_cfl_two_pass(o));
    make(&mut r, get_epf(o));
    make(&mut r, get_epf_dynamic_sharpness(o));
    make(&mut r, get_optimize_codes(o));
    r
}

/// The plan is the one for the settings.
pub open spec fn is_plan_for(o: JxlEncodeOptions, plan: JxlPlan) -> bool {
    &&& plan.effort == o.effort
    &&& plan.mode == o.mode
    &&& plan.threads == o.threads
    &&& plan.distance == (if o.lossless {
        None
    } else if o.distance is Some {
        o.distance
    } else {
        Some(ONE_BITS)
    })
    &&& plan.settings@ == (if o.lossless {
        lossless_settings(o)
    } else {
        lossy_settings(o)
    })
}

/// What an encoder is asked for.
pub fn plan_jxl(options: &JxlEncodeOptions) -> (r: JxlPlan)
    ensures
        is_plan_for(*options, r),
{
    if options.lossless {
        JxlPlan {
            distance: None,
            effort: options.effort,
            mode: options.mode,
            threads: options.threads,
            settings: collect_lossless(options),
        }
    } else {
        let distance: u32 = match options.distance {
            Some(d) => d,
            None => ONE_BITS,
        };
        JxlPlan {
            distance: Some(distance),
            effort: options.effort,
            mode: options.mode,
            threads: options.threads,
            settings: collect_lossy(options),
        }
    }
}

/// A file or an error, by their models.
pub open spec fn bytes_result(r: Result<Vec<u8>, CrabMagickError>) -> Result<
    Seq<u8>,
    ErrorModel,
> {
    match r {
        Ok(v) => Ok(v@),
        Err(e) => Err(e@),
    }
}

/// What an encoder's reply comes to.
pub open spec fn jxl_outcome(lossless: bool, reply: Result<Vec<u8>, String>) -> Result<
    Seq<u8>,
    ErrorModel,
> {
    match reply {
        Ok(v) => Ok(v@),
        Err(why) => Err(
            unencoded(
                if lossless {
                    "lossless JPEG XL encoding failed: "@
                } else {
                    "lossy JPEG XL encoding failed: "@
                },
                why@,
            ),
        ),
    }
}

/// What an encoder's reply comes to.
pub fn finish_jxl(lossless: bool, reply: Result<Vec<u8>, String>) -> (r: Result<
    Vec<u8>,
    CrabMagickError,
>)
    ensures
        bytes_result(r) == jxl_outcome(lossless, reply),
{
    match reply {
        Ok(v) => Ok(v),
        Err(why) => if lossless {
            Err(encode_failed("lossless JPEG XL encoding failed: ", &why))
        } else {
            Err(encode_failed("lossy JPEG XL encoding failed: ", &why))
        },
    }
}

/// The file is what the encoder makes of the plan for the settings.
pub open spec fn jxl_encoded<
    E: Fn(&JxlPlan, &[u8], u32, u32) -> Result<Vec<u8>, String>,
>(
    encoder: E,
    pixels: &[u8],
    width: u32,
    height: u32,
    o: JxlEncodeOptions,
    r: Result<Seq<u8>, ErrorModel>,
) -> bool {
    exists|plan: JxlPlan, reply: Result<Vec<u8>, String>|
        {
            &&& #[trigger] call_ensures(encoder, (&plan, pixels, width, height), reply)
            &&& is_plan_for(o, plan)
            &&& r == jxl_outcome(o.lossless, reply)
        }
}

/// Encodes packed RGB as JPEG XL.
pub fn encode_jxl_rgb<E: Fn(&JxlPlan, &[u8], u32, u32) -> Result<Vec<u8>, String>>(
    pixels: &[u8],
    width: u32,
    height: u32,
    options: &JxlEncodeOptions,
    encoder: &E,
) -> (r: Result<Vec<u8>, CrabMagickError>)
    requires
        forall|plan: &JxlPlan| #[trigger] call_requires(*encoder, (plan, pixels, width, height)),
    ensures
        jxl_encoded(*encoder, pixels, width, height, *options, bytes_result(r)),
{
    let plan: JxlPlan = plan_jxl(options);
    let reply: Result<Vec<u8>, String> = encoder(&plan, pixels, width, height);
    let ghost shown = reply;
    assert(call_ensures(*encoder, (&plan, pixels, width, height), shown));
    finish_jxl(options.lossless, reply)
}

} // verus!
