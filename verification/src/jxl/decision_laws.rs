//! When a frame is decoded how, and what is made of a stream that ends early.
use crate::jxl::error::VardctError;
use crate::jxl::frame_error;
use crate::jxl::pass_group::{group_result, modular_task, FrameHeader, ModularSubimage, ModularTask};
use crate::jxl::render::{decode_step, PassEntry};
use crate::jxl::render_error::Error;
use crate::jxl::render_frame::{lf_global_from, LfGlobalFrom};
use vstd::prelude::*;

verus! {

/// A group is decoded exactly if it has metadata and is rendered. Subsampled groups always go into
/// grids, and no others do; blocks are rendered at once only from one pass that is complete, has no
/// modular part and holds other blocks than small ones.
pub proof fn lemma_decode_step(
    has_meta: bool,
    rendered: bool,
    subsampled: bool,
    passes: int,
    first: Option<PassEntry>,
    all_dct8: bool,
)
    ensures
        ({
            let step = decode_step(has_meta, rendered, subsampled, passes, first, all_dct8);
            &&& (step is Nothing) == !(has_meta && rendered)
            &&& (step is Strided) == (has_meta && rendered && subsampled)
            &&& step is Direct ==> passes == 1 && first is Some && !first->Some_0.partial
                && !first->Some_0.has_modular && !all_dct8 && !subsampled
            &&& has_meta && rendered && !subsampled && (passes != 1 || all_dct8 || first is None)
                ==> step is Compact
            &&& has_meta && rendered && !subsampled && passes == 1 && !all_dct8 && first is Some
                && !first->Some_0.partial && !first->Some_0.has_modular ==> step is Direct
        }),
{
}

/// What was read completely before is not read again, whatever the frame holds. Otherwise the frame
/// decides; only a frame that leans on another one must be read completely.
pub proof fn lemma_global_source(
    cached: Option<bool>,
    parsed: Option<Result<bool, frame_error::Error>>,
    has_lf_frame: bool,
)
    ensures
        ({
            let r = lf_global_from(cached, parsed, has_lf_frame);
            &&& (r == Ok::<LfGlobalFrom, Error>(LfGlobalFrom::Cached)) == (cached is Some
                && !cached->Some_0)
            &&& !(cached is Some && !cached->Some_0) ==> (r is Ok) == (parsed is Some
                && parsed->Some_0 is Ok && !(parsed->Some_0->Ok_0 && has_lf_frame))
            &&& !(cached is Some && !cached->Some_0) && parsed is None ==> r == Err::<
                LfGlobalFrom,
                Error,
            >(Error::IncompleteFrame)
        }),
{
}

/// A stream that ends early is forgiven only where a part is all that is asked for, and then nothing
/// more is decoded of it; every other failure is told.
pub proof fn lemma_early_end(
    coeffs: core::result::Result<(), VardctError>,
    partial: bool,
    task: Option<ModularTask>,
)
    ensures
        ({
            let r = group_result(coeffs, partial, task);
            &&& coeffs is Ok ==> r is Ok && r->Ok_0 == task
            &&& coeffs is Err ==> (r is Ok) == (partial && coeffs->Err_0.is_eof())
            &&& coeffs is Err && r is Ok ==> r->Ok_0 is None
        }),
{
}

/// A modular part is decoded exactly if there is one and it is not empty, each from a stream of its
/// own.
pub proof fn lemma_modular_task(
    modular: Option<ModularSubimage>,
    header: FrameHeader,
    pass: int,
    group: int,
    partial: bool,
)
    ensures
        (modular_task(modular, header, pass, group, partial) is Some) == (modular is Some
            && !modular->Some_0.is_empty),
        modular_task(modular, header, pass, group, partial) is Some ==> modular_task(
            modular,
            header,
            pass,
            group,
            partial,
        )->Some_0.allow_partial == partial,
{
}

} // verus!
