//! SVG input: rendering to a size, and the surface as packed RGB.
use crate::pipeline::image::{image_result, DecodedImage, ImageModel};
use crate::pipeline::jxl_source::info_result;
use crate::pipeline::resize::{output_size, resolve_output_size};
use crate::request::{failed, malformed, CrabMagickError, ErrorModel, ImageInfo};
use vstd::prelude::*;

verus! {

/// `usvg`'s tree.
#[verifier::external_type_specification]
#[verifier::external_body]
pub struct ExTree(resvg::usvg::Tree);

/// A tree that parsing a document may come to.
pub uninterp spec fn svg_tree(bytes: Seq<u8>, tree: resvg::usvg::Tree) -> bool;

/// Why a document cannot be parsed, if it cannot.
pub uninterp spec fn svg_error(bytes: Seq<u8>) -> Option<Seq<char>>;

/// Parses an SVG document: `usvg`'s `Tree::from_data` with default options.
///
/// Claims that the bytes decide whether this succeeds, and that a tree is one of those that the
/// bytes may come to. Which of them it is stays open: a document may draw on files that it refers
/// to.
#[verifier::external_body]
fn parse_svg(bytes: &[u8]) -> (r: Result<resvg::usvg::Tree, String>)
    ensures
        r is Ok <==> svg_error(bytes@) is None,
        r is Ok ==> svg_tree(bytes@, r->Ok_0),
        r is Err ==> svg_error(bytes@) == Some(r->Err_0@),
{
    resvg::usvg::Tree::from_data(bytes, &resvg::usvg::Options::default())
        .map_err(|error| error.to_string())
}

/// Width and height of a document in whole pixels.
pub uninterp spec fn svg_size(tree: resvg::usvg::Tree) -> (u32, u32);

/// The size of a document in whole pixels: `usvg`'s `Tree::size`, rounded by `to_int_size`.
///
/// Claims that the tree decides, and that neither dimension is 0.
#[verifier::external_body]
fn natural_size(tree: &resvg::usvg::Tree) -> (r: (u32, u32))
    ensures
        r == svg_size(*tree),
        r.0 >= 1,
        r.1 >= 1,
{
    let size = tree.size().to_int_size();
    (size.width(), size.height())
}

/// A color value freed from the alpha it was multiplied with; 0 where alpha is 0.
pub open spec fn plain(v: int, alpha: int) -> int {
    if alpha == 0 {
        0
    } else if v * 255 / alpha > 255 {
        255
    } else {
        v * 255 / alpha
    }
}

/// The bytes of a surface's pixels without alpha.
pub open spec fn surface_bytes(data: Seq<u8>) -> Seq<u8> {
    Seq::new(
        3 * (data.len() / 4),
        |i: int| plain(data[4 * (i / 3) + i % 3] as int, data[4 * (i / 3) + 3] as int) as u8,
    )
}

/// Opaque pixels keep their color.
pub proof fn lemma_plain_opaque(v: int)
    requires
        0 <= v <= 255,
    ensures
        plain(v, 255) == v,
{
}

/// Color multiplied with alpha and rounded down comes back within what the rounding lost.
pub proof fn lemma_plain_near(v: int, alpha: int)
    requires
        0 <= v <= 255,
        0 < alpha <= 255,
    ensures
        ({
            let m = v * alpha / 255;
            &&& plain(m, alpha) <= v
            &&& plain(m, alpha) * alpha > (v - 1) * alpha - 255
        }),
{
    let p = v * alpha;
    let m = p / 255;
    let q = m * 255 / alpha;
    assert(p - 255 < m * 255 <= p);
    vstd::arithmetic::div_mod::lemma_fundamental_div_mod(m * 255, alpha);
    assert(0 <= m * 255 % alpha < alpha) by (nonlinear_arith)
        requires
            alpha > 0,
    ;
    assert(alpha * q <= m * 255 < alpha * q + alpha);
    assert(q <= v) by (nonlinear_arith)
        requires
            alpha * q <= m * 255,
            m * 255 <= v * alpha,
            alpha > 0,
    ;
    assert(q * alpha > (v - 1) * alpha - 255) by (nonlinear_arith)
        requires
            m * 255 < alpha * q + alpha,
            v * alpha - 255 < m * 255,
    ;
}

fn unmultiplied(v: u8, alpha: u8) -> (r: u8)
    ensures
        r == plain(v as int, alpha as int),
{
    if alpha == 0 {
        return 0;
    }
    let q: u32 = v as u32 * 255 / alpha as u32;
    if q > 255 {
        255
    } else {
        q as u8
    }
}

/// The bytes of a surface's pixels without alpha.
pub fn surface_to_rgb(data: &Vec<u8>) -> (r: Vec<u8>)
    ensures
        r@ == surface_bytes(data@),
{
    let mut r: Vec<u8> = Vec::new();
    let total: usize = data.len();
    let n: usize = total / 4;
    let mut i: usize = 0;
    while i < n
        invariant
            i <= n,
            n == total / 4,
            total == data@.len(),
            r@.len() == 3 * i,
            forall|k: int| 0 <= k < 3 * i ==> #[trigger] r@[k] == surface_bytes(data@)[k],
        decreases n - i,
    {
        let a: u8 = data[4 * i + 3];
        r.push(unmultiplied(data[4 * i], a));
        r.push(unmultiplied(data[4 * i + 1], a));
        r.push(unmultiplied(data[4 * i + 2], a));
        i = i + 1;
    }
    assert(r@ =~= surface_bytes(data@));
    r
}

/// The image of a rendered surface, or why there is none.
pub open spec fn surface_image(surface: Option<Vec<u8>>, width: u32, height: u32) -> Result<
    ImageModel,
    ErrorModel,
> {
    match surface {
        Some(data) => Ok(ImageModel { pixels: surface_bytes(data@), width, height }),
        None => Err(
            ErrorModel::DecodeMalformed("failed to allocate the SVG raster surface"@),
        ),
    }
}

/// The image of a rendered surface.
pub fn finish_svg(surface: Option<Vec<u8>>, width: u32, height: u32) -> (r: Result<
    DecodedImage,
    CrabMagickError,
>)
    ensures
        image_result(r) == surface_image(surface, width, height),
{
    match surface {
        Some(data) => Ok(DecodedImage { pixels: surface_to_rgb(&data), width, height }),
        None => Err(
            CrabMagickError::decode_malformed("failed to allocate the SVG raster surface"),
        ),
    }
}

/// What rendering is asked for: the size of the document and the size to render to.
#[derive(Debug, Clone, Copy)]
pub struct SvgJob {
    /// Width of the document.
    pub natural_width: u32,
    /// Height of the document.
    pub natural_height: u32,
    /// Width to render to.
    pub width: u32,
    /// Height to render to.
    pub height: u32,
}

/// The job for a document of a size: the size that a request comes to.
pub open spec fn job_of(size: (u32, u32), out_w: u32, out_h: u32) -> SvgJob {
    let out = output_size(size.0 as int, size.1 as int, out_w as int, out_h as int);
    SvgJob {
        natural_width: size.0,
        natural_height: size.1,
        width: out.0 as u32,
        height: out.1 as u32,
    }
}

/// What rendering a document is asked for.
pub fn svg_job(tree: &resvg::usvg::Tree, out_w: u32, out_h: u32) -> (r: SvgJob)
    ensures
        r == job_of(svg_size(*tree), out_w, out_h),
        r.natural_width >= 1,
        r.natural_height >= 1,
{
    let (natural_width, natural_height): (u32, u32) = natural_size(tree);
    let (width, height): (u32, u32) = resolve_output_size(
        natural_width,
        natural_height,
        out_w,
        out_h,
    );
    SvgJob { natural_width, natural_height, width, height }
}

/// The size of a parsed document.
pub fn svg_info(tree: &resvg::usvg::Tree) -> (r: ImageInfo)
    ensures
        (r.width, r.height) == svg_size(*tree),
        r.width >= 1,
        r.height >= 1,
{
    let (width, height): (u32, u32) = natural_size(tree);
    ImageInfo { width, height }
}

/// The image is what the renderer made of the document at the size that the request comes to.
pub open spec fn svg_drawn<S: Fn(&resvg::usvg::Tree, &SvgJob) -> Option<Vec<u8>>>(
    render: S,
    tree: resvg::usvg::Tree,
    out_w: u32,
    out_h: u32,
    r: Result<ImageModel, ErrorModel>,
) -> bool {
    let job = job_of(svg_size(tree), out_w, out_h);
    exists|surface: Option<Vec<u8>>| #[trigger]
        call_ensures(render, (&tree, &job), surface) && r == surface_image(
            surface,
            job.width,
            job.height,
        )
}

/// Draws a parsed document at the size that a request comes to.
pub fn draw_svg<S: Fn(&resvg::usvg::Tree, &SvgJob) -> Option<Vec<u8>>>(
    tree: &resvg::usvg::Tree,
    out_w: u32,
    out_h: u32,
    render: &S,
) -> (r: Result<DecodedImage, CrabMagickError>)
    requires
        forall|job: &SvgJob| #[trigger] call_requires(*render, (tree, job)),
    ensures
        svg_drawn(*render, *tree, out_w, out_h, image_result(r)),
{
    let job: SvgJob = svg_job(tree, out_w, out_h);
    let surface: Option<Vec<u8>> = render(tree, &job);
    let ghost shown = surface;
    assert(call_ensures(*render, (tree, &job), shown));
    finish_svg(surface, job.width, job.height)
}

/// The error of a document that cannot be parsed.
pub open spec fn svg_unparsed(why: Seq<char>) -> ErrorModel {
    failed("SVG parsing failed: "@, why)
}

/// The outcome of decoding a document: its error, or what the renderer made of a tree of it.
pub open spec fn svg_rendered<S: Fn(&resvg::usvg::Tree, &SvgJob) -> Option<Vec<u8>>>(
    render: S,
    bytes: Seq<u8>,
    out_w: u32,
    out_h: u32,
    r: Result<ImageModel, ErrorModel>,
) -> bool {
    match svg_error(bytes) {
        Some(why) => r == Err::<ImageModel, ErrorModel>(svg_unparsed(why)),
        None => exists|tree: resvg::usvg::Tree| #[trigger]
            svg_tree(bytes, tree) && svg_drawn(render, tree, out_w, out_h, r),
    }
}

/// Decodes an SVG document at the size that a request comes to.
pub fn decode_svg<S: Fn(&resvg::usvg::Tree, &SvgJob) -> Option<Vec<u8>>>(
    bytes: &[u8],
    out_w: u32,
    out_h: u32,
    render: &S,
) -> (r: Result<DecodedImage, CrabMagickError>)
    requires
        forall|tree: &resvg::usvg::Tree, job: &SvgJob| #[trigger]
            call_requires(*render, (tree, job)),
    ensures
        svg_rendered(*render, bytes@, out_w, out_h, image_result(r)),
{
    match parse_svg(bytes) {
        Ok(tree) => draw_svg(&tree, out_w, out_h, render),
        Err(why) => Err(malformed("SVG parsing failed: ", &why)),
    }
}

/// The size of a document, or why it cannot be parsed.
pub open spec fn svg_measured(bytes: Seq<u8>, r: Result<ImageInfo, ErrorModel>) -> bool {
    match svg_error(bytes) {
        Some(why) => r == Err::<ImageInfo, ErrorModel>(svg_unparsed(why)),
        None => exists|tree: resvg::usvg::Tree| #[trigger]
            svg_tree(bytes, tree) && svg_size(tree).0 >= 1 && svg_size(tree).1 >= 1 && r == Ok::<
                ImageInfo,
                ErrorModel,
            >(ImageInfo { width: svg_size(tree).0, height: svg_size(tree).1 }),
    }
}

/// The size of an SVG document.
pub fn decode_svg_info(bytes: &[u8]) -> (r: Result<ImageInfo, CrabMagickError>)
    ensures
        svg_measured(bytes@, info_result(r)),
{
    match parse_svg(bytes) {
        Ok(tree) => Ok(svg_info(&tree)),
        Err(why) => Err(malformed("SVG parsing failed: ", &why)),
    }
}

} // verus!
