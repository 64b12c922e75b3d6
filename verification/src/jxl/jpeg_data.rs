//! Parsed JPEG files, and their coefficients in the order of JPEG XL.
use crate::parallel::parallel_map;
use vstd::prelude::*;

verus! {

#[derive(Debug, Clone, Copy, PartialEq, Eq, Structural)]
pub enum JpegComponentType {
    Gray,
    YCbCr,
    Rgb,
    Custom,
}

/// A quantization table in natural order.
pub struct JpegQuantTable {
    pub values: [i32; 64],
}

/// A component and its quantized coefficients, 64 per block in natural order.
pub struct JpegComponent {
    pub id: u32,
    pub h_samp_factor: u32,
    pub v_samp_factor: u32,
    pub quant_idx: u32,
    pub width_in_blocks: u32,
    pub height_in_blocks: u32,
    pub coeffs: Vec<i16>,
}

/// What recoding reads of a parsed JPEG file.
pub struct JpegData {
    pub width: u32,
    pub height: u32,
    pub is_progressive: bool,
    pub quant: Vec<JpegQuantTable>,
    pub components: Vec<JpegComponent>,
    pub component_type: JpegComponentType,
    /// The color profile that the file carries.
    pub icc: Option<Vec<u8>>,
}

impl JpegComponent {
    /// Every block has its coefficients.
    pub open spec fn wf(&self) -> bool {
        &&& self.coeffs@.len() >= 64 * (self.width_in_blocks * self.height_in_blocks)
    }
}

/// Rows and columns of a block swapped.
pub open spec fn transposed(k: int) -> int {
    (k % 8) * 8 + k / 8
}

/// Swapping twice changes nothing.
pub proof fn lemma_transposed(k: int)
    requires
        0 <= k < 64,
    ensures
        0 <= transposed(k) < 64,
        transposed(transposed(k)) == k,
        transposed(k) == 0 <==> k == 0,
{
}

/// Where the coefficients of a block start.
pub open spec fn block_base(width: int, bx: int, by: int) -> int {
    (by * width + bx) * 64
}

/// The coefficients of a block but the first, transposed.
pub open spec fn ac_block(coeffs: Seq<i16>, base: int) -> Seq<i32> {
    Seq::new(
        64,
        |k: int|
            if k == 0 {
                0i32
            } else {
                coeffs[base + transposed(k)] as i32
            },
    )
}

/// Number of nonzero values among the first `n`.
pub open spec fn nonzeros(s: Seq<i32>, n: nat) -> int
    decreases n,
{
    if n == 0 {
        0
    } else {
        nonzeros(s, (n - 1) as nat) + if s[n - 1] != 0 {
            1int
        } else {
            0
        }
    }
}

/// A row of blocks: first coefficients, transposed blocks, and numbers of nonzero coefficients.
pub struct BlockRow {
    pub dc: Vec<i16>,
    pub ac: Vec<[i32; 64]>,
    pub nz: Vec<u8>,
}

/// A row of blocks as sequences.
pub struct RowModel {
    pub dc: Seq<i16>,
    pub ac: Seq<Seq<i32>>,
    pub nz: Seq<u8>,
}

impl View for BlockRow {
    type V = RowModel;

    open spec fn view(&self) -> RowModel {
        RowModel {
            dc: self.dc@,
            ac: Seq::new(self.ac@.len(), |i: int| self.ac@[i]@),
            nz: self.nz@,
        }
    }
}

/// The rows of a channel as sequences.
pub open spec fn row_views(rows: Seq<BlockRow>) -> Seq<RowModel> {
    Seq::new(rows.len(), |i: int| rows[i]@)
}

/// The channels of a file as sequences.
pub open spec fn channel_views(channels: Seq<Vec<BlockRow>>) -> Seq<Seq<RowModel>> {
    Seq::new(channels.len(), |c: int| row_views(channels[c]@))
}

/// Row `by` of a component.
pub open spec fn is_row(row: BlockRow, coeffs: Seq<i16>, width: int, by: int) -> bool {
    &&& row.dc@.len() == width
    &&& row.ac@.len() == width
    &&& row.nz@.len() == width
    &&& forall|bx: int|
        0 <= bx < width ==> {
            let base = block_base(width, bx, by);
            &&& #[trigger] row.dc@[bx] == coeffs[base]
            &&& row.ac@[bx]@ == ac_block(coeffs, base)
            &&& row.nz@[bx] == nonzeros(ac_block(coeffs, base), 64)
        }
}

/// A row without coefficients.
pub open spec fn is_zero_row(row: BlockRow, width: int) -> bool {
    &&& row.dc@.len() == width
    &&& row.ac@.len() == width
    &&& row.nz@.len() == width
    &&& forall|bx: int|
        0 <= bx < width ==> {
            &&& #[trigger] row.dc@[bx] == 0
            &&& row.ac@[bx]@ == Seq::new(64, |k: int| 0i32)
            &&& row.nz@[bx] == 0
        }
}

/// The blocks of a channel.
pub open spec fn is_component(rows: Seq<BlockRow>, comp: JpegComponent) -> bool {
    &&& rows.len() == comp.height_in_blocks
    &&& forall|by: int|
        0 <= by < rows.len() ==> is_row(
            #[trigger] rows[by],
            comp.coeffs@,
            comp.width_in_blocks as int,
            by,
        )
}

/// A channel without coefficients.
pub open spec fn is_zero_component(rows: Seq<BlockRow>, width: int, height: int) -> bool {
    &&& rows.len() == height
    &&& forall|by: int| 0 <= by < rows.len() ==> is_zero_row(#[trigger] rows[by], width)
}

/// Reads one block.
fn map_block(coeffs: &Vec<i16>, base: usize) -> (r: ([i32; 64], u8))
    requires
        base + 64 <= coeffs@.len(),
    ensures
        r.0@ == ac_block(coeffs@, base as int),
        r.1 == nonzeros(ac_block(coeffs@, base as int), 64),
{
    let mut ac: [i32; 64] = [0i32; 64];
    let mut count: u8 = 0;
    let mut k: usize = 1;
    let total: usize = coeffs.len();
    let ghost goal = ac_block(coeffs@, base as int);
    assert(nonzeros(goal, 1) == 0) by {
        reveal_with_fuel(nonzeros, 2);
    }
    while k < 64
        invariant
            1 <= k <= 64,
            base + 64 <= coeffs@.len(),
            total == coeffs@.len(),
            goal == ac_block(coeffs@, base as int),
            ac@.len() == 64,
            forall|i: int| 0 <= i < k ==> #[trigger] ac@[i] == goal[i],
            count == nonzeros(goal, k as nat),
            count < k,
        decreases 64 - k,
    {
        let value: i32 = coeffs[base + (k % 8) * 8 + k / 8] as i32;
        ac[k] = value;
        if value != 0 {
            count = count + 1;
        }
        k = k + 1;
    }
    assert(ac@ =~= goal);
    (ac, count)
}

/// Reads a row of blocks.
fn map_row(coeffs: &Vec<i16>, width: usize, height: usize, by: usize) -> (row: BlockRow)
    requires
        by < height,
        coeffs@.len() >= 64 * (width * height),
    ensures
        is_row(row, coeffs@, width as int, by as int),
{
    let mut dc: Vec<i16> = Vec::new();
    let mut ac: Vec<[i32; 64]> = Vec::new();
    let mut nz: Vec<u8> = Vec::new();
    let total: usize = coeffs.len();
    let mut bx: usize = 0;
    while bx < width
        invariant
            bx <= width,
            by < height,
            total == coeffs@.len(),
            coeffs@.len() >= 64 * (width * height),
            dc@.len() == bx,
            ac@.len() == bx,
            nz@.len() == bx,
            forall|i: int|
                0 <= i < bx ==> {
                    let base = block_base(width as int, i, by as int);
                    &&& #[trigger] dc@[i] == coeffs@[base]
                    &&& ac@[i]@ == ac_block(coeffs@, base)
                    &&& nz@[i] == nonzeros(ac_block(coeffs@, base), 64)
                },
        decreases width - bx,
    {
        proof {
            crate::jxl::grid::lemma_flat(bx as int, by as int, width as int, height as int);
        }
        let base: usize = (by * width + bx) * 64;
        let (block, count) = map_block(coeffs, base);
        dc.push(coeffs[base]);
        ac.push(block);
        nz.push(count);
        bx = bx + 1;
    }
    BlockRow { dc, ac, nz }
}

fn zero_row(width: usize) -> (row: BlockRow)
    ensures
        is_zero_row(row, width as int),
{
    let mut ac: Vec<[i32; 64]> = Vec::new();
    let mut bx: usize = 0;
    while bx < width
        invariant
            bx <= width,
            ac@.len() == bx,
            forall|i: int|
                0 <= i < bx ==> (#[trigger] ac@[i])@ == Seq::new(64, |k: int| 0i32),
        decreases width - bx,
    {
        let block: [i32; 64] = [0i32; 64];
        assert(block@ =~= Seq::new(64, |k: int| 0i32));
        ac.push(block);
        bx = bx + 1;
    }
    BlockRow { dc: vec![0; width], ac, nz: vec![0; width] }
}

fn zero_component(width: usize, height: usize) -> (rows: Vec<BlockRow>)
    ensures
        is_zero_component(rows@, width as int, height as int),
{
    let mut rows: Vec<BlockRow> = Vec::new();
    let mut by: usize = 0;
    while by < height
        invariant
            by <= height,
            rows@.len() == by,
            forall|i: int| 0 <= i < by ==> is_zero_row(#[trigger] rows@[i], width as int),
        decreases height - by,
    {
        rows.push(zero_row(width));
        by = by + 1;
    }
    rows
}

/// Reads the blocks of a component; rows are independent of each other.
pub fn map_jpeg_component_coefficients(comp: &JpegComponent, sequential: bool) -> (rows: Vec<BlockRow>)
    requires
        comp.wf(),
    ensures
        is_component(rows@, *comp),
{
    let width: usize = comp.width_in_blocks as usize;
    let height: usize = comp.height_in_blocks as usize;
    let read = |by: usize| -> (row: BlockRow)
        requires
            by < height,
        ensures
            is_row(row, comp.coeffs@, width as int, by as int),
        { map_row(&comp.coeffs, width, height, by) };
    let rows: Vec<BlockRow> = parallel_map(height, sequential, read);
    assert forall|by: int| 0 <= by < rows@.len() implies is_row(
        #[trigger] rows@[by],
        comp.coeffs@,
        width as int,
        by,
    ) by {
        let i = by as usize;
        assert(call_ensures(read, (i,), rows@[i as int]));
    }
    rows
}

/// Component of the file that each channel comes from: chroma, luma, chroma.
pub open spec fn component_map(count: int, kind: JpegComponentType) -> Seq<usize> {
    if count == 1 {
        seq![0usize, 0usize, 0usize]
    } else if kind == JpegComponentType::YCbCr {
        seq![1usize, 0usize, 2usize]
    } else {
        seq![0usize, 1usize, 2usize]
    }
}

/// The blocks of the three channels. A file with one component has luma only.
pub open spec fn is_mapped(channels: Seq<Vec<BlockRow>>, jpeg: JpegData) -> bool {
    let map = component_map(jpeg.components@.len() as int, jpeg.component_type);
    &&& channels.len() == 3
    &&& if jpeg.components@.len() == 1 {
        let comp = jpeg.components@[0];
        let w = comp.width_in_blocks as int;
        let h = comp.height_in_blocks as int;
        &&& is_zero_component(channels[0]@, w, h)
        &&& is_component(channels[1]@, comp)
        &&& is_zero_component(channels[2]@, w, h)
    } else {
        forall|c: int|
            0 <= c < 3 ==> is_component(
                (#[trigger] channels[c])@,
                jpeg.components@[map[c] as int],
            )
    }
}

/// Reads the blocks of all channels.
pub fn map_jpeg_coefficients(jpeg: &JpegData, jpeg_c_map: &[usize; 3], sequential: bool) -> (r: Vec<
    Vec<BlockRow>,
>)
    requires
        jpeg.components@.len() == 1 || jpeg.components@.len() == 3,
        forall|i: int| 0 <= i < jpeg.components@.len() ==> (#[trigger] jpeg.components@[i]).wf(),
        jpeg_c_map@ == component_map(jpeg.components@.len() as int, jpeg.component_type),
    ensures
        is_mapped(r@, *jpeg),
{
    let mut channels: Vec<Vec<BlockRow>> = Vec::new();
    if jpeg.components.len() == 1 {
        let comp = &jpeg.components[0];
        assert(jpeg.components@[0].wf());
        let w: usize = comp.width_in_blocks as usize;
        let h: usize = comp.height_in_blocks as usize;
        channels.push(zero_component(w, h));
        channels.push(map_jpeg_component_coefficients(comp, sequential));
        channels.push(zero_component(w, h));
        return channels;
    }
    let mut c: usize = 0;
    while c < 3
        invariant
            c <= 3,
            jpeg.components@.len() == 3,
            forall|i: int|
                0 <= i < jpeg.components@.len() ==> (#[trigger] jpeg.components@[i]).wf(),
            jpeg_c_map@ == component_map(3, jpeg.component_type),
            channels@.len() == c,
            forall|k: int|
                0 <= k < c ==> is_component(
                    (#[trigger] channels@[k])@,
                    jpeg.components@[component_map(3, jpeg.component_type)[k] as int],
                ),
        decreases 3 - c,
    {
        let i: usize = jpeg_c_map[c];
        assert(jpeg_c_map@[c as int] == component_map(3, jpeg.component_type)[c as int]);
        assert(jpeg.components@[i as int].wf());
        channels.push(map_jpeg_component_coefficients(&jpeg.components[i], sequential));
        c = c + 1;
    }
    channels
}

proof fn lemma_one_row(a: BlockRow, b: BlockRow, coeffs: Seq<i16>, width: int, by: int)
    requires
        (is_row(a, coeffs, width, by) && is_row(b, coeffs, width, by)) || (is_zero_row(a, width)
            && is_zero_row(b, width)),
    ensures
        a@ == b@,
{
    assert forall|i: int| 0 <= i < width implies #[trigger] a@.ac[i] == b@.ac[i] && a@.nz[i]
        == b@.nz[i] && a@.dc[i] == b@.dc[i] by {
        assert(a.dc@[i] == b.dc@[i]);
    }
    assert forall|i: int| 0 <= i < width implies a.nz@[i] == b.nz@[i] by {
        assert(a@.ac[i] == b@.ac[i]);
    }
    assert(a@.dc =~= b@.dc);
    assert(a@.ac =~= b@.ac);
    assert(a@.nz =~= b@.nz);
}

proof fn lemma_one_component(a: Seq<BlockRow>, b: Seq<BlockRow>, comp: JpegComponent)
    requires
        (is_component(a, comp) && is_component(b, comp)) || (is_zero_component(
            a,
            comp.width_in_blocks as int,
            comp.height_in_blocks as int,
        ) && is_zero_component(b, comp.width_in_blocks as int, comp.height_in_blocks as int)),
    ensures
        row_views(a) == row_views(b),
{
    assert forall|by: int| 0 <= by < a.len() implies a[by]@ == b[by]@ by {
        lemma_one_row(a[by], b[by], comp.coeffs@, comp.width_in_blocks as int, by);
    }
    assert(row_views(a) =~= row_views(b));
}

/// A file has its blocks in one way.
pub proof fn lemma_one_mapping(a: Seq<Vec<BlockRow>>, b: Seq<Vec<BlockRow>>, jpeg: JpegData)
    requires
        is_mapped(a, jpeg),
        is_mapped(b, jpeg),
    ensures
        channel_views(a) == channel_views(b),
{
    let map = component_map(jpeg.components@.len() as int, jpeg.component_type);
    assert forall|c: int| 0 <= c < 3 implies row_views(a[c]@) == row_views(b[c]@) by {
        lemma_one_component(a[c]@, b[c]@, jpeg.components@[map[c] as int]);
    }
    assert(channel_views(a) =~= channel_views(b));
}

/// The coefficients of a block of the file can be told from the mapped block: nothing is lost.
pub proof fn lemma_coefficients_kept(rows: Seq<BlockRow>, comp: JpegComponent, bx: int, by: int, k: int)
    requires
        is_component(rows, comp),
        0 <= bx < comp.width_in_blocks,
        0 <= by < comp.height_in_blocks,
        0 <= k < 64,
    ensures
        ({
            let base = block_base(comp.width_in_blocks as int, bx, by);
            comp.coeffs@[base + k] == if k == 0 {
                rows[by].dc@[bx] as int
            } else {
                rows[by].ac@[bx]@[transposed(k)] as int
            }
        }),
{
    assert(is_row(rows[by], comp.coeffs@, comp.width_in_blocks as int, by));
    let base = block_base(comp.width_in_blocks as int, bx, by);
    assert(rows[by].dc@[bx] == comp.coeffs@[base]);
    lemma_transposed(k);
}

} // verus!
