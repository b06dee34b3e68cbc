use vstd::prelude::*;
use crate::color::{Rgb, residual_of, residual};
use crate::dither::{WorkingRaster, diffused};
use crate::error::MosaicError;
use crate::raster::{Image, rgb_of, triangle_fill, resize_to_fill, lemma_pixel_in_bounds};
use crate::tiles::{TileLibrary, TileModel, nearest_index, built, usable};

verus! {

/// Number of grid rows that keeps the source's aspect ratio for a grid
/// `output_width` cells wide: `output_width * height / width`, rounded to
/// the nearest integer, halves up.
pub open spec fn grid_rows(output_width: int, width: int, height: int) -> int {
    (2 * output_width * height + width) / (2 * width)
}

/// The grid height for an output `output_width` cells wide over a source
/// of `width` x `height` pixels.
pub fn grid_height(output_width: u32, width: u32, height: u32) -> (r: u64)
    requires
        width > 0,
    ensures
        r == grid_rows(output_width as int, width as int, height as int),
{
    assert(2 * (output_width as int) * (height as int) <= 2 * 0xffff_ffff * 0xffff_ffff) by (nonlinear_arith)
        requires
            output_width <= 0xffff_ffff,
            height <= 0xffff_ffff,
    ;
    let num: u128 = 2 * (output_width as u128) * (height as u128) + width as u128;
    let d: u128 = 2 * width as u128;
    let q: u128 = num / d;
    assert(q <= 0xffff_ffff_ffff_ffff) by (nonlinear_arith)
        requires
            num == 2 * (output_width as int) * (height as int) + width,
            d == 2 * width,
            q == num / d,
            width > 0,
            output_width <= 0xffff_ffff,
            height <= 0xffff_ffff,
    ;
    q as u64
}

/// The grid keeps the source's aspect ratio: the number of rows is within
/// half a row of `output_width * height / width`, so within one.
pub proof fn lemma_grid_keeps_aspect(output_width: int, width: int, height: int)
    requires
        width > 0,
        output_width >= 0,
        height >= 0,
    ensures
        2 * output_width * height - width < 2 * grid_rows(output_width, width, height) * width,
        2 * grid_rows(output_width, width, height) * width <= 2 * output_width * height + width,
{
    let n = 2 * output_width * height + width;
    let d = 2 * width;
    let g = grid_rows(output_width, width, height);
    assert(g == n / d);
    assert(d * g <= n < d * g + d) by (nonlinear_arith)
        requires
            d > 0,
            g == n / d,
    ;
    assert(2 * g * width == d * g) by (nonlinear_arith)
        requires
            d == 2 * width,
    ;
}

/// Byte `c` of pixel (x, y) of a row-major RGBA raster `w` pixels wide.
pub open spec fn byte_at(data: Seq<u8>, w: int, x: int, y: int, c: int) -> u8 {
    data[4 * (y * w + x) + c]
}

/// Two places in a mixed-radix numbering are equal only when both digits are.
proof fn lemma_mixed_radix_unique(a: int, b: int, a2: int, b2: int, w: int)
    requires
        0 <= b < w,
        0 <= b2 < w,
        0 <= a,
        0 <= a2,
        a * w + b == a2 * w + b2,
    ensures
        a == a2,
        b == b2,
{
    if a < a2 {
        assert(a * w + w <= a2 * w) by (nonlinear_arith)
            requires
                a < a2,
                0 <= w,
        ;
    } else if a > a2 {
        assert(a2 * w + w <= a * w) by (nonlinear_arith)
            requires
                a2 < a,
                0 <= w,
        ;
    }
}

fn copy_pixel(dst: &mut Vec<u8>, p: usize, src: &Vec<u8>, q: usize)
    requires
        4 * p + 4 <= old(dst)@.len(),
        4 * q + 4 <= src@.len(),
    ensures
        final(dst)@.len() == old(dst)@.len(),
        forall|j: int|
            0 <= j < old(dst)@.len() ==> #[trigger] final(dst)@[j] == if 4 * p <= j < 4 * p + 4 {
                src@[4 * q + j - 4 * p]
            } else {
                old(dst)@[j]
            },
{
    let n: usize = dst.len();
    let m: usize = src.len();
    dst.set(4 * p, src[4 * q]);
    dst.set(4 * p + 1, src[4 * q + 1]);
    dst.set(4 * p + 2, src[4 * q + 2]);
    dst.set(4 * p + 3, src[4 * q + 3]);
}

/// Whether pixel (x, y) lies in the `tw` x `th` region at (ox, oy) and
/// comes before row `ry`, column `rx` of it in scan order.
pub open spec fn copied(ox: int, oy: int, tw: int, th: int, x: int, y: int, ry: int, rx: int) -> bool {
    &&& ox <= x < ox + tw
    &&& oy <= y < oy + th
    &&& (y - oy < ry || (y - oy == ry && x - ox < rx))
}

/// Copies `tile` opaquely into `out` with its top-left corner at (ox, oy).
pub fn blit(out: &mut Image, tile: &Image, ox: u32, oy: u32)
    requires
        old(out).wf(),
        tile.wf(),
        ox + tile.width <= old(out).width,
        oy + tile.height <= old(out).height,
    ensures
        final(out).wf(),
        final(out).width == old(out).width,
        final(out).height == old(out).height,
        forall|x: int, y: int, c: int|
            0 <= x < old(out).width && 0 <= y < old(out).height && 0 <= c < 4
                ==> #[trigger] byte_at(final(out).data@, old(out).width as int, x, y, c) == if ox <= x < ox + tile.width
                && oy <= y < oy + tile.height {
                byte_at(tile.data@, tile.width as int, x - ox, y - oy, c)
            } else {
                byte_at(old(out).data@, old(out).width as int, x, y, c)
            },
{
    let ghost old_data = out.data@;
    let w: u32 = out.width;
    let h: u32 = out.height;
    let tw: u32 = tile.width;
    let th: u32 = tile.height;
    let mut ty: u32 = 0;
    while ty < th
        invariant
            out.wf(),
            tile.wf(),
            out.width == w,
            out.height == h,
            tw == tile.width,
            th == tile.height,
            ox + tw <= w,
            oy + th <= h,
            ty <= th,
            forall|x: int, y: int, c: int|
                0 <= x < w && 0 <= y < h && 0 <= c < 4 ==> #[trigger] byte_at(out.data@, w as int, x, y, c) == if copied(
                    ox as int,
                    oy as int,
                    tw as int,
                    th as int,
                    x,
                    y,
                    ty as int,
                    0,
                ) {
                    byte_at(tile.data@, tw as int, x - ox, y - oy, c)
                } else {
                    byte_at(old_data, w as int, x, y, c)
                },
        decreases th - ty,
    {
        let mut tx: u32 = 0;
        while tx < tw
            invariant
                out.wf(),
                tile.wf(),
                out.width == w,
                out.height == h,
                tw == tile.width,
                th == tile.height,
                ox + tw <= w,
                oy + th <= h,
                ty < th,
                tx <= tw,
                forall|x: int, y: int, c: int|
                    0 <= x < w && 0 <= y < h && 0 <= c < 4 ==> #[trigger] byte_at(out.data@, w as int, x, y, c)
                        == if copied(ox as int, oy as int, tw as int, th as int, x, y, ty as int, tx as int) {
                        byte_at(tile.data@, tw as int, x - ox, y - oy, c)
                    } else {
                        byte_at(old_data, w as int, x, y, c)
                    },
            decreases tw - tx,
        {
            let ghost before = out.data@;
            let total: usize = out.data.len();
            let tile_total: usize = tile.data.len();
            let px: u32 = ox + tx;
            let py: u32 = oy + ty;
            proof {
                crate::raster::lemma_pixel_in_bounds(px as int, py as int, w as int, h as int);
                crate::raster::lemma_pixel_in_bounds(tx as int, ty as int, tw as int, th as int);
            }
            let p: usize = py as usize * w as usize + px as usize;
            let q: usize = ty as usize * tw as usize + tx as usize;
            copy_pixel(&mut out.data, p, &tile.data, q);
            assert forall|x: int, y: int, c: int|
                0 <= x < w && 0 <= y < h && 0 <= c < 4 implies #[trigger] byte_at(out.data@, w as int, x, y, c)
                    == if copied(ox as int, oy as int, tw as int, th as int, x, y, ty as int, tx + 1) {
                    byte_at(tile.data@, tw as int, x - ox, y - oy, c)
                } else {
                    byte_at(old_data, w as int, x, y, c)
                } by {
                crate::raster::lemma_pixel_in_bounds(x, y, w as int, h as int);
                let j = 4 * (y * w + x) + c;
                assert(byte_at(before, w as int, x, y, c) == before[j]);
                if 4 * p <= j < 4 * p + 4 {
                    lemma_mixed_radix_unique(y, x, py as int, px as int, w as int);
                } else {
                    assert(x != px || y != py);
                }
            }
            tx = tx + 1;
        }
        ty = ty + 1;
    }
}

/// What drives the cell scan: the library's tiles, the resampled source
/// cells, the grid size and whether errors are diffused.
pub struct ScanPlan {
    pub tiles: Seq<TileModel>,
    pub cells: Seq<Rgb>,
    pub cols: int,
    pub rows: int,
    pub dither: bool,
}

/// The RGB part of the first `n` pixels of RGBA bytes.
pub open spec fn cells_of(data: Seq<u8>, n: int) -> Seq<Rgb> {
    Seq::new(n as nat, |i: int| rgb_of(data, i))
}

/// The working cells after cell `i` is processed: its residual against
/// its nearest key is diffused when dithering is on.
pub open spec fn scan_step(plan: ScanPlan, ws: Seq<Rgb>, i: int) -> Seq<Rgb> {
    if plan.dither {
        let q = ws[i];
        let k = plan.tiles[nearest_index(plan.tiles, q)].key;
        diffused(ws, plan.cols, plan.rows, i % plan.cols, i / plan.cols, residual_of(q, k))
    } else {
        ws
    }
}

/// The working cells once the first `i` cells, in row-major order, are processed.
pub open spec fn cells_after(plan: ScanPlan, i: nat) -> Seq<Rgb>
    decreases i,
{
    if i == 0 {
        plan.cells
    } else {
        scan_step(plan, cells_after(plan, (i - 1) as nat), i - 1)
    }
}

/// Index of the tile chosen for cell `i`: the nearest to the cell's color
/// as earlier cells left it.
pub open spec fn choice(plan: ScanPlan, i: int) -> int {
    nearest_index(plan.tiles, cells_after(plan, i as nat)[i])
}

/// Byte `c` of pixel (tx, ty) of cell (cx, cy) of the output once the
/// first `done` cells are placed: the chosen tile's byte where the tile
/// covers it, else zero.
pub open spec fn placed_byte(plan: ScanPlan, done: int, cx: int, cy: int, tx: int, ty: int, c: int) -> u8 {
    let i = cy * plan.cols + cx;
    if i < done {
        let t = plan.tiles[choice(plan, i)];
        if tx < t.width && ty < t.height {
            byte_at(t.data, t.width as int, tx, ty, c)
        } else {
            0
        }
    } else {
        0
    }
}

/// Byte `c` of pixel (tx, ty) of cell (cx, cy) in a raster of `ts`-pixel cells.
pub open spec fn cell_byte(data: Seq<u8>, w: int, ts: int, cx: int, cy: int, tx: int, ty: int, c: int) -> u8 {
    byte_at(data, w, cx * ts + tx, cy * ts + ty, c)
}

/// The error, if any, that compositing reports, checked in this order:
/// no tile at all; a zero size, an empty grid or an output that does not
/// fit; a tile larger than a cell.
pub open spec fn compose_error(
    width: u32,
    height: u32,
    tiles: Seq<TileModel>,
    output_width: u32,
    tile_size: u32,
) -> Option<MosaicError> {
    if tiles.len() == 0 {
        Some(MosaicError::NoCandidateTiles)
    } else if width == 0 || height == 0 || output_width == 0 || tile_size == 0 {
        Some(MosaicError::InvalidDimensions)
    } else if grid_rows(output_width as int, width as int, height as int) == 0
        || output_width * tile_size > u32::MAX
        || grid_rows(output_width as int, width as int, height as int) * tile_size > u32::MAX
        || output_width * tile_size * grid_rows(output_width as int, width as int, height as int) * tile_size * 4 > usize::MAX {
        Some(MosaicError::InvalidDimensions)
    } else if exists|j: int| 0 <= j < tiles.len() && (tiles[j].width > tile_size || tiles[j].height > tile_size) {
        Some(MosaicError::TileTooLarge)
    } else {
        None
    }
}

/// The scan plan of a composition that passed its checks.
pub open spec fn plan_of(source: Image, tiles: Seq<TileModel>, output_width: u32, tile_size: u32, dither: bool) -> ScanPlan {
    let rows = grid_rows(output_width as int, source.width as int, source.height as int);
    ScanPlan {
        tiles,
        cells: cells_of(
            triangle_fill(source.width, source.height, source.data@, output_width, rows as u32),
            output_width * rows,
        ),
        cols: output_width as int,
        rows,
        dither,
    }
}

/// A finished mosaic and the keys of the tiles it used.
pub struct Mosaic {
    pub image: Image,
    pub used: Vec<Rgb>,
}

fn cells_from(img: &Image) -> (ws: WorkingRaster)
    requires
        img.wf(),
    ensures
        ws.wf(),
        ws.width == img.width,
        ws.height == img.height,
        ws.pixels@ == cells_of(img.data@, img.width * img.height),
{
    let len: usize = img.data.len();
    let n: usize = img.width as usize * img.height as usize;
    let mut pixels: Vec<Rgb> = Vec::new();
    let mut i: usize = 0;
    while i < n
        invariant
            img.wf(),
            len == img.data@.len(),
            n == img.width * img.height,
            i <= n,
            pixels@ =~= cells_of(img.data@, i as int),
        decreases n - i,
    {
        pixels.push(Rgb { r: img.data[4 * i], g: img.data[4 * i + 1], b: img.data[4 * i + 2] });
        i = i + 1;
    }
    WorkingRaster { width: img.width as usize, height: img.height as usize, pixels }
}

fn tiles_fit(library: &TileLibrary, tile_size: u32) -> (b: bool)
    ensures
        b == forall|l: int|
            0 <= l < library.model().len() ==> library.model()[l].width <= tile_size
                && library.model()[l].height <= tile_size,
{
    let ghost m = library.model();
    let n: usize = library.entries.len();
    let mut j: usize = 0;
    while j < n
        invariant
            n == m.len(),
            m == library.model(),
            j <= n,
            forall|l: int| 0 <= l < j ==> m[l].width <= tile_size && m[l].height <= tile_size,
        decreases n - j,
    {
        if library.entries[j].image.width > tile_size || library.entries[j].image.height > tile_size {
            assert(m[j as int].width > tile_size || m[j as int].height > tile_size);
            return false;
        }
        j = j + 1;
    }
    true
}

proof fn lemma_cell_pixel_bounds(cx: int, cy: int, tx: int, ty: int, gw: int, rows: int, ts: int)
    requires
        0 <= cx < gw,
        0 <= cy < rows,
        0 <= tx < ts,
        0 <= ty < ts,
    ensures
        0 <= cx * ts + tx < gw * ts,
        0 <= cy * ts + ty < rows * ts,
{
    assert(cx * ts + ts <= gw * ts) by (nonlinear_arith)
        requires
            0 <= cx < gw,
            0 <= ts,
    ;
    assert(cy * ts + ts <= rows * ts) by (nonlinear_arith)
        requires
            0 <= cy < rows,
            0 <= ts,
    ;
    assert(0 <= cx * ts && 0 <= cy * ts) by (nonlinear_arith)
        requires
            0 <= cx,
            0 <= cy,
            0 <= ts,
    ;
}

proof fn lemma_in_cell(c: int, t: int, x: int, ts: int, tw: int)
    requires
        0 <= t < ts,
        0 <= tw <= ts,
        0 <= c,
        0 <= x,
    ensures
        (x * ts <= c * ts + t < x * ts + tw) <==> (c == x && t < tw),
{
    if c < x {
        assert(c * ts + ts <= x * ts) by (nonlinear_arith)
            requires
                c < x,
                0 <= ts,
        ;
    } else if c > x {
        assert(x * ts + ts <= c * ts) by (nonlinear_arith)
            requires
                x < c,
                0 <= ts,
        ;
    }
}

/// Builds the mosaic of `source`: resamples it to a grid `output_width`
/// cells wide that keeps its aspect ratio, matches each cell in row-major
/// order to the nearest tile key (diffusing the residual forward when
/// `dithering` is on), and copies each chosen tile into its
/// `tile_size` x `tile_size` cell of a transparent black output.
#[verifier::rlimit(50)]
pub fn compose(
    source: &Image,
    library: &TileLibrary,
    output_width: u32,
    tile_size: u32,
    dithering: bool,
) -> (r: Result<Mosaic, MosaicError>)
    requires
        source.wf(),
        library.wf(),
    ensures
        match r {
            Err(e) => compose_error(source.width, source.height, library.model(), output_width, tile_size) == Some(e),
            Ok(mo) => {
                let plan = plan_of(*source, library.model(), output_width, tile_size, dithering);
                let w = output_width * tile_size;
                &&& compose_error(source.width, source.height, library.model(), output_width, tile_size) is None
                &&& mo.image.wf()
                &&& mo.image.width == w
                &&& mo.image.height == plan.rows * tile_size
                &&& forall|cx: int, cy: int, tx: int, ty: int, c: int|
                    0 <= cx < plan.cols && 0 <= cy < plan.rows && 0 <= tx < tile_size && 0 <= ty < tile_size
                        && 0 <= c < 4 ==> #[trigger] cell_byte(mo.image.data@, w, tile_size as int, cx, cy, tx, ty, c)
                        == placed_byte(plan, plan.cols * plan.rows, cx, cy, tx, ty, c)
                &&& forall|k: Rgb|
                    mo.used@.contains(k) <==> exists|i: int|
                        0 <= i < plan.cols * plan.rows && #[trigger] plan.tiles[choice(plan, i)].key == k
            },
        },
{
    let ghost m = library.model();
    if library.is_empty() {
        return Err(MosaicError::NoCandidateTiles);
    }
    if source.width == 0 || source.height == 0 || output_width == 0 || tile_size == 0 {
        return Err(MosaicError::InvalidDimensions);
    }
    let gh: u64 = grid_height(output_width, source.width, source.height);
    assert(output_width * tile_size <= 0xffff_ffff * 0xffff_ffff) by (nonlinear_arith)
        requires
            output_width <= 0xffff_ffff,
            tile_size <= 0xffff_ffff,
    ;
    assert(gh * tile_size <= 0xffff_ffff_ffff_ffff * 0xffff_ffff) by (nonlinear_arith)
        requires
            gh <= 0xffff_ffff_ffff_ffff,
            tile_size <= 0xffff_ffff,
    ;
    let out_w: u128 = output_width as u128 * tile_size as u128;
    let out_h: u128 = gh as u128 * tile_size as u128;
    if gh == 0 || out_w > u32::MAX as u128 || out_h > u32::MAX as u128 {
        return Err(MosaicError::InvalidDimensions);
    }
    assert(out_w * out_h * 4 <= 0xffff_ffff * 0xffff_ffff * 4) by (nonlinear_arith)
        requires
            out_w <= 0xffff_ffff,
            out_h <= 0xffff_ffff,
    ;
    assert(out_w * out_h * 4 == output_width * tile_size * gh * tile_size * 4) by (nonlinear_arith)
        requires
            out_w == output_width * tile_size,
            out_h == gh * tile_size,
    ;
    assert(gh <= out_h) by (nonlinear_arith)
        requires
            out_h == gh * tile_size,
            tile_size >= 1,
    ;
    let total: u128 = out_w * out_h * 4;
    if total > usize::MAX as u128 {
        return Err(MosaicError::InvalidDimensions);
    }
    let n: usize = library.entries.len();
    if !tiles_fit(library, tile_size) {
        return Err(MosaicError::TileTooLarge);
    }
    let gw: u32 = output_width;
    let rows: u32 = gh as u32;
    let ts: u32 = tile_size;
    let big_w: u32 = out_w as u32;
    let big_h: u32 = out_h as u32;
    let resized = resize_to_fill(source, gw, rows);
    let mut ws = cells_from(&resized);
    let ghost plan = plan_of(*source, m, output_width, tile_size, dithering);
    assert(ws.pixels@ == plan.cells);
    let mut out = Image::blank(big_w, big_h);
    assert forall|cx: int, cy: int, tx: int, ty: int, c: int|
        0 <= cx < gw && 0 <= cy < rows && 0 <= tx < ts && 0 <= ty < ts && 0 <= c < 4
            implies #[trigger] cell_byte(out.data@, big_w as int, ts as int, cx, cy, tx, ty, c)
            == placed_byte(plan, 0, cx, cy, tx, ty, c) by {
        lemma_cell_pixel_bounds(cx, cy, tx, ty, gw as int, rows as int, ts as int);
        lemma_pixel_in_bounds(cx * ts + tx, cy * ts + ty, big_w as int, big_h as int);
    }
    let mut flags: Vec<bool> = vec![false; n];
    let mut y: u32 = 0;
    while y < rows
        invariant
            library.wf(),
            m == library.model(),
            n == m.len(),
            n > 0,
            forall|l: int| 0 <= l < n ==> m[l].width <= ts && m[l].height <= ts,
            plan == plan_of(*source, m, output_width, tile_size, dithering),
            plan.cols == gw,
            plan.rows == rows,
            plan.dither == dithering,
            plan.tiles == m,
            gw > 0,
            ts > 0,
            ts == tile_size,
            big_w == gw * ts,
            big_h == rows * ts,
            y <= rows,
            ws.wf(),
            ws.width == gw,
            ws.height == rows,
            ws.pixels@ == cells_after(plan, (y * gw) as nat),
            out.wf(),
            out.width == big_w,
            out.height == big_h,
            forall|cx: int, cy: int, tx: int, ty: int, c: int|
                0 <= cx < gw && 0 <= cy < rows && 0 <= tx < ts && 0 <= ty < ts && 0 <= c < 4
                    ==> #[trigger] cell_byte(out.data@, big_w as int, ts as int, cx, cy, tx, ty, c)
                    == placed_byte(plan, y * gw, cx, cy, tx, ty, c),
            flags@.len() == n,
            forall|l: int| 0 <= l < n ==> (#[trigger] flags@[l] <==> exists|i: int| 0 <= i < y * gw && choice(plan, i) == l),
        decreases rows - y,
    {
        let mut x: u32 = 0;
        while x < gw
            invariant
                library.wf(),
                m == library.model(),
                n == m.len(),
                n > 0,
                forall|l: int| 0 <= l < n ==> m[l].width <= ts && m[l].height <= ts,
                plan.cols == gw,
                plan.rows == rows,
                plan.dither == dithering,
                plan.tiles == m,
                gw > 0,
                ts > 0,
                big_w == gw * ts,
                big_h == rows * ts,
                y < rows,
                x <= gw,
                ws.wf(),
                ws.width == gw,
                ws.height == rows,
                ws.pixels@ == cells_after(plan, (y * gw + x) as nat),
                out.wf(),
                out.width == big_w,
                out.height == big_h,
                forall|cx: int, cy: int, tx: int, ty: int, c: int|
                    0 <= cx < gw && 0 <= cy < rows && 0 <= tx < ts && 0 <= ty < ts && 0 <= c < 4
                        ==> #[trigger] cell_byte(out.data@, big_w as int, ts as int, cx, cy, tx, ty, c)
                        == placed_byte(plan, y * gw + x, cx, cy, tx, ty, c),
                flags@.len() == n,
                forall|l: int|
                    0 <= l < n ==> (#[trigger] flags@[l] <==> exists|i: int| 0 <= i < y * gw + x && choice(plan, i) == l),
            decreases gw - x,
        {
            let ghost i: int = y * gw + x;
            proof {
                lemma_pixel_in_bounds(x as int, y as int, gw as int, rows as int);
                vstd::arithmetic::div_mod::lemma_fundamental_div_mod_converse(i, gw as int, y as int, x as int);
            }
            let cells_len: usize = ws.pixels.len();
            let idx: usize = y as usize * gw as usize + x as usize;
            let q: Rgb = ws.pixels[idx];
            let t: usize = match library.nearest_position(&q) {
                Ok(t) => t,
                Err(e) => {
                    return Err(e);
                },
            };
            assert(t as int == choice(plan, i));
            let key: Rgb = library.entries[t].key;
            if dithering {
                let e = residual(&q, &key);
                ws.diffuse(x as usize, y as usize, &e);
            }
            assert(ws.pixels@ == cells_after(plan, (i + 1) as nat));
            let tile: &Image = &library.entries[t].image;
            assert(tile.wf());
            proof {
                assert(tile.width <= ts && tile.height <= ts) by {
                    assert(m[t as int].width == tile.width);
                }
                assert(x * ts + ts <= gw * ts) by (nonlinear_arith)
                    requires
                        x < gw,
                ;
                assert(y * ts + ts <= rows * ts) by (nonlinear_arith)
                    requires
                        y < rows,
                ;
            }
            let ghost before = out.data@;
            blit(&mut out, tile, x * ts, y * ts);
            assert forall|cx: int, cy: int, tx: int, ty: int, c: int|
                0 <= cx < gw && 0 <= cy < rows && 0 <= tx < ts && 0 <= ty < ts && 0 <= c < 4
                    implies #[trigger] cell_byte(out.data@, big_w as int, ts as int, cx, cy, tx, ty, c)
                    == placed_byte(plan, i + 1, cx, cy, tx, ty, c) by {
                let px = cx * ts + tx;
                let py = cy * ts + ty;
                assert(cell_byte(before, big_w as int, ts as int, cx, cy, tx, ty, c) == placed_byte(plan, i, cx, cy, tx, ty, c));
                lemma_cell_pixel_bounds(cx, cy, tx, ty, gw as int, rows as int, ts as int);
                assert(byte_at(out.data@, big_w as int, px, py, c) == cell_byte(out.data@, big_w as int, ts as int, cx, cy, tx, ty, c));
                lemma_in_cell(cx, tx, x as int, ts as int, tile.width as int);
                lemma_in_cell(cy, ty, y as int, ts as int, tile.height as int);
                if cy * gw + cx == i {
                    lemma_mixed_radix_unique(cy, cx, y as int, x as int, gw as int);
                } else {
                    assert(cx != x || cy != y);
                }
            }
            flags.set(t, true);
            assert forall|l: int| 0 <= l < n implies (#[trigger] flags@[l] <==> exists|i2: int|
                0 <= i2 < i + 1 && choice(plan, i2) == l) by {
                if l == t {
                    assert(choice(plan, i) == l);
                }
            }
            x = x + 1;
        }
        assert(y * gw + gw == (y + 1) * gw) by (nonlinear_arith);
        y = y + 1;
    }
    let mut used: Vec<Rgb> = Vec::new();
    let mut l: usize = 0;
    while l < n
        invariant
            library.wf(),
            m == library.model(),
            n == m.len(),
            flags@.len() == n,
            l <= n,
            forall|k: Rgb| used@.contains(k) <==> exists|j2: int| 0 <= j2 < l && flags@[j2] && #[trigger] m[j2].key == k,
        decreases n - l,
    {
        let ghost prev = used@;
        let key: Rgb = library.entries[l].key;
        assert(key == m[l as int].key);
        if flags[l] {
            used.push(key);
        }
        proof {
            assert forall|k: Rgb| used@.contains(k) <==> exists|j2: int| 0 <= j2 < l + 1 && flags@[j2] && #[trigger] m[j2].key == k by {
                if flags@[l as int] {
                    assert(used@ == prev.push(key));
                    if used@.contains(k) && k != key {
                        let p = choose|p: int| 0 <= p < used@.len() && used@[p] == k;
                        assert(prev[p] == k);
                    }
                    if prev.contains(k) {
                        let p = choose|p: int| 0 <= p < prev.len() && prev[p] == k;
                        assert(used@[p] == k);
                    }
                    if k == key {
                        assert(used@[prev.len() as int] == k);
                    }
                } else {
                    assert(used@ == prev);
                }
            }
        }
        l = l + 1;
    }
    assert forall|k: Rgb| used@.contains(k) <==> exists|i: int|
        0 <= i < plan.cols * plan.rows && #[trigger] plan.tiles[choice(plan, i)].key == k by {
        assert(rows * gw == gw * rows) by (nonlinear_arith);
        if used@.contains(k) {
            let j2 = choose|j2: int| 0 <= j2 < n && flags@[j2] && #[trigger] m[j2].key == k;
            assert(flags@[j2]);
        }
        if exists|i: int| 0 <= i < plan.cols * plan.rows && #[trigger] plan.tiles[choice(plan, i)].key == k {
            let i = choose|i: int| 0 <= i < plan.cols * plan.rows && #[trigger] plan.tiles[choice(plan, i)].key == k;
            crate::tiles::lemma_nearest_is_argmin(m, cells_after(plan, i as nat)[i]);
            let i = choose|i: int| 0 <= i < plan.cols * plan.rows && #[trigger] plan.tiles[choice(plan, i)].key == k;
            let j2 = choice(plan, i);
            assert(flags@[j2]);
        }
    }
    Ok(Mosaic { image: out, used })
}

/// A library built from a directory with no decodable tile (none at all,
/// in particular) makes compositing fail with `NoCandidateTiles`, whatever
/// the source and sizes.
pub proof fn lemma_no_tiles_no_mosaic(
    images: Seq<Image>,
    ts: u32,
    width: u32,
    height: u32,
    output_width: u32,
    tile_size: u32,
)
    requires
        forall|i: int| 0 <= i < images.len() ==> !usable(#[trigger] images[i]),
    ensures
        built(images, ts).len() == 0,
        compose_error(width, height, built(images, ts), output_width, tile_size) == Some(MosaicError::NoCandidateTiles),
    decreases images.len(),
{
    if images.len() > 0 {
        let prev = images.drop_last();
        assert forall|i: int| 0 <= i < prev.len() implies !usable(#[trigger] prev[i]) by {
            assert(prev[i] == images[i]);
        }
        lemma_no_tiles_no_mosaic(prev, ts, width, height, output_width, tile_size);
        assert(!usable(images[images.len() - 1]));
    }
}

} // verus!
