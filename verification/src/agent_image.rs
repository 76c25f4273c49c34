//! The image an agent may ask for: the board's `j` layers side by side, one
//! 14×14 px tile per lattice position with a darker one-pixel rim, returned as
//! a base64-encoded PNG.
//!
//! The raster is computed and proved here; PNG encoding (`image`) and base64
//! (`base64`) are the outside crates' work.
use base64::Engine;
use vstd::prelude::*;

use crate::board_view::{grid_pos, AgentViewOpts, BoardView, CellEntry, MeshInfo, TempDeadEntry};

verus! {

/// Tile edge, px.
pub const CELL_PX: u32 = 14;

/// Gap between layers, px.
pub const GAP_PX: u32 = 3;

/// An RGB colour.
pub type Rgb = (u8, u8, u8);

/// The PNG file the `image` crate writes for an 8-bit RGB raster of `w × h`
/// pixels (`rgb` row-major, three bytes a pixel), or `None` when it reports an
/// error.
pub uninterp spec fn png_rgb8(w: u32, h: u32, rgb: Seq<u8>) -> Option<Seq<u8>>;

/// The standard-alphabet, padded base64 text of `bytes`.
pub uninterp spec fn base64_standard(bytes: Seq<u8>) -> Seq<char>;

/// The view of an optional byte vector.
pub open spec fn bytes_view(o: Option<Vec<u8>>) -> Option<Seq<u8>> {
    match o {
        Some(v) => Some(v@),
        None => None,
    }
}

/// Calls `image::RgbImage::from_raw` on the raster and `DynamicImage::write_to`
/// with `ImageFormat::Png` into an in-memory cursor. The PNG encoder asserts
/// that the buffer holds exactly `3·w·h` bytes, so the raster must have that
/// length. The bytes written, or the error, are a function of `w`, `h` and the
/// raster.
#[verifier::external_body]
fn encode_png(w: u32, h: u32, rgb: Vec<u8>) -> (r: Option<Vec<u8>>)
    requires
        rgb@.len() == 3 * w * h,
    ensures
        bytes_view(r) == png_rgb8(w, h, rgb@),
{
    let img = image::RgbImage::from_raw(w, h, rgb)?;
    let mut buf: Vec<u8> = Vec::new();
    let out = image::DynamicImage::ImageRgb8(img)
        .write_to(&mut std::io::Cursor::new(&mut buf), image::ImageFormat::Png);
    match out {
        Ok(()) => Some(buf),
        Err(_) => None,
    }
}

/// Calls `base64::engine::general_purpose::STANDARD.encode`, whose text is a
/// function of `bytes` alone.
#[verifier::external_body]
fn encode_base64(bytes: &[u8]) -> (s: String)
    ensures
        s@ == base64_standard(bytes@),
{
    base64::engine::general_purpose::STANDARD.encode(bytes)
}

/// Colour of an empty position.
pub open spec fn empty_rgb() -> Rgb {
    (28, 28, 30)
}

/// Colour of a perma-dead cell.
pub open spec fn perma_rgb() -> Rgb {
    (30, 55, 30)
}

/// Colour of a smouldering cell.
pub open spec fn temp_rgb() -> Rgb {
    (60, 22, 10)
}

/// Colour of the gaps between layers.
pub open spec fn background_rgb() -> Rgb {
    (10, 10, 12)
}

/// The pigment of the steward in `slot`.
pub open spec fn steward_rgb(slot: u8) -> Rgb {
    if slot == 0 {
        (217, 119, 87)
    } else if slot == 1 {
        (106, 155, 204)
    } else if slot == 2 {
        (120, 140, 93)
    } else {
        (232, 230, 220)
    }
}

/// One channel raised by 30 %, capped at 255.
pub open spec fn brighten(c: u8) -> u8 {
    if c * 130 / 100 > 255 {
        255
    } else {
        (c * 130 / 100) as u8
    }
}

/// Some mesh with id `id` is in atari.
pub open spec fn mesh_in_atari(meshes: Seq<MeshInfo>, id: usize) -> bool {
    exists|q: int| 0 <= q < meshes.len() && #[trigger] meshes[q].id == id && meshes[q].in_atari
}

/// The colour of a live cell entry: its pigment, brightened in an atari mesh.
pub open spec fn live_rgb(e: CellEntry, meshes: Seq<MeshInfo>) -> Rgb {
    let b = steward_rgb(e.slot_id);
    if mesh_in_atari(meshes, e.mesh_id) {
        (brighten(b.0), brighten(b.1), brighten(b.2))
    } else {
        b
    }
}

/// `g` with the first `t` perma-dead entries coloured.
pub open spec fn colour_perma(g: Seq<Rgb>, n: int, list: Seq<[u8; 3]>, t: int) -> Seq<Rgb>
    decreases t,
{
    if t <= 0 {
        g
    } else {
        let e = list[t - 1]@;
        colour_perma(g, n, list, t - 1).update(grid_pos(n, e[0] as int, e[1] as int, e[2] as int), perma_rgb())
    }
}

/// `g` with the first `t` smouldering entries coloured.
pub open spec fn colour_temp(g: Seq<Rgb>, n: int, list: Seq<TempDeadEntry>, t: int) -> Seq<Rgb>
    decreases t,
{
    if t <= 0 {
        g
    } else {
        let e = list[t - 1];
        colour_temp(g, n, list, t - 1).update(grid_pos(n, e.i as int, e.j as int, e.k as int), temp_rgb())
    }
}

/// `g` with the first `t` live entries coloured.
pub open spec fn colour_live(g: Seq<Rgb>, n: int, list: Seq<CellEntry>, meshes: Seq<MeshInfo>, t: int) -> Seq<
    Rgb,
>
    decreases t,
{
    if t <= 0 {
        g
    } else {
        let e = list[t - 1];
        colour_live(g, n, list, meshes, t - 1).update(
            grid_pos(n, e.i as int, e.j as int, e.k as int),
            live_rgb(e, meshes),
        )
    }
}

/// The colour of every lattice position, indexed `i + n·(j + n·k)`.
pub open spec fn position_colours(v: BoardView) -> Seq<Rgb> {
    let n = v.board_n as int;
    let blank = Seq::new((n * n * n) as nat, |p: int| empty_rgb());
    let a = colour_perma(blank, n, v.perma_dead@, v.perma_dead@.len() as int);
    let b = colour_temp(a, n, v.temp_dead@, v.temp_dead@.len() as int);
    colour_live(b, n, v.cells@, v.meshes@, v.cells@.len() as int)
}

/// The number of layers drawn: one when a layer is chosen, else all `n`.
pub open spec fn layer_count(v: BoardView, o: AgentViewOpts) -> int {
    if o.layer_j is Some {
        1
    } else {
        v.board_n as int
    }
}

/// The `j` of the layer drawn in column `col`.
pub open spec fn layer_of(o: AgentViewOpts, col: int) -> int {
    match o.layer_j {
        Some(j) => j as int,
        None => col,
    }
}

/// Image width: the layers' tiles plus a gap between neighbouring layers.
pub open spec fn image_width(v: BoardView, o: AgentViewOpts) -> int {
    let n = v.board_n as int;
    layer_count(v, o) * n * 14 + (layer_count(v, o) - 1) * 3
}

/// Image height: one tile per `k`.
pub open spec fn image_height(v: BoardView) -> int {
    v.board_n as int * 14
}

/// The colour of pixel `(x, y)`: a tile's rim at a third of its colour, the
/// tile's inside at its colour, and the gaps between layers in the background
/// colour.
pub open spec fn pixel_rgb(v: BoardView, o: AgentViewOpts, colours: Seq<Rgb>, x: int, y: int) -> Rgb {
    let n = v.board_n as int;
    let stride = n * 14 + 3;
    let col = x / stride;
    let xx = x % stride;
    if xx >= n * 14 {
        background_rgb()
    } else {
        let i = xx / 14;
        let dx = xx % 14;
        let k = y / 14;
        let dy = y % 14;
        let c = colours[grid_pos(n, i, layer_of(o, col), k)];
        if dx == 0 || dy == 0 || dx == 13 || dy == 13 {
            ((c.0 / 3) as u8, (c.1 / 3) as u8, (c.2 / 3) as u8)
        } else {
            c
        }
    }
}

/// The pixels of the image, row-major.
pub open spec fn image_pixels(v: BoardView, o: AgentViewOpts) -> Seq<Rgb> {
    let w = image_width(v, o);
    let colours = position_colours(v);
    Seq::new((w * image_height(v)) as nat, |p: int| pixel_rgb(v, o, colours, p % w, p / w))
}

/// Pixels as bytes, three a pixel.
pub open spec fn flatten(px: Seq<Rgb>) -> Seq<u8>
    decreases px.len(),
{
    if px.len() == 0 {
        seq![]
    } else {
        flatten(px.drop_last()) + seq![px.last().0, px.last().1, px.last().2]
    }
}

/// The raster handed to the PNG encoder.
pub open spec fn image_raster(v: BoardView, o: AgentViewOpts) -> Seq<u8> {
    flatten(image_pixels(v, o))
}

/// The snapshot and options can be drawn: at least one layer; a chosen layer
/// inside the edge; every entry inside the grid; every live entry of a real
/// slot; and a raster whose size fits in memory.
pub open spec fn drawable(v: BoardView, o: AgentViewOpts) -> bool {
    let n = v.board_n as int;
    &&& layer_count(v, o) >= 1
    &&& (o.layer_j matches Some(j) ==> (n == 0 || j < n))
    &&& crate::board_view::positions_in_grid(v)
    &&& forall|q: int| 0 <= q < v.cells@.len() ==> (#[trigger] v.cells@[q]).slot_id < 4
    &&& 3 * image_width(v, o) * image_height(v) <= usize::MAX
}

/// A flattened sequence has three bytes a pixel.
proof fn lemma_flatten_len(px: Seq<Rgb>)
    ensures
        flatten(px).len() == 3 * px.len(),
    decreases px.len(),
{
    if px.len() > 0 {
        lemma_flatten_len(px.drop_last());
    }
}

/// The colours of the lattice positions.
fn colours_of(view: &BoardView) -> (c: Vec<Rgb>)
    requires
        crate::board_view::positions_in_grid(*view),
    ensures
        c@ == position_colours(*view),
        c@.len() == view.board_n * view.board_n * view.board_n,
{
    let n = view.board_n as usize;
    let ghost ni = n as int;
    assert(n * n <= 65025 && n * n * n <= 16581375) by (nonlinear_arith)
        requires
            n <= 255,
    ;
    let total = n * n * n;
    let mut c: Vec<Rgb> = Vec::new();
    let mut p: usize = 0;
    while p < total
        invariant
            p <= total,
            c@ =~= Seq::new(p as nat, |x: int| empty_rgb()),
        decreases total - p,
    {
        c.push((28, 28, 30));
        p += 1;
    }
    let mut q: usize = 0;
    while q < view.perma_dead.len()
        invariant
            crate::board_view::positions_in_grid(*view),
            n == view.board_n,
            ni == n as int,
            total == n * n * n,
            total <= 16581375,
            q <= view.perma_dead@.len(),
            c@ == colour_perma(Seq::new(total as nat, |x: int| empty_rgb()), ni, view.perma_dead@, q as int),
            c@.len() == total,
        decreases view.perma_dead@.len() - q,
    {
        let e = view.perma_dead[q];
        assert(n * e[2] as usize <= 65025 && n * (e[1] as usize + n * e[2] as usize) <= 16646400) by (
        nonlinear_arith)
            requires
                n <= 255,
        ;
        let pos = e[0] as usize + n * (e[1] as usize + n * e[2] as usize);
        c.set(pos, (30, 55, 30));
        q += 1;
    }
    let ghost after_perma = c@;
    let mut q: usize = 0;
    while q < view.temp_dead.len()
        invariant
            crate::board_view::positions_in_grid(*view),
            n == view.board_n,
            ni == n as int,
            total == n * n * n,
            total <= 16581375,
            q <= view.temp_dead@.len(),
            c@ == colour_temp(after_perma, ni, view.temp_dead@, q as int),
            c@.len() == total,
        decreases view.temp_dead@.len() - q,
    {
        let e = &view.temp_dead[q];
        assert(n * e.k as usize <= 65025 && n * (e.j as usize + n * e.k as usize) <= 16646400) by (
        nonlinear_arith)
            requires
                n <= 255,
        ;
        let pos = e.i as usize + n * (e.j as usize + n * e.k as usize);
        c.set(pos, (60, 22, 10));
        q += 1;
    }
    let ghost after_temp = c@;
    let mut q: usize = 0;
    while q < view.cells.len()
        invariant
            crate::board_view::positions_in_grid(*view),
            n == view.board_n,
            ni == n as int,
            total == n * n * n,
            total <= 16581375,
            q <= view.cells@.len(),
            c@ == colour_live(after_temp, ni, view.cells@, view.meshes@, q as int),
            c@.len() == total,
        decreases view.cells@.len() - q,
    {
        let e = &view.cells[q];
        assert(n * e.k as usize <= 65025 && n * (e.j as usize + n * e.k as usize) <= 16646400) by (
        nonlinear_arith)
            requires
                n <= 255,
        ;
        let pos = e.i as usize + n * (e.j as usize + n * e.k as usize);
        let rgb = live_colour(e, &view.meshes);
        c.set(pos, rgb);
        q += 1;
    }
    c
}

/// The colour of a live entry.
fn live_colour(e: &CellEntry, meshes: &Vec<MeshInfo>) -> (r: Rgb)
    ensures
        r == live_rgb(*e, meshes@),
{
    let b: Rgb = if e.slot_id == 0 {
        (217, 119, 87)
    } else if e.slot_id == 1 {
        (106, 155, 204)
    } else if e.slot_id == 2 {
        (120, 140, 93)
    } else {
        (232, 230, 220)
    };
    let mut atari = false;
    let mut q: usize = 0;
    while q < meshes.len()
        invariant
            q <= meshes@.len(),
            atari <==> exists|x: int| 0 <= x < q && #[trigger] meshes@[x].id == e.mesh_id && meshes@[x].in_atari,
        decreases meshes@.len() - q,
    {
        if meshes[q].id == e.mesh_id && meshes[q].in_atari {
            atari = true;
        }
        q += 1;
    }
    if atari {
        (brighten_channel(b.0), brighten_channel(b.1), brighten_channel(b.2))
    } else {
        b
    }
}

/// One channel raised by 30 %, capped at 255.
fn brighten_channel(c: u8) -> (r: u8)
    ensures
        r == brighten(c),
{
    let v: u16 = c as u16 * 130 / 100;
    if v > 255 {
        255
    } else {
        v as u8
    }
}

/// The raster of the snapshot: `3·w·h` bytes, row-major, and its size.
pub fn grid_raster(view: &BoardView, opts: &AgentViewOpts) -> (r: (u32, u32, Vec<u8>))
    requires
        drawable(*view, *opts),
    ensures
        r.0 == image_width(*view, *opts),
        r.1 == image_height(*view),
        r.2@ == image_raster(*view, *opts),
{
    let n = view.board_n as u32;
    let layers: u32 = match opts.layer_j {
        Some(_) => 1,
        None => n,
    };
    assert(layers * n * 14 <= 910350 && layers * n <= 65025) by (nonlinear_arith)
        requires
            layers <= 255,
            n <= 255,
    ;
    let w: u32 = layers * n * CELL_PX + (layers - 1) * GAP_PX;
    let h: u32 = n * CELL_PX;
    let colours = colours_of(view);
    let ghost wi = w as int;
    let ghost hi = h as int;
    let ghost cols = position_colours(*view);
    let wu = w as usize;
    let hu = h as usize;
    assert(3 * (wu * hu) <= usize::MAX) by (nonlinear_arith)
        requires
            3 * wi * hi <= usize::MAX,
            wu == wi,
            hu == hi,
    ;
    let count = wu * hu;
    let stride = n as usize * 14 + 3;
    let nu = n as usize;
    let mut buf: Vec<u8> = Vec::new();
    let mut p: usize = 0;
    while p < count
        invariant
            drawable(*view, *opts),
            colours@ == cols,
            cols == position_colours(*view),
            cols.len() == nu * nu * nu,
            nu == view.board_n,
            nu <= 255,
            stride == nu * 14 + 3,
            wu == wi,
            hu == hi,
            wi == image_width(*view, *opts),
            hi == image_height(*view),
            count == wu * hu,
            p <= count,
            buf@ == flatten(image_pixels(*view, *opts).take(p as int)),
        decreases count - p,
    {
        assert(wu > 0) by (nonlinear_arith)
            requires
                p < count,
                count == wu * hu,
        ;
        let x = p % wu;
        let y = p / wu;
        proof {
            lemma_pixel_in_range(*view, *opts, p as int, wi, hi);
        }
        let col = x / stride;
        let xx = x % stride;
        let px: Rgb = if xx >= nu * 14 {
            (10, 10, 12)
        } else {
            let i = xx / 14;
            let dx = xx % 14;
            let k = y / 14;
            let dy = y % 14;
            let j = match opts.layer_j {
                Some(j) => j as usize,
                None => col,
            };
            proof {
                lemma_tile_in_grid(*view, *opts, x as int, y as int, wi, hi);
            }
            let pos = i + nu * (j + nu * k);
            let c = colours[pos];
            if dx == 0 || dy == 0 || dx == 13 || dy == 13 {
                (c.0 / 3, c.1 / 3, c.2 / 3)
            } else {
                c
            }
        };
        proof {
            let all = image_pixels(*view, *opts);
            assert(all[p as int] == px);
            assert(all.take(p + 1).drop_last() =~= all.take(p as int));
        }
        buf.push(px.0);
        buf.push(px.1);
        buf.push(px.2);
        p += 1;
    }
    proof {
        assert(image_pixels(*view, *opts).take(count as int) =~= image_pixels(*view, *opts));
        lemma_flatten_len(image_pixels(*view, *opts));
    }
    (w, h, buf)
}

/// A pixel index below `w·h` has its coordinates inside the image.
proof fn lemma_pixel_in_range(v: BoardView, o: AgentViewOpts, p: int, w: int, h: int)
    requires
        0 <= p < w * h,
        w > 0,
    ensures
        0 <= p % w < w,
        0 <= p / w < h,
{
    assert(0 <= p / w < h) by (nonlinear_arith)
        requires
            0 <= p < w * h,
            w > 0,
    ;
}

/// A pixel inside a tile names a lattice position inside the grid.
proof fn lemma_tile_in_grid(v: BoardView, o: AgentViewOpts, x: int, y: int, w: int, h: int)
    requires
        drawable(v, o),
        w == image_width(v, o),
        h == image_height(v),
        0 <= x < w,
        0 <= y < h,
        x % (v.board_n as int * 14 + 3) < v.board_n as int * 14,
    ensures
        ({
            let n = v.board_n as int;
            let stride = n * 14 + 3;
            let i = (x % stride) / 14;
            let k = y / 14;
            let j = layer_of(o, x / stride);
            &&& 0 <= i < n
            &&& 0 <= j < n
            &&& 0 <= k < n
            &&& 0 <= n * k <= n * n
            &&& 0 <= j + n * k < n * n
            &&& 0 <= grid_pos(n, i, j, k) < n * n * n
            &&& n * n <= 65025
            &&& n * n * n <= 16581375
        }),
{
    let n = v.board_n as int;
    let stride = n * 14 + 3;
    let xx = x % stride;
    let i = xx / 14;
    let k = y / 14;
    let col = x / stride;
    let layers = layer_count(v, o);
    assert(n >= 1);
    assert(0 <= i < n) by (nonlinear_arith)
        requires
            0 <= xx < n * 14,
            i == xx / 14,
    ;
    assert(0 <= k < n) by (nonlinear_arith)
        requires
            0 <= y < n * 14,
            k == y / 14,
    ;
    assert(0 <= col < layers) by (nonlinear_arith)
        requires
            0 <= x < layers * n * 14 + (layers - 1) * 3,
            stride == n * 14 + 3,
            col == x / stride,
            layers >= 1,
            n >= 1,
    ;
    let j = layer_of(o, col);
    assert(0 <= j < n);
    assert(0 <= n * k <= n * n && 0 <= j + n * k < n * n && 0 <= i + n * (j + n * k) < n * n * n) by (
    nonlinear_arith)
        requires
            0 <= i < n,
            0 <= j < n,
            0 <= k < n,
    ;
    assert(n * n <= 65025 && n * n * n <= 16581375) by (nonlinear_arith)
        requires
            0 <= n <= 255,
    ;
}

/// The agent image: the layers of the snapshot side by side, PNG-encoded and
/// base64-encoded; empty text when the encoder reports an error.
pub fn render_png_grid(view: &BoardView, opts: &AgentViewOpts) -> (s: String)
    requires
        drawable(*view, *opts),
    ensures
        match png_rgb8(
            image_width(*view, *opts) as u32,
            image_height(*view) as u32,
            image_raster(*view, *opts),
        ) {
            Some(png) => s@ == base64_standard(png),
            None => s@ == Seq::<char>::empty(),
        },
{
    let (w, h, raster) = grid_raster(view, opts);
    proof {
        let px = image_pixels(*view, *opts);
        lemma_flatten_len(px);
        assert(3 * (w * h) == 3 * w * h) by (nonlinear_arith);
    }
    match encode_png(w, h, raster) {
        Some(png) => encode_base64(png.as_slice()),
        None => String::new(),
    }
}


/// Whether the snapshot and options can be drawn (see `drawable`).
pub fn is_drawable(view: &BoardView, opts: &AgentViewOpts) -> (r: bool)
    ensures
        r == drawable(*view, *opts),
{
    let n = view.board_n as u128;
    let layers: u128 = match opts.layer_j {
        Some(_) => 1,
        None => n,
    };
    if layers < 1 {
        return false;
    }
    match opts.layer_j {
        Some(j) => {
            if !(n == 0 || (j as u128) < n) {
                return false;
            }
        },
        None => {},
    }
    if !view.positions_ok() {
        return false;
    }
    let mut q: usize = 0;
    while q < view.cells.len()
        invariant
            q <= view.cells@.len(),
            forall|p: int| 0 <= p < q ==> (#[trigger] view.cells@[p]).slot_id < 4,
        decreases view.cells@.len() - q,
    {
        if view.cells[q].slot_id >= 4 {
            return false;
        }
        q += 1;
    }
    assert(layers * n * 14 + (layers - 1) * 3 <= 1000000 && n * 14 <= 3570) by (nonlinear_arith)
        requires
            1 <= layers <= 255,
            n <= 255,
    ;
    let w: u128 = layers * n * 14 + (layers - 1) * 3;
    let h: u128 = n * 14;
    assert(3 * w * h <= 3 * 1000000 * 3570) by (nonlinear_arith)
        requires
            w <= 1000000,
            h <= 3570,
    ;
    3 * w * h <= usize::MAX as u128
}

} // verus!
