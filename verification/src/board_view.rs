//! `BoardView`: the game-state snapshot delivered to every player type, and the
//! ASCII lattice slices drawn from it.
//!
//! Mesh temperatures are carried exactly, in thousandths; display-normalised
//! values and JSON are produced by the caller. Custom steward nicknames never
//! appear: only the locked default names.
use vstd::prelude::*;

use crate::board::{is_cell, slot_of, Board, BoardModel, CellState, Coord, Steward};
use crate::neighbor_list::{neighbor_items, neighbor_list_as_slice};
use crate::engine::{legal_targets, GameModel, GameState};
use crate::mesh::{
    in_mesh, lemma_connected_refl, lemma_distinct_subset_len, lemma_sorted_distinct, live_mask, mesh_size,
    strictly_sorted,
};
use crate::temperature::{temperature, temperature_milli};
use crate::{ATARI_SIZE, COLLAPSE_THRESHOLD, STEWARD_COUNT};

verus! {

/// A live cell entry.
#[derive(Clone, Debug)]
pub struct CellEntry {
    pub i: u8,
    pub j: u8,
    pub k: u8,
    pub slot_id: u8,
    /// Locked default steward name (never a custom nickname).
    pub default_name: String,
    pub pigment: String,
    /// Stable mesh id: smallest linear index in the mesh.
    pub mesh_id: usize,
}

/// A smouldering `TempDead` cell (one-turn crater).
#[derive(Clone, Debug)]
pub struct TempDeadEntry {
    pub i: u8,
    pub j: u8,
    pub k: u8,
    /// Which steward owns the smouldering crater.
    pub slot_id: u8,
}

/// Per-mesh temperature and size summary.
#[derive(Clone, Debug)]
pub struct MeshInfo {
    /// Stable id: smallest cell linear index in the mesh.
    pub id: usize,
    pub slot_id: u8,
    pub size: usize,
    /// Raw temperature `T(M)` in thousandths.
    pub temperature_milli: i128,
    /// True if this mesh is exactly one placement from collapse (atari).
    pub in_atari: bool,
}

/// The camera angle an agent may request for the next rendered image.
#[derive(Clone, Copy, Debug, PartialEq, Eq, Structural)]
pub enum CameraAngle {
    /// Default 3D isometric forward view.
    Isometric,
    /// Top-down orthographic (j-axis looking down).
    Top,
    /// Front face orthographic (k-axis looking in).
    Front,
    /// Side face orthographic (i-axis looking in).
    Side,
    /// Free rotation.
    Custom,
}

impl Default for CameraAngle {
    fn default() -> (r: Self)
        ensures
            r == CameraAngle::Isometric,
    {
        CameraAngle::Isometric
    }
}

/// Options an agent may send back to shape the next snapshot it receives.
#[derive(Clone, Debug)]
pub struct AgentViewOpts {
    /// Send a rendered image with the next snapshot.
    pub include_png: bool,
    /// Send a short animation with the next snapshot.
    pub include_anim: bool,
    /// Image pixel size.
    pub png_size: u32,
    /// Camera angle for the image.
    pub camera: CameraAngle,
    /// If set, only render the j-layer at this index.
    pub layer_j: Option<u8>,
}

impl Default for AgentViewOpts {
    fn default() -> (r: Self)
        ensures
            !r.include_png,
            !r.include_anim,
            r.png_size == 0,
            r.camera == CameraAngle::Isometric,
            r.layer_j is None,
    {
        AgentViewOpts {
            include_png: false,
            include_anim: false,
            png_size: 0,
            camera: CameraAngle::Isometric,
            layer_j: None,
        }
    }
}

/// The image size used when an agent's options omit one.
pub fn default_png_size() -> (r: u32)
    ensures
        r == 128,
{
    128
}

/// The last move applied.
#[derive(Clone, Debug)]
pub struct LastMove {
    pub slot: u8,
    pub i: u8,
    pub j: u8,
    pub k: u8,
}

/// The canonical game-state snapshot.
#[derive(Clone, Debug)]
pub struct BoardView {
    pub turn: u32,
    pub current_slot: u8,
    pub board_n: u8,
    pub is_rebuild_turn: bool,
    /// Live cells with steward attribution, in index order.
    pub cells: Vec<CellEntry>,
    /// Permanently dead cells (coordinates only), in index order.
    pub perma_dead: Vec<[u8; 3]>,
    /// Smouldering `TempDead` cells, in index order.
    pub temp_dead: Vec<TempDeadEntry>,
    /// Legal placement coordinates for the current steward.
    pub legal_moves: Vec<[u8; 3]>,
    /// Crater footprint the current steward must lay out (rebuild turn only).
    pub pending_footprint: Vec<[u8; 3]>,
    pub scores: [u32; 4],
    pub eliminated: [bool; 4],
    /// Per-mesh temperature and size summary, all stewards, by mesh id.
    pub meshes: Vec<MeshInfo>,
    /// Last move applied.
    pub last_move: Option<LastMove>,
    pub collapse_threshold: usize,
    pub atari_size: usize,
}

/// The steward that owns a live or smouldering cell.
pub open spec fn cell_steward(c: CellState) -> Steward {
    match c {
        CellState::Live(s) => s,
        CellState::TempDead(s) => s,
        _ => Steward::Sienna,
    }
}

/// The locked default name of a steward.
pub open spec fn default_name_of(s: Steward) -> Seq<char> {
    match s {
        Steward::Sienna => "Red"@,
        Steward::Lapis => "Blue"@,
        Steward::Verdigris => "Green"@,
        Steward::Kaolin => "White"@,
    }
}

/// The locked pigment of a steward.
pub open spec fn pigment_of(s: Steward) -> Seq<char> {
    match s {
        Steward::Sienna => "#D97757"@,
        Steward::Lapis => "#6A9BCC"@,
        Steward::Verdigris => "#788C5D"@,
        Steward::Kaolin => "#E8E6DC"@,
    }
}

/// Live cells.
pub open spec fn live_test() -> spec_fn(CellState) -> bool {
    |c: CellState| c is Live
}

/// Smouldering cells.
pub open spec fn temp_test() -> spec_fn(CellState) -> bool {
    |c: CellState| c is TempDead
}

/// Perma-dead cells.
pub open spec fn perma_test() -> spec_fn(CellState) -> bool {
    |c: CellState| c == CellState::PermaDead
}

/// The indices `x < t` whose cell passes `f`, ascending.
pub open spec fn cells_where(cells: Seq<CellState>, f: spec_fn(CellState) -> bool, t: int) -> Seq<usize>
    decreases t,
{
    if t <= 0 {
        seq![]
    } else {
        let p = cells_where(cells, f, t - 1);
        if f(cells[t - 1]) {
            p.push((t - 1) as usize)
        } else {
            p
        }
    }
}

/// A coordinate as `[i, j, k]`.
pub open spec fn triple(c: Coord) -> Seq<u8> {
    seq![c.i, c.j, c.k]
}

/// `e` describes the live cell `idx`; its mesh id is the smallest index of the
/// cell's mesh.
pub open spec fn cell_entry_ok(m: BoardModel, idx: int, e: CellEntry) -> bool {
    let c = m.coords[idx];
    let s = cell_steward(m.cells[idx]);
    &&& e.i == c.i
    &&& e.j == c.j
    &&& e.k == c.k
    &&& e.slot_id == slot_of(s)
    &&& e.default_name@ == default_name_of(s)
    &&& e.pigment@ == pigment_of(s)
    &&& in_mesh(m, idx, e.mesh_id as int)
    &&& forall|y: int| 0 <= y < e.mesh_id ==> !in_mesh(m, idx, y)
}

/// `e` describes the smouldering cell `idx`.
pub open spec fn temp_entry_ok(m: BoardModel, idx: int, e: TempDeadEntry) -> bool {
    let c = m.coords[idx];
    &&& e.i == c.i
    &&& e.j == c.j
    &&& e.k == c.k
    &&& e.slot_id == slot_of(cell_steward(m.cells[idx]))
}

/// `x` is the smallest index of its live mesh.
pub open spec fn is_mesh_root(m: BoardModel, x: int) -> bool {
    &&& 0 <= x < m.len()
    &&& m.cells[x] is Live
    &&& forall|y: int| 0 <= y < x ==> !in_mesh(m, x, y)
}

/// The mesh roots among the first `t` indices, ascending.
pub open spec fn roots_upto(m: BoardModel, t: int) -> Seq<usize>
    decreases t,
{
    if t <= 0 {
        seq![]
    } else {
        let p = roots_upto(m, t - 1);
        if is_mesh_root(m, t - 1) {
            p.push((t - 1) as usize)
        } else {
            p
        }
    }
}

/// One root per live mesh, ascending.
pub open spec fn mesh_roots(m: BoardModel) -> Seq<usize> {
    roots_upto(m, m.len() as int)
}

/// The meshes of `r` and `r2` touch: a cell of one is face-adjacent to a cell
/// of the other.
pub open spec fn meshes_touch(m: BoardModel, r: int, r2: int) -> bool {
    exists|x: int, y: int| #![trigger m.adjacent(x, y)] in_mesh(m, r, x) && in_mesh(m, r2, y) && m.adjacent(x, y)
}

/// The sizes of the meshes among the first `t` of `roots` that belong to a
/// steward other than `s` and touch the mesh of `r`, in order.
pub open spec fn enemy_sizes_upto(m: BoardModel, r: int, s: Steward, roots: Seq<usize>, t: int) -> Seq<usize>
    decreases t,
{
    if t <= 0 {
        seq![]
    } else {
        let p = enemy_sizes_upto(m, r, s, roots, t - 1);
        let r2 = roots[t - 1] as int;
        if cell_steward(m.cells[r2]) != s && meshes_touch(m, r, r2) {
            p.push(mesh_size(m, r2) as usize)
        } else {
            p
        }
    }
}

/// The sizes of the face-adjacent enemy meshes of the mesh of `r`: the meshes
/// of other stewards that touch it, by mesh id.
pub open spec fn enemy_sizes(m: BoardModel, r: int) -> Seq<usize> {
    enemy_sizes_upto(m, r, cell_steward(m.cells[r]), mesh_roots(m), mesh_roots(m).len() as int)
}

/// `e` summarises the mesh rooted at `r`.
pub open spec fn mesh_info_ok(m: BoardModel, r: int, e: MeshInfo) -> bool {
    let s = cell_steward(m.cells[r]);
    let size = mesh_size(m, r);
    &&& e.id == r
    &&& e.slot_id == slot_of(s)
    &&& e.size == size
    &&& e.temperature_milli == temperature_milli(size as int, enemy_sizes(m, r))
    &&& e.in_atari == (size == ATARI_SIZE)
}

/// `v` is the snapshot of the game `g`.
pub open spec fn is_view_of(v: BoardView, g: GameModel) -> bool {
    let m = g.board;
    let live = cells_where(m.cells, live_test(), m.len() as int);
    let temp = cells_where(m.cells, temp_test(), m.len() as int);
    let perma = cells_where(m.cells, perma_test(), m.len() as int);
    let legal = legal_targets(m);
    let roots = mesh_roots(m);
    &&& v.turn == g.turn
    &&& v.current_slot == g.current
    &&& v.board_n == m.n
    &&& v.is_rebuild_turn == g.pending[g.current as int] is Some
    &&& v.cells@.len() == live.len()
    &&& forall|q: int| 0 <= q < live.len() ==> cell_entry_ok(m, live[q] as int, #[trigger] v.cells@[q])
    &&& v.temp_dead@.len() == temp.len()
    &&& forall|q: int| 0 <= q < temp.len() ==> temp_entry_ok(m, temp[q] as int, #[trigger] v.temp_dead@[q])
    &&& v.perma_dead@.len() == perma.len()
    &&& forall|q: int| 0 <= q < perma.len() ==> (#[trigger] v.perma_dead@[q])@ == triple(m.coords[perma[q] as int])
    &&& v.legal_moves@.len() == legal.len()
    &&& forall|q: int| 0 <= q < legal.len() ==> (#[trigger] v.legal_moves@[q])@ == triple(legal[q])
    &&& match g.pending[g.current as int] {
        None => v.pending_footprint@.len() == 0,
        Some(fp) => {
            &&& v.pending_footprint@.len() == fp.len()
            &&& forall|q: int|
                0 <= q < fp.len() ==> (#[trigger] v.pending_footprint@[q])@ == triple(m.coords[fp[q] as int])
        },
    }
    &&& v.scores@ == g.scores
    &&& v.eliminated@ == g.eliminated
    &&& v.meshes@.len() == roots.len()
    &&& forall|q: int| 0 <= q < roots.len() ==> mesh_info_ok(m, roots[q] as int, #[trigger] v.meshes@[q])
    &&& if g.history.len() == 0 {
        v.last_move is None
    } else {
        &&& v.last_move is Some
        &&& v.last_move->0.slot == g.history.last().slot
        &&& v.last_move->0.i == g.history.last().coord.i
        &&& v.last_move->0.j == g.history.last().coord.j
        &&& v.last_move->0.k == g.history.last().coord.k
    }
    &&& v.collapse_threshold == COLLAPSE_THRESHOLD
    &&& v.atari_size == ATARI_SIZE
}

/// The locked default name of a steward.
fn default_name(s: Steward) -> (r: &'static str)
    ensures
        r@ == default_name_of(s),
{
    match s {
        Steward::Sienna => "Red",
        Steward::Lapis => "Blue",
        Steward::Verdigris => "Green",
        Steward::Kaolin => "White",
    }
}

/// A coordinate as `[i, j, k]`.
fn triple_of(c: Coord) -> (r: [u8; 3])
    ensures
        r@ == triple(c),
{
    let r = [c.i, c.j, c.k];
    assert(r@ =~= triple(c));
    r
}

/// The listed indices are below `t`.
proof fn lemma_cells_where_bound(cells: Seq<CellState>, f: spec_fn(CellState) -> bool, t: int)
    ensures
        forall|q: int|
            0 <= q < cells_where(cells, f, t).len() ==> #[trigger] cells_where(cells, f, t)[q] < t,
        t >= 0 ==> cells_where(cells, f, t).len() <= t,
    decreases t,
{
    if t > 0 {
        lemma_cells_where_bound(cells, f, t - 1);
    }
}

/// A sequence of roots grows by at most one per index.
proof fn lemma_roots_upto_len(m: BoardModel, t: int)
    requires
        t >= 0,
    ensures
        roots_upto(m, t).len() <= t,
        forall|q: int| 0 <= q < roots_upto(m, t).len() ==> #[trigger] roots_upto(m, t)[q] < t,
    decreases t,
{
    if t > 0 {
        lemma_roots_upto_len(m, t - 1);
    }
}

/// An enemy list has at most one entry per root.
proof fn lemma_enemy_sizes_len(m: BoardModel, r: int, s: Steward, roots: Seq<usize>, t: int)
    requires
        t >= 0,
    ensures
        enemy_sizes_upto(m, r, s, roots, t).len() <= t,
    decreases t,
{
    if t > 0 {
        lemma_enemy_sizes_len(m, r, s, roots, t - 1);
    }
}

/// The listing of a live cell's mesh: its first entry is the mesh's smallest
/// index, and the cell is a root exactly when that is the cell itself.
proof fn lemma_mesh_first(m: BoardModel, idx: int, mesh: Seq<usize>)
    requires
        m.wf(),
        0 <= idx < m.len(),
        m.cells[idx] is Live,
        strictly_sorted(mesh),
        forall|q: int| 0 <= q < mesh.len() ==> #[trigger] mesh[q] < m.len(),
        forall|x: int| 0 <= x < m.len() ==> (mesh.contains(x as usize) <==> #[trigger] in_mesh(m, idx, x)),
    ensures
        mesh.len() > 0,
        in_mesh(m, idx, mesh[0] as int),
        forall|y: int| 0 <= y < mesh[0] ==> !in_mesh(m, idx, y),
        is_mesh_root(m, idx) <==> mesh[0] == idx,
        mesh.len() <= m.len(),
{
    let s = cell_steward(m.cells[idx]);
    lemma_connected_refl(m, live_mask(m, s), idx);
    assert(in_mesh(m, idx, idx));
    assert(mesh.contains(idx as usize));
    let w = choose|w: int| 0 <= w < mesh.len() && mesh[w] == idx as usize;
    assert(mesh.contains(mesh[0]));
    assert forall|y: int| 0 <= y < mesh[0] implies !in_mesh(m, idx, y) by {
        if in_mesh(m, idx, y) {
            assert(mesh.contains(y as usize));
            let v = choose|v: int| 0 <= v < mesh.len() && mesh[v] == y as usize;
            if v > 0 {
                assert(mesh[0] < mesh[v]);
            }
        }
    }
    if w > 0 {
        assert(mesh[0] < mesh[w]);
    }
    if is_mesh_root(m, idx) {
        if mesh[0] < idx {
            assert(!in_mesh(m, idx, mesh[0] as int));
        }
    }
    if mesh[0] == idx {
        assert forall|y: int| 0 <= y < idx implies !in_mesh(m, idx, y) by {}
    }
    let all = Seq::new(m.len(), |x: int| x as usize);
    assert forall|p: int, q: int| 0 <= p < all.len() && 0 <= q < all.len() && p != q implies all[p] != all[q] by {}
    assert forall|x: usize| mesh.contains(x) implies all.contains(x) by {
        let v = choose|v: int| 0 <= v < mesh.len() && mesh[v] == x;
        assert(all[x as int] == x);
    }
    lemma_sorted_distinct(mesh);
    lemma_distinct_subset_len(mesh, all);
}

/// Per position `y`: some listed cell is face-adjacent to it.
fn near_cells(board: &Board, list: &Vec<usize>) -> (r: Vec<bool>)
    requires
        board.wf(),
        forall|x: int| 0 <= x < list@.len() ==> #[trigger] list@[x] < board@.len(),
    ensures
        r@.len() == board@.len(),
        forall|y: int|
            0 <= y < board@.len() ==> (#[trigger] r@[y] <==> exists|x: int|
                0 <= x < list@.len() && board@.adjacent(#[trigger] list@[x] as int, y)),
{
    let ghost m = board@;
    let len = board.len();
    let mut r: Vec<bool> = Vec::new();
    let mut y: usize = 0;
    while y < len
        invariant
            y <= len,
            r@.len() == y,
            forall|z: int| 0 <= z < y ==> !(#[trigger] r@[z]),
        decreases len - y,
    {
        r.push(false);
        y += 1;
    }
    let mut u: usize = 0;
    while u < list.len()
        invariant
            board.wf(),
            board@ == m,
            len == m.len(),
            u <= list@.len(),
            forall|x: int| 0 <= x < list@.len() ==> #[trigger] list@[x] < len,
            r@.len() == len,
            forall|z: int|
                0 <= z < len ==> (#[trigger] r@[z] <==> exists|x: int|
                    0 <= x < u && m.adjacent(#[trigger] list@[x] as int, z)),
        decreases list@.len() - u,
    {
        let c = list[u];
        let nbs = board.neighbors(c);
        let sl = neighbor_list_as_slice(&nbs);
        let ghost before = r@;
        let mut t: usize = 0;
        while t < sl.len()
            invariant
                board.wf(),
                board@ == m,
                len == m.len(),
                c < len,
                sl@ == neighbor_items(nbs),
                crate::board::is_neighbor_list(m, c as int, sl@),
                t <= sl@.len(),
                r@.len() == len,
                before.len() == len,
                forall|z: int|
                    0 <= z < len ==> (#[trigger] r@[z] <==> (before[z] || exists|w: int|
                        0 <= w < t && #[trigger] sl@[w] == z)),
            decreases sl@.len() - t,
        {
            let nb = sl[t];
            assert(m.adjacent(c as int, sl@[t as int] as int));
            r.set(nb, true);
            t += 1;
        }
        proof {
            assert forall|z: int|
                0 <= z < len implies (#[trigger] r@[z] <==> exists|x: int|
                    0 <= x < u + 1 && m.adjacent(#[trigger] list@[x] as int, z)) by {
                if r@[z] && !before[z] {
                    let w = choose|w: int| 0 <= w < sl@.len() && #[trigger] sl@[w] == z;
                    assert(m.adjacent(c as int, sl@[w] as int));
                    assert(list@[u as int] == c);
                }
                if exists|x: int| 0 <= x < u + 1 && m.adjacent(#[trigger] list@[x] as int, z) {
                    let x = choose|x: int| 0 <= x < u + 1 && m.adjacent(#[trigger] list@[x] as int, z);
                    if x == u {
                        assert(sl@.contains(z as usize));
                        let w = choose|w: int| 0 <= w < sl@.len() && sl@[w] == z as usize;
                        assert(sl@[w] == z);
                    } else {
                        assert(before[z]);
                    }
                }
            }
        }
        u += 1;
    }
    r
}

/// Some listed position is marked.
fn any_marked(list: &Vec<usize>, marks: &Vec<bool>) -> (r: bool)
    requires
        forall|x: int| 0 <= x < list@.len() ==> #[trigger] list@[x] < marks@.len(),
    ensures
        r <==> exists|v: int| 0 <= v < list@.len() && #[trigger] marks@[list@[v] as int],
{
    let mut v: usize = 0;
    while v < list.len()
        invariant
            v <= list@.len(),
            forall|x: int| 0 <= x < list@.len() ==> #[trigger] list@[x] < marks@.len(),
            forall|w: int| 0 <= w < v ==> !#[trigger] marks@[list@[w] as int],
        decreases list@.len() - v,
    {
        if marks[list[v]] {
            return true;
        }
        v += 1;
    }
    false
}

/// Two meshes touch exactly when a cell of the second is next to a cell of the
/// first.
proof fn lemma_touch(m: BoardModel, rq: int, rp: int, listq: Seq<usize>, listp: Seq<usize>, near: Seq<bool>)
    requires
        m.wf(),
        forall|x: int| 0 <= x < listq.len() ==> #[trigger] listq[x] < m.len(),
        forall|x: int| 0 <= x < listp.len() ==> #[trigger] listp[x] < m.len(),
        forall|x: int| 0 <= x < m.len() ==> (listq.contains(x as usize) <==> #[trigger] in_mesh(m, rq, x)),
        forall|x: int| 0 <= x < m.len() ==> (listp.contains(x as usize) <==> #[trigger] in_mesh(m, rp, x)),
        near.len() == m.len(),
        forall|y: int|
            0 <= y < m.len() ==> (#[trigger] near[y] <==> exists|x: int|
                0 <= x < listq.len() && m.adjacent(#[trigger] listq[x] as int, y)),
    ensures
        meshes_touch(m, rq, rp) <==> exists|v: int| 0 <= v < listp.len() && #[trigger] near[listp[v] as int],
{
    if meshes_touch(m, rq, rp) {
        let (x, y) = choose|x: int, y: int|
            #![trigger m.adjacent(x, y)]
            in_mesh(m, rq, x) && in_mesh(m, rp, y) && m.adjacent(x, y);
        assert(listq.contains(x as usize));
        assert(listp.contains(y as usize));
        let a = choose|a: int| 0 <= a < listq.len() && listq[a] == x as usize;
        let v = choose|v: int| 0 <= v < listp.len() && listp[v] == y as usize;
        assert(0 <= x < m.len() && 0 <= y < m.len());
        assert(listq[a] as int == x);
        assert(listp[v] as int == y);
        assert(m.adjacent(listq[a] as int, y));
        assert(near[listp[v] as int]);
    }
    if exists|v: int| 0 <= v < listp.len() && #[trigger] near[listp[v] as int] {
        let v = choose|v: int| 0 <= v < listp.len() && #[trigger] near[listp[v] as int];
        let y = listp[v] as int;
        let a = choose|a: int| 0 <= a < listq.len() && m.adjacent(#[trigger] listq[a] as int, y);
        let x = listq[a] as int;
        assert(listq.contains(x as usize));
        assert(listp.contains(y as usize));
        assert(in_mesh(m, rq, x) && in_mesh(m, rp, y) && m.adjacent(x, y));
    }
}

/// The mesh summaries of every live mesh on `board`, by mesh id.
fn mesh_infos(board: &Board) -> (r: Vec<MeshInfo>)
    requires
        board.wf(),
    ensures
        r@.len() == mesh_roots(board@).len(),
        forall|q: int|
            0 <= q < mesh_roots(board@).len() ==> mesh_info_ok(board@, mesh_roots(board@)[q] as int, #[trigger] r@[q]),
{
    let ghost m = board@;
    let len = board.len();
    let mut roots: Vec<usize> = Vec::new();
    let mut owners: Vec<Steward> = Vec::new();
    let mut sizes: Vec<usize> = Vec::new();
    let mut idx: usize = 0;
    while idx < len
        invariant
            board.wf(),
            board@ == m,
            len == m.len(),
            idx <= len,
            roots@ == roots_upto(m, idx as int),
            owners@.len() == roots@.len(),
            sizes@.len() == roots@.len(),
            forall|q: int|
                0 <= q < roots@.len() ==> #[trigger] owners@[q] == cell_steward(m.cells[roots@[q] as int]),
            forall|q: int| 0 <= q < roots@.len() ==> #[trigger] sizes@[q] == mesh_size(m, roots@[q] as int),
            forall|q: int| 0 <= q < roots@.len() ==> #[trigger] sizes@[q] <= len,
        decreases len - idx,
    {
        proof {
            lemma_roots_upto_len(m, idx as int);
        }
        match board.get(idx) {
            CellState::Live(s) => {
                let mesh = board.mesh_containing(idx);
                proof {
                    lemma_mesh_first(m, idx as int, mesh@);
                }
                if mesh[0] == idx {
                    roots.push(idx);
                    owners.push(s);
                    sizes.push(mesh.len());
                }
            },
            _ => {},
        }
        idx += 1;
    }
    proof {
        lemma_roots_upto_len(m, len as int);
    }
    let mut out: Vec<MeshInfo> = Vec::new();
    let count = roots.len();
    let mut q: usize = 0;
    while q < count
        invariant
            board.wf(),
            board@ == m,
            len == m.len(),
            len < 0x7fff_ffff,
            roots@ == mesh_roots(m),
            count == roots@.len(),
            count <= len,
            forall|x: int| 0 <= x < count ==> #[trigger] roots@[x] < len,
            owners@.len() == count,
            sizes@.len() == count,
            forall|p: int| 0 <= p < count ==> #[trigger] owners@[p] == cell_steward(m.cells[roots@[p] as int]),
            forall|p: int| 0 <= p < count ==> #[trigger] sizes@[p] == mesh_size(m, roots@[p] as int),
            forall|p: int| 0 <= p < count ==> #[trigger] sizes@[p] <= len,
            q <= count,
            out@.len() == q,
            forall|p: int| 0 <= p < q ==> mesh_info_ok(m, roots@[p] as int, #[trigger] out@[p]),
        decreases count - q,
    {
        let s = owners[q];
        let rq = roots[q];
        let listq = board.mesh_containing(rq);
        let near = near_cells(board, &listq);
        let mut enemy: Vec<usize> = Vec::new();
        let mut p: usize = 0;
        while p < count
            invariant
                board.wf(),
                board@ == m,
                len == m.len(),
                p <= count,
                q < count,
                count == roots@.len(),
                roots@ == mesh_roots(m),
                forall|x: int| 0 <= x < count ==> #[trigger] roots@[x] < len,
                owners@.len() == count,
                sizes@.len() == count,
                rq == roots@[q as int],
                s == cell_steward(m.cells[rq as int]),
                forall|x: int| 0 <= x < listq@.len() ==> #[trigger] listq@[x] < len,
                forall|x: int| 0 <= x < len ==> (listq@.contains(x as usize) <==> #[trigger] in_mesh(m, rq as int, x)),
                near@.len() == len,
                forall|y: int|
                    0 <= y < len ==> (#[trigger] near@[y] <==> exists|x: int|
                        0 <= x < listq@.len() && m.adjacent(#[trigger] listq@[x] as int, y)),
                forall|x: int| 0 <= x < count ==> #[trigger] owners@[x] == cell_steward(m.cells[roots@[x] as int]),
                forall|x: int| 0 <= x < count ==> #[trigger] sizes@[x] == mesh_size(m, roots@[x] as int),
                enemy@ == enemy_sizes_upto(m, rq as int, s, roots@, p as int),
            decreases count - p,
        {
            if owners[p] != s {
                let rp = roots[p];
                let listp = board.mesh_containing(rp);
                let touch = any_marked(&listp, &near);
                proof {
                    lemma_touch(m, rq as int, rp as int, listq@, listp@, near@);
                }
                if touch {
                    enemy.push(sizes[p]);
                }
            }
            p += 1;
        }
        proof {
            lemma_enemy_sizes_len(m, rq as int, s, roots@, count as int);
            assert forall|x: int| 0 <= x < enemy@.len() implies #[trigger] enemy@[x] <= u32::MAX by {
                assert(enemy_sizes_upto(m, rq as int, s, roots@, count as int)[x] <= u32::MAX) by {
                    lemma_enemy_bounded(m, rq as int, s, roots@, count as int, sizes@, len as int, x);
                }
            }
        }
        let t = temperature(sizes[q], enemy.as_slice());
        let size = sizes[q];
        out.push(MeshInfo { id: roots[q], slot_id: s.slot(), size, temperature_milli: t, in_atari: size == ATARI_SIZE });
        q += 1;
    }
    out
}

/// Every entry of an enemy list is one of the listed sizes, so it is bounded
/// like them.
proof fn lemma_enemy_bounded(
    m: BoardModel,
    r: int,
    s: Steward,
    roots: Seq<usize>,
    t: int,
    sizes: Seq<usize>,
    bound: int,
    x: int,
)
    requires
        0 <= t <= roots.len(),
        sizes.len() == roots.len(),
        forall|p: int| 0 <= p < roots.len() ==> #[trigger] sizes[p] == mesh_size(m, roots[p] as int),
        forall|p: int| 0 <= p < roots.len() ==> #[trigger] sizes[p] <= bound,
        bound <= u32::MAX,
        0 <= x < enemy_sizes_upto(m, r, s, roots, t).len(),
    ensures
        enemy_sizes_upto(m, r, s, roots, t)[x] <= u32::MAX,
    decreases t,
{
    if t > 0 {
        let prev = enemy_sizes_upto(m, r, s, roots, t - 1);
        if x < prev.len() {
            lemma_enemy_bounded(m, r, s, roots, t - 1, sizes, bound, x);
        } else {
            assert(sizes[t - 1] <= bound);
        }
    }
}

impl BoardView {
    /// Build the snapshot of `gs`.
    pub fn from_game_state(gs: &GameState) -> (v: Self)
        requires
            gs.wf(),
        ensures
            is_view_of(v, gs@),
            coords_in_range(v),
    {
        let ghost g = gs@;
        let board = gs.board_ref();
        let ghost m = board@;
        let len = board.len();
        let mut cells: Vec<CellEntry> = Vec::new();
        let mut perma_dead: Vec<[u8; 3]> = Vec::new();
        let mut temp_dead: Vec<TempDeadEntry> = Vec::new();
        let mut idx: usize = 0;
        while idx < len
            invariant
                board.wf(),
                board@ == m,
                len == m.len(),
                idx <= len,
                cells@.len() == cells_where(m.cells, live_test(), idx as int).len(),
                forall|q: int|
                    0 <= q < cells@.len() ==> cell_entry_ok(
                        m,
                        cells_where(m.cells, live_test(), idx as int)[q] as int,
                        #[trigger] cells@[q],
                    ),
                temp_dead@.len() == cells_where(m.cells, temp_test(), idx as int).len(),
                forall|q: int|
                    0 <= q < temp_dead@.len() ==> temp_entry_ok(
                        m,
                        cells_where(m.cells, temp_test(), idx as int)[q] as int,
                        #[trigger] temp_dead@[q],
                    ),
                perma_dead@.len() == cells_where(m.cells, perma_test(), idx as int).len(),
                forall|q: int|
                    0 <= q < perma_dead@.len() ==> (#[trigger] perma_dead@[q])@ == triple(
                        m.coords[cells_where(m.cells, perma_test(), idx as int)[q] as int],
                    ),
            decreases len - idx,
        {
            let c = board.coord(idx);
            match board.get(idx) {
                CellState::Live(s) => {
                    let mesh = board.mesh_containing(idx);
                    proof {
                        lemma_mesh_first(m, idx as int, mesh@);
                    }
                    let entry = CellEntry {
                        i: c.i,
                        j: c.j,
                        k: c.k,
                        slot_id: s.slot(),
                        default_name: default_name(s).to_owned(),
                        pigment: s.pigment().to_owned(),
                        mesh_id: mesh[0],
                    };
                    cells.push(entry);
                },
                CellState::PermaDead => {
                    perma_dead.push(triple_of(c));
                },
                CellState::TempDead(s) => {
                    temp_dead.push(TempDeadEntry { i: c.i, j: c.j, k: c.k, slot_id: s.slot() });
                },
                CellState::Empty => {},
            }
            idx += 1;
        }
        let legal = gs.current_legal_moves();
        let mut legal_moves: Vec<[u8; 3]> = Vec::new();
        let mut q: usize = 0;
        while q < legal.len()
            invariant
                q <= legal@.len(),
                legal_moves@.len() == q,
                forall|p: int| 0 <= p < q ==> (#[trigger] legal_moves@[p])@ == triple(legal@[p]),
            decreases legal@.len() - q,
        {
            legal_moves.push(triple_of(legal[q]));
            q += 1;
        }
        let mut pending_footprint: Vec<[u8; 3]> = Vec::new();
        match gs.pending_footprint() {
            Some(fp) => {
                let mut q: usize = 0;
                while q < fp.len()
                    invariant
                        q <= fp@.len(),
                        pending_footprint@.len() == q,
                        forall|p: int| 0 <= p < q ==> (#[trigger] pending_footprint@[p])@ == triple(fp@[p]),
                    decreases fp@.len() - q,
                {
                    pending_footprint.push(triple_of(fp[q]));
                    q += 1;
                }
            },
            None => {},
        }
        proof {
            let n = m.n;
            lemma_cells_where_bound(m.cells, live_test(), len as int);
            lemma_cells_where_bound(m.cells, temp_test(), len as int);
            lemma_cells_where_bound(m.cells, perma_test(), len as int);
            assert forall|q: int| 0 <= q < perma_dead@.len() implies (#[trigger] perma_dead@[q])@[0] < n
                && perma_dead@[q]@[1] < n && perma_dead@[q]@[2] < n by {
                let x = cells_where(m.cells, perma_test(), len as int)[q] as int;
                assert(is_cell(m.coords[x], n));
            }
            assert forall|q: int| 0 <= q < temp_dead@.len() implies (#[trigger] temp_dead@[q]).i < n
                && temp_dead@[q].j < n && temp_dead@[q].k < n by {
                let x = cells_where(m.cells, temp_test(), len as int)[q] as int;
                assert(is_cell(m.coords[x], n));
            }
            assert forall|q: int| 0 <= q < cells@.len() implies (#[trigger] cells@[q]).i < n && cells@[q].j < n
                && cells@[q].k < n by {
                let x = cells_where(m.cells, live_test(), len as int)[q] as int;
                assert(is_cell(m.coords[x], n));
            }
        }
        let meshes = mesh_infos(board);
        let last_move = match gs.last_record() {
            Some((slot, c)) => Some(LastMove { slot, i: c.i, j: c.j, k: c.k }),
            None => None,
        };
        BoardView {
            turn: gs.turn_number(),
            current_slot: gs.current_slot(),
            board_n: board.edge(),
            is_rebuild_turn: gs.is_rebuild_turn(),
            cells,
            perma_dead,
            temp_dead,
            legal_moves,
            pending_footprint,
            scores: gs.score_array(),
            eliminated: gs.eliminated_array(),
            meshes,
            last_move,
            collapse_threshold: COLLAPSE_THRESHOLD,
            atari_size: ATARI_SIZE,
        }
    }
}


/// `.`: an empty cell in the ASCII grid.
pub const EMPTY_SYMBOL: u8 = 46;

/// `X`: a perma-dead cell.
pub const PERMA_SYMBOL: u8 = 88;

/// `t`: a smouldering cell.
pub const TEMP_SYMBOL: u8 = 116;

/// `*`: a cell of a mesh in atari.
pub const ATARI_SYMBOL: u8 = 42;

/// The grid position of `(i, j, k)` on an edge-`n` lattice: `i + n·(j + n·k)`.
pub open spec fn grid_pos(n: int, i: int, j: int, k: int) -> int {
    i + n * (j + n * k)
}

/// The ASCII symbol of a live cell of `slot`: `S`, `L`, `V`, `K`, else `?`.
pub open spec fn slot_symbol(slot: u8) -> u8 {
    if slot == 0 {
        83u8  // S
    } else if slot == 1 {
        76u8  // L
    } else if slot == 2 {
        86u8  // V
    } else if slot == 3 {
        75u8  // K
    } else {
        63u8  // ?
    }
}

/// `g` with the first `t` perma-dead entries drawn as `X`.
pub open spec fn paint_perma(g: Seq<u8>, n: int, list: Seq<[u8; 3]>, t: int) -> Seq<u8>
    decreases t,
{
    if t <= 0 {
        g
    } else {
        let e = list[t - 1]@;
        paint_perma(g, n, list, t - 1).update(grid_pos(n, e[0] as int, e[1] as int, e[2] as int), PERMA_SYMBOL)
    }
}

/// `g` with the first `t` smouldering entries drawn as `t`.
pub open spec fn paint_temp(g: Seq<u8>, n: int, list: Seq<TempDeadEntry>, t: int) -> Seq<u8>
    decreases t,
{
    if t <= 0 {
        g
    } else {
        let e = list[t - 1];
        paint_temp(g, n, list, t - 1).update(grid_pos(n, e.i as int, e.j as int, e.k as int), TEMP_SYMBOL)
    }
}

/// `g` with the first `t` live entries drawn by slot symbol.
pub open spec fn paint_live(g: Seq<u8>, n: int, list: Seq<CellEntry>, t: int) -> Seq<u8>
    decreases t,
{
    if t <= 0 {
        g
    } else {
        let e = list[t - 1];
        paint_live(g, n, list, t - 1).update(grid_pos(n, e.i as int, e.j as int, e.k as int), slot_symbol(e.slot_id))
    }
}

/// `g` with the first `t` live entries of mesh `id` drawn as `*`.
pub open spec fn paint_mesh(g: Seq<u8>, n: int, id: usize, list: Seq<CellEntry>, t: int) -> Seq<u8>
    decreases t,
{
    if t <= 0 {
        g
    } else {
        let e = list[t - 1];
        let prev = paint_mesh(g, n, id, list, t - 1);
        if e.mesh_id == id {
            prev.update(grid_pos(n, e.i as int, e.j as int, e.k as int), ATARI_SYMBOL)
        } else {
            prev
        }
    }
}

/// `g` with the cells of each of the first `t` meshes that is in atari drawn as `*`.
pub open spec fn paint_atari(g: Seq<u8>, n: int, meshes: Seq<MeshInfo>, cells: Seq<CellEntry>, t: int) -> Seq<u8>
    decreases t,
{
    if t <= 0 {
        g
    } else {
        let prev = paint_atari(g, n, meshes, cells, t - 1);
        if meshes[t - 1].in_atari {
            paint_mesh(prev, n, meshes[t - 1].id, cells, cells.len() as int)
        } else {
            prev
        }
    }
}

/// The symbol grid of a snapshot: all `.`, then perma-dead `X`, smouldering
/// `t`, live cells by slot, and atari meshes `*`, each drawn over the last.
pub open spec fn ascii_grid_of(v: BoardView) -> Seq<u8> {
    let n = v.board_n as int;
    let blank = Seq::new((n * n * n) as nat, |p: int| EMPTY_SYMBOL);
    let a = paint_perma(blank, n, v.perma_dead@, v.perma_dead@.len() as int);
    let b = paint_temp(a, n, v.temp_dead@, v.temp_dead@.len() as int);
    let c = paint_live(b, n, v.cells@, v.cells@.len() as int);
    paint_atari(c, n, v.meshes@, v.cells@, v.meshes@.len() as int)
}

/// The grid position of a live entry.
pub open spec fn cell_pos(n: int, e: CellEntry) -> int {
    grid_pos(n, e.i as int, e.j as int, e.k as int)
}

/// No byte of `g` is the atari mark.
pub open spec fn no_atari(g: Seq<u8>) -> bool {
    forall|p: int| 0 <= p < g.len() ==> #[trigger] g[p] != ATARI_SYMBOL
}

proof fn lemma_paint_perma_plain(g: Seq<u8>, n: int, list: Seq<[u8; 3]>, t: int)
    requires
        0 <= n <= 255,
        t <= list.len(),
        no_atari(g),
        forall|q: int|
            0 <= q < list.len() ==> grid_pos(
                n,
                (#[trigger] list[q])@[0] as int,
                list[q]@[1] as int,
                list[q]@[2] as int,
            ) < g.len(),
    ensures
        paint_perma(g, n, list, t).len() == g.len(),
        no_atari(paint_perma(g, n, list, t)),
    decreases t,
{
    if t > 0 {
        lemma_paint_perma_plain(g, n, list, t - 1);
        let e = list[t - 1]@;
        lemma_pos_small(n, e[0] as int, e[1] as int, e[2] as int);
    }
}

proof fn lemma_paint_temp_plain(g: Seq<u8>, n: int, list: Seq<TempDeadEntry>, t: int)
    requires
        0 <= n <= 255,
        t <= list.len(),
        no_atari(g),
        forall|q: int|
            0 <= q < list.len() ==> grid_pos(
                n,
                (#[trigger] list[q]).i as int,
                list[q].j as int,
                list[q].k as int,
            ) < g.len(),
    ensures
        paint_temp(g, n, list, t).len() == g.len(),
        no_atari(paint_temp(g, n, list, t)),
    decreases t,
{
    if t > 0 {
        lemma_paint_temp_plain(g, n, list, t - 1);
        let e = list[t - 1];
        lemma_pos_small(n, e.i as int, e.j as int, e.k as int);
    }
}

proof fn lemma_paint_live_plain(g: Seq<u8>, n: int, list: Seq<CellEntry>, t: int)
    requires
        0 <= n <= 255,
        t <= list.len(),
        no_atari(g),
        forall|q: int| 0 <= q < list.len() ==> cell_pos(n, #[trigger] list[q]) < g.len(),
    ensures
        paint_live(g, n, list, t).len() == g.len(),
        no_atari(paint_live(g, n, list, t)),
    decreases t,
{
    if t > 0 {
        lemma_paint_live_plain(g, n, list, t - 1);
        let e = list[t - 1];
        lemma_pos_small(n, e.i as int, e.j as int, e.k as int);
    }
}

proof fn lemma_paint_mesh(g: Seq<u8>, n: int, id: usize, list: Seq<CellEntry>, t: int)
    requires
        0 <= n <= 255,
        0 <= t <= list.len(),
        forall|q: int| 0 <= q < list.len() ==> cell_pos(n, #[trigger] list[q]) < g.len(),
    ensures
        paint_mesh(g, n, id, list, t).len() == g.len(),
        forall|q: int|
            0 <= q < t && (#[trigger] list[q]).mesh_id == id ==> paint_mesh(g, n, id, list, t)[cell_pos(n, list[q])]
                == ATARI_SYMBOL,
        forall|p: int|
            0 <= p < g.len() && #[trigger] paint_mesh(g, n, id, list, t)[p] != g[p] ==> paint_mesh(
                g,
                n,
                id,
                list,
                t,
            )[p] == ATARI_SYMBOL && exists|q: int|
                0 <= q < t && (#[trigger] list[q]).mesh_id == id && cell_pos(n, list[q]) == p,
    decreases t,
{
    if t > 0 {
        lemma_paint_mesh(g, n, id, list, t - 1);
        let e = list[t - 1];
        lemma_pos_small(n, e.i as int, e.j as int, e.k as int);
        let prev = paint_mesh(g, n, id, list, t - 1);
        let cur = paint_mesh(g, n, id, list, t);
        assert forall|p: int| 0 <= p < g.len() && #[trigger] cur[p] != g[p] implies cur[p] == ATARI_SYMBOL
            && exists|q: int| 0 <= q < t && (#[trigger] list[q]).mesh_id == id && cell_pos(n, list[q]) == p by {
            if e.mesh_id == id && p == cell_pos(n, e) {
                assert(list[t - 1].mesh_id == id);
            } else {
                assert(cur[p] == prev[p]);
                let q = choose|q: int| 0 <= q < t - 1 && (#[trigger] list[q]).mesh_id == id && cell_pos(n, list[q])
                    == p;
                assert(list[q].mesh_id == id);
            }
        }
    }
}

proof fn lemma_paint_atari(g: Seq<u8>, n: int, meshes: Seq<MeshInfo>, cells: Seq<CellEntry>, t: int)
    requires
        0 <= n <= 255,
        0 <= t <= meshes.len(),
        forall|q: int| 0 <= q < cells.len() ==> cell_pos(n, #[trigger] cells[q]) < g.len(),
    ensures
        paint_atari(g, n, meshes, cells, t).len() == g.len(),
        forall|r: int, q: int|
            0 <= r < t && 0 <= q < cells.len() && (#[trigger] meshes[r]).in_atari && (#[trigger] cells[q]).mesh_id
                == meshes[r].id ==> paint_atari(g, n, meshes, cells, t)[cell_pos(n, cells[q])] == ATARI_SYMBOL,
        forall|p: int|
            0 <= p < g.len() && #[trigger] paint_atari(g, n, meshes, cells, t)[p] != g[p] ==> paint_atari(
                g,
                n,
                meshes,
                cells,
                t,
            )[p] == ATARI_SYMBOL && exists|r: int, q: int|
                0 <= r < t && 0 <= q < cells.len() && (#[trigger] meshes[r]).in_atari && (#[trigger] cells[q]).mesh_id
                    == meshes[r].id && cell_pos(n, cells[q]) == p,
    decreases t,
{
    if t > 0 {
        lemma_paint_atari(g, n, meshes, cells, t - 1);
        let prev = paint_atari(g, n, meshes, cells, t - 1);
        let cur = paint_atari(g, n, meshes, cells, t);
        let mr = meshes[t - 1];
        if mr.in_atari {
            lemma_paint_mesh(prev, n, mr.id, cells, cells.len() as int);
            assert forall|r: int, q: int|
                0 <= r < t && 0 <= q < cells.len() && (#[trigger] meshes[r]).in_atari && (#[trigger] cells[q]).mesh_id
                    == meshes[r].id implies cur[cell_pos(n, cells[q])] == ATARI_SYMBOL by {
                let pq = cell_pos(n, cells[q]);
                lemma_pos_small(n, cells[q].i as int, cells[q].j as int, cells[q].k as int);
                if r == t - 1 {
                } else if cur[pq] != prev[pq] {
                } else {
                }
            }
            assert forall|p: int| 0 <= p < g.len() && #[trigger] cur[p] != g[p] implies cur[p] == ATARI_SYMBOL
                && exists|r: int, q: int|
                0 <= r < t && 0 <= q < cells.len() && (#[trigger] meshes[r]).in_atari && (#[trigger] cells[q]).mesh_id
                    == meshes[r].id && cell_pos(n, cells[q]) == p by {
                if cur[p] != prev[p] {
                    let q = choose|q: int|
                        0 <= q < cells.len() && (#[trigger] cells[q]).mesh_id == mr.id && cell_pos(n, cells[q]) == p;
                    assert(meshes[t - 1].in_atari && cells[q].mesh_id == meshes[t - 1].id);
                } else {
                    let (r, q) = choose|r: int, q: int|
                        0 <= r < t - 1 && 0 <= q < cells.len() && (#[trigger] meshes[r]).in_atari && (
                        #[trigger] cells[q]).mesh_id == meshes[r].id && cell_pos(n, cells[q]) == p;
                    assert(meshes[r].in_atari && cells[q].mesh_id == meshes[r].id);
                }
            }
        }
    }
}

/// The atari marks of the symbol grid: every live cell whose mesh is in atari
/// shows `*`, and every `*` is a live cell of a mesh in atari.
pub proof fn lemma_ascii_atari(v: BoardView)
    requires
        positions_in_grid(v),
    ensures
        ascii_grid_of(v).len() == v.board_n * v.board_n * v.board_n,
        forall|r: int, q: int|
            0 <= r < v.meshes@.len() && 0 <= q < v.cells@.len() && (#[trigger] v.meshes@[r]).in_atari && (
            #[trigger] v.cells@[q]).mesh_id == v.meshes@[r].id ==> ascii_grid_of(v)[cell_pos(
                v.board_n as int,
                v.cells@[q],
            )] == ATARI_SYMBOL,
        forall|p: int|
            0 <= p < ascii_grid_of(v).len() && #[trigger] ascii_grid_of(v)[p] == ATARI_SYMBOL ==> exists|r: int, q: int|
                0 <= r < v.meshes@.len() && 0 <= q < v.cells@.len() && (#[trigger] v.meshes@[r]).in_atari && (
                #[trigger] v.cells@[q]).mesh_id == v.meshes@[r].id && cell_pos(v.board_n as int, v.cells@[q]) == p,
{
    let n = v.board_n as int;
    let blank = Seq::new((n * n * n) as nat, |p: int| EMPTY_SYMBOL);
    assert(0 <= n * n * n) by (nonlinear_arith)
        requires
            0 <= n,
    ;
    let a = paint_perma(blank, n, v.perma_dead@, v.perma_dead@.len() as int);
    let b = paint_temp(a, n, v.temp_dead@, v.temp_dead@.len() as int);
    let c = paint_live(b, n, v.cells@, v.cells@.len() as int);
    lemma_paint_perma_plain(blank, n, v.perma_dead@, v.perma_dead@.len() as int);
    lemma_paint_temp_plain(a, n, v.temp_dead@, v.temp_dead@.len() as int);
    assert forall|q: int| 0 <= q < v.cells@.len() implies cell_pos(n, #[trigger] v.cells@[q]) < b.len() by {
        assert(grid_pos(n, v.cells@[q].i as int, v.cells@[q].j as int, v.cells@[q].k as int) < n * n * n);
    }
    lemma_paint_live_plain(b, n, v.cells@, v.cells@.len() as int);
    lemma_paint_atari(c, n, v.meshes@, v.cells@, v.meshes@.len() as int);
    let g = ascii_grid_of(v);
    assert forall|p: int| 0 <= p < g.len() && #[trigger] g[p] == ATARI_SYMBOL implies exists|r: int, q: int|
        0 <= r < v.meshes@.len() && 0 <= q < v.cells@.len() && (#[trigger] v.meshes@[r]).in_atari && (
        #[trigger] v.cells@[q]).mesh_id == v.meshes@[r].id && cell_pos(n, v.cells@[q]) == p by {
        assert(c[p] != ATARI_SYMBOL);
    }
}

/// Every coordinate the snapshot lists lies inside its edge.
pub open spec fn coords_in_range(v: BoardView) -> bool {
    let n = v.board_n;
    &&& forall|q: int|
        0 <= q < v.perma_dead@.len() ==> (#[trigger] v.perma_dead@[q])@[0] < n && v.perma_dead@[q]@[1] < n
            && v.perma_dead@[q]@[2] < n
    &&& forall|q: int|
        0 <= q < v.temp_dead@.len() ==> (#[trigger] v.temp_dead@[q]).i < n && v.temp_dead@[q].j < n
            && v.temp_dead@[q].k < n
    &&& forall|q: int|
        0 <= q < v.cells@.len() ==> (#[trigger] v.cells@[q]).i < n && v.cells@[q].j < n && v.cells@[q].k < n
}

/// Every entry of the snapshot has its grid position inside the `n³` grid.
pub open spec fn positions_in_grid(v: BoardView) -> bool {
    let n = v.board_n as int;
    &&& forall|q: int|
        0 <= q < v.perma_dead@.len() ==> grid_pos(
            n,
            (#[trigger] v.perma_dead@[q])@[0] as int,
            v.perma_dead@[q]@[1] as int,
            v.perma_dead@[q]@[2] as int,
        ) < n * n * n
    &&& forall|q: int|
        0 <= q < v.temp_dead@.len() ==> grid_pos(
            n,
            (#[trigger] v.temp_dead@[q]).i as int,
            v.temp_dead@[q].j as int,
            v.temp_dead@[q].k as int,
        ) < n * n * n
    &&& forall|q: int|
        0 <= q < v.cells@.len() ==> grid_pos(
            n,
            (#[trigger] v.cells@[q]).i as int,
            v.cells@[q].j as int,
            v.cells@[q].k as int,
        ) < n * n * n
}

/// Entries inside the edge have their positions inside the grid.
pub proof fn lemma_in_range_positions(v: BoardView)
    requires
        coords_in_range(v),
    ensures
        positions_in_grid(v),
{
    let n = v.board_n as int;
    assert forall|q: int| 0 <= q < v.perma_dead@.len() implies grid_pos(
        n,
        (#[trigger] v.perma_dead@[q])@[0] as int,
        v.perma_dead@[q]@[1] as int,
        v.perma_dead@[q]@[2] as int,
    ) < n * n * n by {
        lemma_grid_pos(n, v.perma_dead@[q]@[0] as int, v.perma_dead@[q]@[1] as int, v.perma_dead@[q]@[2] as int);
    }
    assert forall|q: int| 0 <= q < v.temp_dead@.len() implies grid_pos(
        n,
        (#[trigger] v.temp_dead@[q]).i as int,
        v.temp_dead@[q].j as int,
        v.temp_dead@[q].k as int,
    ) < n * n * n by {
        lemma_grid_pos(n, v.temp_dead@[q].i as int, v.temp_dead@[q].j as int, v.temp_dead@[q].k as int);
    }
    assert forall|q: int| 0 <= q < v.cells@.len() implies grid_pos(
        n,
        (#[trigger] v.cells@[q]).i as int,
        v.cells@[q].j as int,
        v.cells@[q].k as int,
    ) < n * n * n by {
        lemma_grid_pos(n, v.cells@[q].i as int, v.cells@[q].j as int, v.cells@[q].k as int);
    }
}

/// A position of byte coordinates on an edge of at most 255 is a small
/// non-negative number.
pub(crate) proof fn lemma_pos_small(n: int, i: int, j: int, k: int)
    requires
        0 <= n <= 255,
        0 <= i <= 255,
        0 <= j <= 255,
        0 <= k <= 255,
    ensures
        0 <= n * k <= 65025,
        0 <= n * (j + n * k) <= 16646400,
        0 <= grid_pos(n, i, j, k) <= 16646655,
{
    assert(0 <= n * k <= 65025 && 0 <= n * (j + n * k) <= 16646400) by (nonlinear_arith)
        requires
            0 <= n <= 255,
            0 <= j <= 255,
            0 <= k <= 255,
    ;
}

/// A position inside the edge lies inside the grid.
proof fn lemma_grid_pos(n: int, i: int, j: int, k: int)
    requires
        0 <= i < n,
        0 <= j < n,
        0 <= k < n,
    ensures
        0 <= grid_pos(n, i, j, k) < n * n * n,
        0 <= n * k < n * n,
        0 <= n * (j + n * k) <= n * n * n - n,
{
    assert(0 <= i + n * (j + n * k) < n * n * n && 0 <= n * k < n * n && 0 <= n * (j + n * k) <= n * n * n - n)
        by (nonlinear_arith)
        requires
            0 <= i < n,
            0 <= j < n,
            0 <= k < n,
    ;
}

/// The symbol byte of a live cell of `slot`.
fn slot_symbol_byte(slot: u8) -> (b: u8)
    ensures
        b == slot_symbol(slot),
{
    match slot {
        0 => 83,
        1 => 76,
        2 => 86,
        3 => 75,
        _ => 63,
    }
}

impl BoardView {
    /// The lattice as symbol bytes indexed `i + n·(j + n·k)`: `.` empty, `X`
    /// perma-dead, `t` smouldering, `S/L/V/K` live by slot, `*` a cell of a
    /// mesh in atari.
    pub fn ascii_grid(&self) -> (grid: Vec<u8>)
        requires
            positions_in_grid(*self),
        ensures
            grid@ == ascii_grid_of(*self),
            forall|r: int, q: int|
                0 <= r < self.meshes@.len() && 0 <= q < self.cells@.len() && (#[trigger] self.meshes@[r]).in_atari
                    && (#[trigger] self.cells@[q]).mesh_id == self.meshes@[r].id ==> grid@[cell_pos(
                    self.board_n as int,
                    self.cells@[q],
                )] == ATARI_SYMBOL,
            forall|p: int|
                0 <= p < grid@.len() && #[trigger] grid@[p] == ATARI_SYMBOL ==> exists|r: int, q: int|
                    0 <= r < self.meshes@.len() && 0 <= q < self.cells@.len() && (#[trigger] self.meshes@[r]).in_atari
                        && (#[trigger] self.cells@[q]).mesh_id == self.meshes@[r].id && cell_pos(
                        self.board_n as int,
                        self.cells@[q],
                    ) == p,
    {
        proof {
            lemma_ascii_atari(*self);
        }
        let n = self.board_n as usize;
        let ghost ni = n as int;
        assert(n * n <= 65025 && n * n * n <= 16581375) by (nonlinear_arith)
            requires
                n <= 255,
        ;
        let total = n * n * n;
        let mut grid: Vec<u8> = Vec::new();
        let mut p: usize = 0;
        while p < total
            invariant
                p <= total,
                grid@ =~= Seq::new(p as nat, |x: int| EMPTY_SYMBOL),
            decreases total - p,
        {
            grid.push(EMPTY_SYMBOL);
            p += 1;
        }
        let mut q: usize = 0;
        while q < self.perma_dead.len()
            invariant
                positions_in_grid(*self),
                n == self.board_n,
                ni == n as int,
                n * n <= 65025,
                total == n * n * n,
                total <= 16581375,
                q <= self.perma_dead@.len(),
                grid@ == paint_perma(Seq::new(total as nat, |x: int| EMPTY_SYMBOL), ni, self.perma_dead@, q as int),
                grid@.len() == total,
            decreases self.perma_dead@.len() - q,
        {
            let e = self.perma_dead[q];
            proof {
                lemma_pos_small(ni, e@[0] as int, e@[1] as int, e@[2] as int);
            }
            let pos = e[0] as usize + n * (e[1] as usize + n * e[2] as usize);
            grid.set(pos, PERMA_SYMBOL);
            q += 1;
        }
        let ghost after_perma = grid@;
        let mut q: usize = 0;
        while q < self.temp_dead.len()
            invariant
                positions_in_grid(*self),
                n == self.board_n,
                ni == n as int,
                n * n <= 65025,
                total == n * n * n,
                total <= 16581375,
                q <= self.temp_dead@.len(),
                grid@ == paint_temp(after_perma, ni, self.temp_dead@, q as int),
                grid@.len() == total,
            decreases self.temp_dead@.len() - q,
        {
            let e = &self.temp_dead[q];
            proof {
                lemma_pos_small(ni, e.i as int, e.j as int, e.k as int);
            }
            let pos = e.i as usize + n * (e.j as usize + n * e.k as usize);
            grid.set(pos, TEMP_SYMBOL);
            q += 1;
        }
        let ghost after_temp = grid@;
        let mut q: usize = 0;
        while q < self.cells.len()
            invariant
                positions_in_grid(*self),
                n == self.board_n,
                ni == n as int,
                n * n <= 65025,
                total == n * n * n,
                total <= 16581375,
                q <= self.cells@.len(),
                grid@ == paint_live(after_temp, ni, self.cells@, q as int),
                grid@.len() == total,
            decreases self.cells@.len() - q,
        {
            let e = &self.cells[q];
            proof {
                lemma_pos_small(ni, e.i as int, e.j as int, e.k as int);
            }
            let pos = e.i as usize + n * (e.j as usize + n * e.k as usize);
            grid.set(pos, slot_symbol_byte(e.slot_id));
            q += 1;
        }
        let ghost after_live = grid@;
        let mut q: usize = 0;
        while q < self.meshes.len()
            invariant
                positions_in_grid(*self),
                n == self.board_n,
                ni == n as int,
                n * n <= 65025,
                total == n * n * n,
                total <= 16581375,
                q <= self.meshes@.len(),
                grid@ == paint_atari(after_live, ni, self.meshes@, self.cells@, q as int),
                grid@.len() == total,
            decreases self.meshes@.len() - q,
        {
            if self.meshes[q].in_atari {
                let id = self.meshes[q].id;
                let ghost before = grid@;
                let mut t: usize = 0;
                while t < self.cells.len()
                    invariant
                        positions_in_grid(*self),
                        n == self.board_n,
                        ni == n as int,
                        n * n <= 65025,
                        total == n * n * n,
                        total <= 16581375,
                        t <= self.cells@.len(),
                        grid@ == paint_mesh(before, ni, id, self.cells@, t as int),
                        grid@.len() == total,
                    decreases self.cells@.len() - t,
                {
                    let e = &self.cells[t];
                    if e.mesh_id == id {
                        proof {
                            lemma_pos_small(ni, e.i as int, e.j as int, e.k as int);
                        }
                        let pos = e.i as usize + n * (e.j as usize + n * e.k as usize);
                        grid.set(pos, ATARI_SYMBOL);
                    }
                    t += 1;
                }
            }
            q += 1;
        }
        grid
    }
}


impl BoardView {
    /// Whether every entry's grid position lies inside the `n³` grid.
    pub fn positions_ok(&self) -> (r: bool)
        ensures
            r == positions_in_grid(*self),
    {
        let n = self.board_n as usize;
        let ghost ni = n as int;
        assert(n * n <= 65025 && n * n * n <= 16581375) by (nonlinear_arith)
            requires
                n <= 255,
        ;
        let total = n * n * n;
        let mut q: usize = 0;
        while q < self.perma_dead.len()
            invariant
                n == self.board_n,
                ni == n as int,
                total == n * n * n,
                q <= self.perma_dead@.len(),
                forall|p: int|
                    0 <= p < q ==> grid_pos(
                        ni,
                        (#[trigger] self.perma_dead@[p])@[0] as int,
                        self.perma_dead@[p]@[1] as int,
                        self.perma_dead@[p]@[2] as int,
                    ) < ni * ni * ni,
            decreases self.perma_dead@.len() - q,
        {
            let e = self.perma_dead[q];
            proof {
                lemma_pos_small(ni, e@[0] as int, e@[1] as int, e@[2] as int);
            }
            let pos = e[0] as usize + n * (e[1] as usize + n * e[2] as usize);
            if pos >= total {
                return false;
            }
            q += 1;
        }
        let mut q: usize = 0;
        while q < self.temp_dead.len()
            invariant
                n == self.board_n,
                ni == n as int,
                total == n * n * n,
                q <= self.temp_dead@.len(),
                forall|p: int|
                    0 <= p < self.perma_dead@.len() ==> grid_pos(
                        ni,
                        (#[trigger] self.perma_dead@[p])@[0] as int,
                        self.perma_dead@[p]@[1] as int,
                        self.perma_dead@[p]@[2] as int,
                    ) < ni * ni * ni,
                forall|p: int|
                    0 <= p < q ==> grid_pos(
                        ni,
                        (#[trigger] self.temp_dead@[p]).i as int,
                        self.temp_dead@[p].j as int,
                        self.temp_dead@[p].k as int,
                    ) < ni * ni * ni,
            decreases self.temp_dead@.len() - q,
        {
            let e = &self.temp_dead[q];
            proof {
                lemma_pos_small(ni, e.i as int, e.j as int, e.k as int);
            }
            let pos = e.i as usize + n * (e.j as usize + n * e.k as usize);
            if pos >= total {
                return false;
            }
            q += 1;
        }
        let mut q: usize = 0;
        while q < self.cells.len()
            invariant
                n == self.board_n,
                ni == n as int,
                total == n * n * n,
                q <= self.cells@.len(),
                forall|p: int|
                    0 <= p < self.perma_dead@.len() ==> grid_pos(
                        ni,
                        (#[trigger] self.perma_dead@[p])@[0] as int,
                        self.perma_dead@[p]@[1] as int,
                        self.perma_dead@[p]@[2] as int,
                    ) < ni * ni * ni,
                forall|p: int|
                    0 <= p < self.temp_dead@.len() ==> grid_pos(
                        ni,
                        (#[trigger] self.temp_dead@[p]).i as int,
                        self.temp_dead@[p].j as int,
                        self.temp_dead@[p].k as int,
                    ) < ni * ni * ni,
                forall|p: int|
                    0 <= p < q ==> grid_pos(
                        ni,
                        (#[trigger] self.cells@[p]).i as int,
                        self.cells@[p].j as int,
                        self.cells@[p].k as int,
                    ) < ni * ni * ni,
            decreases self.cells@.len() - q,
        {
            let e = &self.cells[q];
            proof {
                lemma_pos_small(ni, e.i as int, e.j as int, e.k as int);
            }
            let pos = e.i as usize + n * (e.j as usize + n * e.k as usize);
            if pos >= total {
                return false;
            }
            q += 1;
        }
        true
    }
}

} // verus!
