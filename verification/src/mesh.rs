//! Connected components ("meshes") of the board under face adjacency.
//!
//! A flood fill walks from a start cell through the cells a mask admits; the
//! mesh of a `Live` cell is its component among the cells of its own steward.
use vstd::prelude::*;

use crate::board::{
    is_neighbor_list, lemma_adjacent_symmetric, lemma_neighbor_list_distinct, Board, BoardModel,
    CellState, Steward,
};
use crate::neighbor_list::{neighbor_items, neighbor_list_as_slice};

verus! {

/// The cells reachable from `start` in at most `steps` adjacency steps, every
/// step landing on a cell the mask admits.
pub open spec fn reach(m: BoardModel, mask: Seq<bool>, start: int, steps: nat) -> Set<int>
    decreases steps,
{
    if steps == 0 {
        set![start]
    } else {
        let prev = reach(m, mask, start, (steps - 1) as nat);
        prev.union(
            Set::new(
                |b: int|
                    0 <= b < m.len() && mask[b] && exists|a: int| #[trigger]
                        prev.contains(a) && m.adjacent(a, b),
            ),
        )
    }
}

/// `x` is reachable from `start` through cells the mask admits.
pub open spec fn connected(m: BoardModel, mask: Seq<bool>, start: int, x: int) -> bool {
    exists|k: nat| #[trigger] reach(m, mask, start, k).contains(x)
}

/// Number of `false` entries.
pub open spec fn count_false(s: Seq<bool>) -> nat
    decreases s.len(),
{
    if s.len() == 0 {
        0
    } else {
        count_false(s.drop_last()) + if s.last() {
            0nat
        } else {
            1nat
        }
    }
}

proof fn lemma_count_false_update(s: Seq<bool>, i: int)
    requires
        0 <= i < s.len(),
        !s[i],
    ensures
        count_false(s.update(i, true)) + 1 == count_false(s),
    decreases s.len(),
{
    if i < s.len() - 1 {
        assert(s.update(i, true).drop_last() =~= s.drop_last().update(i, true));
        lemma_count_false_update(s.drop_last(), i);
    } else {
        assert(s.update(i, true).drop_last() =~= s.drop_last());
    }
}

/// Every cell of a reach layer is the start or a cell the mask admits.
proof fn lemma_reach_members(m: BoardModel, mask: Seq<bool>, start: int, k: nat, x: int)
    requires
        reach(m, mask, start, k).contains(x),
    ensures
        x == start || (0 <= x < m.len() && mask[x]),
    decreases k,
{
    if k > 0 && reach(m, mask, start, (k - 1) as nat).contains(x) {
        lemma_reach_members(m, mask, start, (k - 1) as nat, x);
    }
}

/// Reach layers only grow.
proof fn lemma_reach_mono(m: BoardModel, mask: Seq<bool>, start: int, k1: nat, k2: nat, x: int)
    requires
        k1 <= k2,
        reach(m, mask, start, k1).contains(x),
    ensures
        reach(m, mask, start, k2).contains(x),
    decreases k2,
{
    if k1 < k2 {
        lemma_reach_mono(m, mask, start, k1, (k2 - 1) as nat, x);
    }
}

/// A set that holds `start` and is closed under admitted adjacency holds every
/// reach layer.
proof fn lemma_reach_within_closed(
    m: BoardModel,
    mask: Seq<bool>,
    start: int,
    seen: Seq<bool>,
    k: nat,
    x: int,
)
    requires
        seen.len() == m.len(),
        0 <= start < m.len(),
        seen[start],
        forall|a: int, b: int|
            0 <= a < m.len() && #[trigger] seen[a] && #[trigger] m.adjacent(a, b) && mask[b]
                ==> seen[b],
        reach(m, mask, start, k).contains(x),
    ensures
        0 <= x < m.len() && seen[x],
    decreases k,
{
    if k > 0 && !reach(m, mask, start, (k - 1) as nat).contains(x) {
        let prev = reach(m, mask, start, (k - 1) as nat);
        let a = choose|a: int| #[trigger] prev.contains(a) && m.adjacent(a, x);
        lemma_reach_within_closed(m, mask, start, seen, (k - 1) as nat, a);
    } else if k > 0 {
        lemma_reach_within_closed(m, mask, start, seen, (k - 1) as nat, x);
    }
}

/// Flood fill: marks exactly the cells connected to `start` through cells the
/// mask admits (plus `start` itself).
pub fn flood_fill(board: &Board, mask: &Vec<bool>, start: usize) -> (seen: Vec<bool>)
    requires
        board.wf(),
        mask@.len() == board@.len(),
        start < board@.len(),
    ensures
        seen@.len() == board@.len(),
        forall|x: int| 0 <= x < board@.len() ==> (#[trigger] seen@[x] <==> connected(board@, mask@, start as int, x)),
{
    let len = board.len();
    let ghost m = board@;
    let mut seen: Vec<bool> = vec![false; len];
    let mut stack: Vec<usize> = Vec::new();
    seen.set(start, true);
    stack.push(start);
    proof {
        assert(reach(m, mask@, start as int, 0).contains(start as int));
        assert(stack@[0] == start);
        assert forall|a: int| 0 <= a < len && #[trigger] seen@[a] implies a == start by {}
    }
    while stack.len() > 0
        invariant
            board.wf(),
            m == board@,
            len == m.len(),
            mask@.len() == len,
            start < len,
            seen@.len() == len,
            seen@[start as int],
            stack@.no_duplicates(),
            forall|q: int| 0 <= q < stack@.len() ==> #[trigger] stack@[q] < len && seen@[stack@[q] as int],
            forall|x: int| 0 <= x < len && #[trigger] seen@[x] ==> connected(m, mask@, start as int, x),
            forall|a: int, b: int|
                0 <= a < len && #[trigger] seen@[a] && !stack@.contains(a as usize) && #[trigger] m.adjacent(a, b)
                    && mask@[b] ==> seen@[b],
        decreases 2 * count_false(seen@) + stack@.len(),
    {
        let ghost before = stack@;
        let ghost measure0 = 2 * count_false(seen@) + before.len();
        let cur = stack.pop().unwrap();
        proof {
            assert(stack@.push(cur) =~= before);
            assert(!stack@.contains(cur)) by {
                if stack@.contains(cur) {
                    let q = choose|q: int| 0 <= q < stack@.len() && stack@[q] == cur;
                    assert(before[q] == cur && before[before.len() - 1] == cur);
                }
            }
        }
        let nbs = board.neighbors(cur);
        let sl = neighbor_list_as_slice(&nbs);
        proof {
            lemma_neighbor_list_distinct(m, cur as int, sl@);
        }
        let mut t: usize = 0;
        while t < sl.len()
            invariant
                board.wf(),
                m == board@,
                len == m.len(),
                mask@.len() == len,
                start < len,
                cur < len,
                seen@.len() == len,
                seen@[start as int],
                seen@[cur as int],
                is_neighbor_list(m, cur as int, sl@),
                t <= sl@.len(),
                stack@.no_duplicates(),
                !stack@.contains(cur),
                forall|q: int| 0 <= q < stack@.len() ==> #[trigger] stack@[q] < len && seen@[stack@[q] as int],
                forall|x: int| 0 <= x < len && #[trigger] seen@[x] ==> connected(m, mask@, start as int, x),
                forall|a: int, b: int|
                    0 <= a < len && #[trigger] seen@[a] && a != cur && !stack@.contains(a as usize)
                        && #[trigger] m.adjacent(a, b) && mask@[b] ==> seen@[b],
                forall|q: int| 0 <= q < t && mask@[sl@[q] as int] ==> seen@[#[trigger] sl@[q] as int],
                2 * count_false(seen@) + stack@.len() < measure0,
            decreases sl@.len() - t,
        {
            let nb = sl[t];
            assert(m.adjacent(cur as int, nb as int));
            let ghost seen_before = seen@;
            if !seen[nb] && mask[nb] {
                let ghost old_seen = seen@;
                let ghost old_stack = stack@;
                proof {
                    let k = choose|k: nat| #[trigger] reach(m, mask@, start as int, k).contains(cur as int);
                    let prev = reach(m, mask@, start as int, k);
                    assert(prev.contains(cur as int) && m.adjacent(cur as int, nb as int));
                    assert(reach(m, mask@, start as int, k + 1).contains(nb as int));
                    lemma_count_false_update(seen@, nb as int);
                }
                seen.set(nb, true);
                stack.push(nb);
                proof {
                    assert forall|q: int| 0 <= q < stack@.len() implies #[trigger] stack@[q] < len && seen@[stack@[q] as int] by {
                        if q < old_stack.len() {
                            assert(stack@[q] == old_stack[q]);
                        }
                    }
                    assert(!old_stack.contains(nb)) by {
                        if old_stack.contains(nb) {
                            let q = choose|q: int| 0 <= q < old_stack.len() && old_stack[q] == nb;
                            assert(old_seen[nb as int]);
                        }
                    }
                    assert forall|a: int, b: int|
                        0 <= a < len && #[trigger] seen@[a] && a != cur && !stack@.contains(a as usize)
                            && #[trigger] m.adjacent(a, b) && mask@[b] implies seen@[b] by {
                        assert(stack@[stack@.len() - 1] == nb);
                        if a != nb {
                            assert(old_seen[a]);
                            assert(!old_stack.contains(a as usize)) by {
                                if old_stack.contains(a as usize) {
                                    let q = choose|q: int| 0 <= q < old_stack.len() && old_stack[q] == a as usize;
                                    assert(stack@[q] == a as usize);
                                }
                            }
                        }
                    }
                    assert(!stack@.contains(cur)) by {
                        if stack@.contains(cur) {
                            let q = choose|q: int| 0 <= q < stack@.len() && stack@[q] == cur;
                            if q < old_stack.len() {
                                assert(old_stack[q] == cur);
                            }
                        }
                    }
                }
            }
            assert(forall|x: int| 0 <= x < len && seen_before[x] ==> #[trigger] seen@[x]);
            assert(nb == sl@[t as int]);
            assert(mask@[nb as int] ==> seen@[nb as int]);
            assert forall|q: int| 0 <= q < t + 1 && mask@[sl@[q] as int] implies seen@[#[trigger] sl@[q] as int] by {
                if q < t {
                    assert(seen_before[sl@[q] as int]);
                    assert(m.adjacent(cur as int, sl@[q] as int));
                }
            }
            t += 1;
        }
        proof {
            assert forall|a: int, b: int|
                0 <= a < len && #[trigger] seen@[a] && !stack@.contains(a as usize) && #[trigger] m.adjacent(a, b)
                    && mask@[b] implies seen@[b] by {
                if a == cur {
                    assert(sl@.contains(b as usize));
                    let q = choose|q: int| 0 <= q < sl@.len() && sl@[q] == b as usize;
                    assert(mask@[sl@[q] as int]);
                }
            }
        }
    }
    proof {
        assert forall|x: int| 0 <= x < len && connected(m, mask@, start as int, x) implies #[trigger] seen@[x] by {
            let k = choose|k: nat| #[trigger] reach(m, mask@, start as int, k).contains(x);
            lemma_reach_within_closed(m, mask@, start as int, seen@, k, x);
        }
    }
    seen
}


/// Composing two reach walks.
proof fn lemma_reach_trans(
    m: BoardModel,
    mask: Seq<bool>,
    a: int,
    b: int,
    c: int,
    k1: nat,
    k2: nat,
)
    requires
        reach(m, mask, a, k1).contains(b),
        reach(m, mask, b, k2).contains(c),
    ensures
        reach(m, mask, a, k1 + k2).contains(c),
    decreases k2,
{
    if k2 > 0 {
        let prev = reach(m, mask, b, (k2 - 1) as nat);
        if prev.contains(c) {
            lemma_reach_trans(m, mask, a, b, c, k1, (k2 - 1) as nat);
            lemma_reach_mono(m, mask, a, (k1 + k2 - 1) as nat, k1 + k2, c);
        } else {
            let p = choose|p: int| #[trigger] prev.contains(p) && m.adjacent(p, c);
            lemma_reach_trans(m, mask, a, b, p, k1, (k2 - 1) as nat);
            let prev_a = reach(m, mask, a, (k1 + k2 - 1) as nat);
            assert(prev_a.contains(p) && m.adjacent(p, c));
        }
    }
}

/// Connection is transitive.
pub proof fn lemma_connected_trans(m: BoardModel, mask: Seq<bool>, a: int, b: int, c: int)
    requires
        connected(m, mask, a, b),
        connected(m, mask, b, c),
    ensures
        connected(m, mask, a, c),
{
    let k1 = choose|k: nat| #[trigger] reach(m, mask, a, k).contains(b);
    let k2 = choose|k: nat| #[trigger] reach(m, mask, b, k).contains(c);
    lemma_reach_trans(m, mask, a, b, c, k1, k2);
}

/// Walks can be reversed when the start is admitted by the mask.
proof fn lemma_reach_symm(m: BoardModel, mask: Seq<bool>, a: int, x: int, k: nat)
    requires
        0 <= a < m.len(),
        mask.len() == m.len(),
        mask[a],
        reach(m, mask, a, k).contains(x),
    ensures
        connected(m, mask, x, a),
    decreases k,
{
    if k == 0 {
        assert(reach(m, mask, x, 0).contains(a));
    } else {
        let prev = reach(m, mask, a, (k - 1) as nat);
        if prev.contains(x) {
            lemma_reach_symm(m, mask, a, x, (k - 1) as nat);
        } else {
            let p = choose|p: int| #[trigger] prev.contains(p) && m.adjacent(p, x);
            lemma_reach_symm(m, mask, a, p, (k - 1) as nat);
            lemma_reach_members(m, mask, a, (k - 1) as nat, p);
            lemma_adjacent_symmetric(m.coords[p], m.coords[x]);
            let prev_x = reach(m, mask, x, 0);
            assert(prev_x.contains(x) && m.adjacent(x, p));
            assert(reach(m, mask, x, 1).contains(p));
            lemma_connected_trans(m, mask, x, p, a);
        }
    }
}

/// Connection is symmetric between admitted cells.
pub proof fn lemma_connected_symm(m: BoardModel, mask: Seq<bool>, a: int, x: int)
    requires
        0 <= a < m.len(),
        mask.len() == m.len(),
        mask[a],
        connected(m, mask, a, x),
    ensures
        connected(m, mask, x, a),
{
    let k = choose|k: nat| #[trigger] reach(m, mask, a, k).contains(x);
    lemma_reach_symm(m, mask, a, x, k);
}

/// Every cell connected to `start` is `start` or admitted by the mask.
pub proof fn lemma_connected_members(m: BoardModel, mask: Seq<bool>, start: int, x: int)
    requires
        connected(m, mask, start, x),
    ensures
        x == start || (0 <= x < m.len() && mask[x]),
{
    let k = choose|k: nat| #[trigger] reach(m, mask, start, k).contains(x);
    lemma_reach_members(m, mask, start, k, x);
}

/// Every cell is connected to itself.
pub proof fn lemma_connected_refl(m: BoardModel, mask: Seq<bool>, start: int)
    ensures
        connected(m, mask, start, start),
{
    assert(reach(m, mask, start, 0).contains(start));
}

/// The cells owned, live, by steward `s`.
pub open spec fn live_mask(m: BoardModel, s: Steward) -> Seq<bool> {
    Seq::new(m.len(), |b: int| m.cells[b] == CellState::Live(s))
}

/// `x` lies in the mesh of cell `idx`: `idx` is live and `x` is connected to
/// it through cells of the same steward.
pub open spec fn in_mesh(m: BoardModel, idx: int, x: int) -> bool {
    &&& 0 <= idx < m.len()
    &&& 0 <= x < m.len()
    &&& m.cells[idx] matches CellState::Live(s)
    &&& connected(m, live_mask(m, s), idx, x)
}

/// A mesh is the equivalence class of its cells: every member of the mesh
/// of `x` is live in the same colour, and has the very same mesh.
pub proof fn lemma_mesh_equivalence(m: BoardModel, x: int, y: int, z: int)
    requires
        in_mesh(m, x, y),
    ensures
        m.cells[y] == m.cells[x],
        in_mesh(m, y, x),
        in_mesh(m, y, z) == in_mesh(m, x, z),
{
    let s = m.cells[x]->Live_0;
    let mask = live_mask(m, s);
    lemma_connected_members(m, mask, x, y);
    lemma_connected_symm(m, mask, x, y);
    if in_mesh(m, y, z) {
        lemma_connected_trans(m, mask, x, y, z);
    }
    if in_mesh(m, x, z) {
        lemma_connected_trans(m, mask, y, x, z);
    }
}

/// Number of `true` entries.
pub open spec fn count_true(s: Seq<bool>) -> nat
    decreases s.len(),
{
    if s.len() == 0 {
        0
    } else {
        count_true(s.drop_last()) + if s.last() {
            1nat
        } else {
            0nat
        }
    }
}

/// A sequence with no `true` entry counts zero.
pub proof fn lemma_count_true_none(s: Seq<bool>)
    requires
        forall|x: int| 0 <= x < s.len() ==> !#[trigger] s[x],
    ensures
        count_true(s) == 0,
    decreases s.len(),
{
    if s.len() > 0 {
        lemma_count_true_none(s.drop_last());
    }
}

/// Number of cells in the mesh of `idx` (zero when `idx` is not live).
pub open spec fn mesh_size(m: BoardModel, idx: int) -> nat {
    count_true(Seq::new(m.len(), |x: int| in_mesh(m, idx, x)))
}

/// Whether `s` is strictly increasing.
pub open spec fn strictly_sorted(s: Seq<usize>) -> bool {
    forall|a: int, b: int| 0 <= a < b < s.len() ==> s[a] < s[b]
}

/// The indices of the marked entries, ascending.
pub fn marked_indices(marks: &Vec<bool>) -> (out: Vec<usize>)
    ensures
        strictly_sorted(out@),
        forall|x: int| 0 <= x < marks@.len() ==> (out@.contains(x as usize) <==> #[trigger] marks@[x]),
        forall|q: int| 0 <= q < out@.len() ==> #[trigger] out@[q] < marks@.len(),
        out@.len() == count_true(marks@),
{
    let mut out: Vec<usize> = Vec::new();
    let mut i: usize = 0;
    while i < marks.len()
        invariant
            i <= marks@.len(),
            strictly_sorted(out@),
            forall|q: int| 0 <= q < out@.len() ==> #[trigger] out@[q] < i,
            forall|x: int| 0 <= x < i ==> (out@.contains(x as usize) <==> #[trigger] marks@[x]),
            out@.len() == count_true(marks@.take(i as int)),
        decreases marks@.len() - i,
    {
        assert(marks@.take(i + 1).drop_last() =~= marks@.take(i as int));
        if marks[i] {
            let ghost old_out = out@;
            out.push(i);
            proof {
                assert forall|x: int| 0 <= x < i + 1 implies (out@.contains(x as usize) <==> #[trigger] marks@[x]) by {
                    if x < i {
                        if old_out.contains(x as usize) {
                            let q = choose|q: int| 0 <= q < old_out.len() && old_out[q] == x as usize;
                            assert(out@[q] == x as usize);
                        }
                        if out@.contains(x as usize) {
                            let q = choose|q: int| 0 <= q < out@.len() && out@[q] == x as usize;
                            if q < old_out.len() {
                                assert(old_out[q] == x as usize);
                            }
                        }
                    } else {
                        assert(out@[out@.len() - 1] == i);
                    }
                }
            }
        } else {
            proof {
                assert forall|x: int| 0 <= x < i + 1 implies (out@.contains(x as usize) <==> #[trigger] marks@[x]) by {
                    if x == i && out@.contains(x as usize) {
                        let q = choose|q: int| 0 <= q < out@.len() && out@[q] == x as usize;
                        assert(out@[q] < i);
                    }
                }
            }
        }
        i += 1;
    }
    assert(marks@.take(marks@.len() as int) =~= marks@);
    out
}

impl Board {
    /// The live-mask of steward `s`, computed.
    pub(crate) fn live_mask_of(&self, s: Steward) -> (mask: Vec<bool>)
        requires
            self.wf(),
        ensures
            mask@ == live_mask(self@, s),
    {
        let len = self.len();
        let mut mask: Vec<bool> = Vec::new();
        let mut i: usize = 0;
        while i < len
            invariant
                self.wf(),
                len == self@.len(),
                i <= len,
                mask@ =~= live_mask(self@, s).take(i as int),
            decreases len - i,
        {
            mask.push(self.get(i) == CellState::Live(s));
            i += 1;
        }
        mask
    }

    /// True when `a` and `b` are face-adjacent cells.
    pub fn adjacent(&self, a: usize, b: usize) -> (r: bool)
        requires
            self.wf(),
            a < self@.len(),
        ensures
            r == self@.adjacent(a as int, b as int),
    {
        let nbs = self.neighbors(a);
        let sl = neighbor_list_as_slice(&nbs);
        let mut t: usize = 0;
        while t < sl.len()
            invariant
                is_neighbor_list(self@, a as int, sl@),
                t <= sl@.len(),
                forall|q: int| 0 <= q < t ==> sl@[q] != b,
            decreases sl@.len() - t,
        {
            if sl[t] == b {
                assert(self@.adjacent(a as int, sl@[t as int] as int));
                return true;
            }
            t += 1;
        }
        proof {
            if self@.adjacent(a as int, b as int) {
                assert(sl@.contains(b));
            }
        }
        false
    }

    /// Count of empty (placeable) cells.
    pub fn empty_count(&self) -> (r: usize)
        requires
            self.wf(),
        ensures
            r == self@.empty_count(),
    {
        let len = self.len();
        let mut count: usize = 0;
        let mut i: usize = 0;
        while i < len
            invariant
                self.wf(),
                len == self@.len(),
                i <= len,
                count == self@.cells.take(i as int).filter(|c: CellState| c == CellState::Empty).len(),
                count <= i,
            decreases len - i,
        {
            proof {
                let pred = |c: CellState| c == CellState::Empty;
                assert(self@.cells.take(i + 1).drop_last() =~= self@.cells.take(i as int));
                reveal(Seq::filter);
            }
            if self.get(i) == CellState::Empty {
                count += 1;
            }
            i += 1;
        }
        assert(self@.cells.take(len as int) =~= self@.cells);
        count
    }

    /// The connected component of same-steward `Live` cells containing `idx`,
    /// sorted ascending. Empty if `idx` is not `Live`.
    pub fn mesh_containing(&self, idx: usize) -> (mesh: Vec<usize>)
        requires
            self.wf(),
            idx < self@.len(),
        ensures
            strictly_sorted(mesh@),
            forall|q: int| 0 <= q < mesh@.len() ==> #[trigger] mesh@[q] < self@.len(),
            forall|x: int| 0 <= x < self@.len() ==> (mesh@.contains(x as usize) <==> #[trigger] in_mesh(self@, idx as int, x)),
            !(self@.cells[idx as int] is Live) ==> mesh@.len() == 0,
            mesh@.len() == mesh_size(self@, idx as int),
    {
        let steward = match self.get(idx) {
            CellState::Live(s) => s,
            _ => {
                proof {
                    lemma_count_true_none(Seq::new(self@.len(), |x: int| in_mesh(self@, idx as int, x)));
                }
                return Vec::new();
            },
        };
        let mask = self.live_mask_of(steward);
        let seen = flood_fill(self, &mask, idx);
        let out = marked_indices(&seen);
        proof {
            assert forall|x: int| 0 <= x < self@.len() implies (out@.contains(x as usize) <==> #[trigger] in_mesh(self@, idx as int, x)) by {
                assert(seen@[x] <==> connected(self@, mask@, idx as int, x));
            }
            assert(seen@ =~= Seq::new(self@.len(), |x: int| in_mesh(self@, idx as int, x)));
        }
        out
    }

    /// All meshes belonging to `steward`, each component sorted ascending, the
    /// outer list ordered by smallest cell index (stable mesh ids).
    pub fn meshes_of(&self, steward: Steward) -> (out: Vec<Vec<usize>>)
        requires
            self.wf(),
        ensures
            forall|t: int| 0 <= t < out@.len() ==> #[trigger] is_mesh_listing(self@, out@[t]@, steward),
            forall|t1: int, t2: int| 0 <= t1 < t2 < out@.len() ==> #[trigger] out@[t1]@[0] < #[trigger] out@[t2]@[0],
            forall|x: int|
                0 <= x < self@.len() && #[trigger] self@.cells[x] == CellState::Live(steward)
                    ==> exists|t: int| 0 <= t < out@.len() && #[trigger] out@[t]@.contains(x as usize),
    {
        let len = self.len();
        let ghost m = self@;
        let mut visited: Vec<bool> = vec![false; len];
        let mut out: Vec<Vec<usize>> = Vec::new();
        let mut idx: usize = 0;
        while idx < len
            invariant
                self.wf(),
                m == self@,
                len == m.len(),
                idx <= len,
                visited@.len() == len,
                forall|t: int| 0 <= t < out@.len() ==> #[trigger] is_mesh_listing(m, out@[t]@, steward),
                forall|t: int| 0 <= t < out@.len() ==> #[trigger] out@[t]@[0] < idx,
                forall|t1: int, t2: int| 0 <= t1 < t2 < out@.len() ==> #[trigger] out@[t1]@[0] < #[trigger] out@[t2]@[0],
                forall|x: int|
                    0 <= x < len ==> (#[trigger] visited@[x] <==> exists|t: int|
                        0 <= t < out@.len() && #[trigger] out@[t]@.contains(x as usize)),
                forall|x: int| 0 <= x < idx && #[trigger] m.cells[x] == CellState::Live(steward) ==> visited@[x],
            decreases len - idx,
        {
            if visited[idx] {
                idx += 1;
                continue;
            }
            if self.get(idx) == CellState::Live(steward) {
                let comp = self.mesh_containing(idx);
                proof {
                    lemma_connected_refl(m, live_mask(m, steward), idx as int);
                    assert(in_mesh(m, idx as int, idx as int));
                    assert(comp@.contains(idx));
                    // No earlier cell belongs to this mesh: it would have been visited,
                    // and its mesh would already hold `idx`.
                    assert forall|y: int| 0 <= y < len && in_mesh(m, idx as int, y) implies y >= idx by {
                        if y < idx {
                            lemma_mesh_equivalence(m, idx as int, y, idx as int);
                            assert(visited@[y]);
                            let t = choose|t: int| 0 <= t < out@.len() && #[trigger] out@[t]@.contains(y as usize);
                            let first = out@[t]@[0] as int;
                            assert(is_mesh_listing(m, out@[t]@, steward));
                            assert(in_mesh(m, first, y));
                            lemma_mesh_equivalence(m, first, y, idx as int);
                            lemma_mesh_equivalence(m, y, idx as int, idx as int);
                            assert(in_mesh(m, first, idx as int));
                            assert(out@[t]@.contains(idx));
                        }
                    }
                    let q = choose|q: int| 0 <= q < comp@.len() && comp@[q] == idx;
                    if q > 0 {
                        assert(comp@[0] < comp@[q]);
                        assert(in_mesh(m, idx as int, comp@[0] as int));
                    }
                    assert(comp@[0] == idx);
                }
                let mut t: usize = 0;
                let ghost visited0 = visited@;
                while t < comp.len()
                    invariant
                        visited@.len() == len,
                        t <= comp@.len(),
                        forall|q: int| 0 <= q < comp@.len() ==> #[trigger] comp@[q] < len,
                        forall|x: int|
                            0 <= x < len ==> (#[trigger] visited@[x] <==> (visited0[x] || exists|q: int|
                                0 <= q < t && comp@[q] == x as usize)),
                    decreases comp@.len() - t,
                {
                    let c = comp[t];
                    visited.set(c, true);
                    proof {
                        assert forall|x: int| 0 <= x < len implies (#[trigger] visited@[x] <==> (visited0[x] || exists|q: int|
                                0 <= q < t + 1 && comp@[q] == x as usize)) by {
                            if x == c as int {
                                assert(comp@[t as int] == x as usize);
                            }
                        }
                    }
                    t += 1;
                }
                let ghost old_out = out@;
                out.push(comp);
                proof {
                    assert forall|x: int|
                        0 <= x < len implies (#[trigger] visited@[x] <==> exists|t: int|
                            0 <= t < out@.len() && #[trigger] out@[t]@.contains(x as usize)) by {
                        if visited@[x] {
                            if visited0[x] {
                                let t = choose|t: int| 0 <= t < old_out.len() && #[trigger] old_out[t]@.contains(x as usize);
                                assert(out@[t] == old_out[t]);
                            } else {
                                let q = choose|q: int| 0 <= q < comp@.len() && comp@[q] == x as usize;
                                assert(out@[old_out.len() as int]@.contains(x as usize));
                            }
                        }
                        if exists|t: int| 0 <= t < out@.len() && #[trigger] out@[t]@.contains(x as usize) {
                            let t = choose|t: int| 0 <= t < out@.len() && #[trigger] out@[t]@.contains(x as usize);
                            if t < old_out.len() {
                                assert(old_out[t] == out@[t]);
                            } else {
                                let q = choose|q: int| 0 <= q < comp@.len() && comp@[q] == x as usize;
                            }
                        }
                    }
                    assert forall|t: int| 0 <= t < out@.len() implies #[trigger] is_mesh_listing(m, out@[t]@, steward) by {
                        if t < old_out.len() {
                            assert(old_out[t] == out@[t]);
                        }
                    }
                    assert forall|t: int| 0 <= t < out@.len() implies #[trigger] out@[t]@[0] < idx + 1 by {
                        if t < old_out.len() {
                            assert(old_out[t] == out@[t]);
                        }
                    }
                    assert forall|t1: int, t2: int| 0 <= t1 < t2 < out@.len() implies #[trigger] out@[t1]@[0] < #[trigger] out@[t2]@[0] by {
                        assert(old_out[t1] == out@[t1]);
                        if t2 < old_out.len() {
                            assert(old_out[t2] == out@[t2]);
                        }
                    }
                }
            }
            idx += 1;
        }
        proof {
            assert forall|x: int|
                0 <= x < len && #[trigger] m.cells[x] == CellState::Live(steward)
                    implies exists|t: int| 0 <= t < out@.len() && #[trigger] out@[t]@.contains(x as usize) by {
                assert(visited@[x]);
            }
        }
        out
    }
}

/// `s` lists one mesh of `steward`, ascending: it starts at its smallest cell,
/// and holds exactly the cells of that cell's mesh.
pub open spec fn is_mesh_listing(m: BoardModel, s: Seq<usize>, steward: Steward) -> bool {
    &&& s.len() > 0
    &&& strictly_sorted(s)
    &&& 0 <= s[0] < m.len()
    &&& m.cells[s[0] as int] == CellState::Live(steward)
    &&& forall|q: int| 0 <= q < s.len() ==> #[trigger] s[q] < m.len()
    &&& forall|x: int| 0 <= x < m.len() ==> (s.contains(x as usize) <==> #[trigger] in_mesh(m, s[0] as int, x))
}


/// A strictly ascending list below `l` marks exactly as many of the first `l`
/// cells as it has entries.
pub proof fn lemma_count_listing(s: Seq<usize>, l: int)
    requires
        strictly_sorted(s),
        0 <= l < 0x7fff_ffff,
        forall|q: int| 0 <= q < s.len() ==> #[trigger] s[q] < l,
    ensures
        count_true(Seq::new(l as nat, |y: int| s.contains(y as usize))) == s.len(),
    decreases l,
{
    let mask = Seq::new(l as nat, |y: int| s.contains(y as usize));
    if l == 0 {
        if s.len() > 0 {
            assert(s[0] < l);
        }
    } else {
        assert(mask.drop_last() =~= Seq::new((l - 1) as nat, |y: int| s.contains(y as usize)));
        if s.len() > 0 && s.last() == l - 1 {
            let s2 = s.drop_last();
            assert forall|q: int| 0 <= q < s2.len() implies #[trigger] s2[q] < l - 1 by {
                assert(s[q] < s[s.len() - 1]);
            }
            lemma_count_listing(s2, l - 1);
            assert(Seq::new((l - 1) as nat, |y: int| s.contains(y as usize)) =~= Seq::new(
                (l - 1) as nat,
                |y: int| s2.contains(y as usize),
            )) by {
                assert forall|y: int| 0 <= y < l - 1 implies #[trigger] s.contains(y as usize) == s2.contains(y as usize) by {
                    if s.contains(y as usize) {
                        let q = choose|q: int| 0 <= q < s.len() && s[q] == y as usize;
                        assert(q != s.len() - 1);
                        assert(s2[q] == y as usize);
                    }
                    if s2.contains(y as usize) {
                        let q = choose|q: int| 0 <= q < s2.len() && s2[q] == y as usize;
                        assert(s[q] == y as usize);
                    }
                }
            }
            assert(mask.last());
        } else {
            assert forall|q: int| 0 <= q < s.len() implies #[trigger] s[q] < l - 1 by {
                if q < s.len() - 1 {
                    assert(s[q] < s[s.len() - 1]);
                }
            }
            lemma_count_listing(s, l - 1);
            assert(!mask.last()) by {
                if s.contains((l - 1) as usize) {
                    let q = choose|q: int| 0 <= q < s.len() && s[q] == (l - 1) as usize;
                }
            }
        }
    }
}

/// A mesh listing holds as many cells as the mesh of any of its cells.
pub proof fn lemma_listing_len(m: BoardModel, s: Seq<usize>, steward: Steward, x: int)
    requires
        m.wf(),
        is_mesh_listing(m, s, steward),
        0 <= x < m.len(),
        s.contains(x as usize),
    ensures
        s.len() == mesh_size(m, x),
{
    lemma_count_listing(s, m.len() as int);
    assert(in_mesh(m, s[0] as int, x));
    assert(Seq::new(m.len(), |y: int| s.contains(y as usize)) =~= Seq::new(m.len(), |y: int| in_mesh(m, x, y))) by {
        assert forall|y: int| 0 <= y < m.len() implies s.contains(y as usize) == in_mesh(m, x, y) by {
            lemma_mesh_equivalence(m, s[0] as int, x, y);
            assert(s.contains(y as usize) == in_mesh(m, s[0] as int, y));
        }
    }
}


/// A strictly ascending list is determined by the indices it holds.
pub proof fn lemma_sorted_unique(a: Seq<usize>, b: Seq<usize>)
    requires
        strictly_sorted(a),
        strictly_sorted(b),
        forall|x: usize| a.contains(x) <==> b.contains(x),
    ensures
        a == b,
    decreases a.len(),
{
    if a.len() == 0 {
        if b.len() > 0 {
            assert(b.contains(b[0]));
        }
        assert(a =~= b);
    } else if b.len() == 0 {
        assert(a.contains(a[0]));
    } else {
        assert(a.contains(a[0]) && b.contains(b[0]));
        let ia = choose|q: int| 0 <= q < a.len() && a[q] == b[0];
        let ib = choose|q: int| 0 <= q < b.len() && b[q] == a[0];
        if ia > 0 {
            assert(a[0] < a[ia]);
        }
        if ib > 0 {
            assert(b[0] < b[ib]);
        }
        assert(a[0] == b[0]);
        let a2 = a.drop_first();
        let b2 = b.drop_first();
        assert forall|x: usize| a2.contains(x) <==> b2.contains(x) by {
            if a2.contains(x) {
                let q = choose|q: int| 0 <= q < a2.len() && a2[q] == x;
                assert(a[q + 1] == x && a[0] < a[q + 1]);
                assert(b.contains(x));
                let w = choose|w: int| 0 <= w < b.len() && b[w] == x;
                assert(w != 0);
                assert(b2[w - 1] == x);
            }
            if b2.contains(x) {
                let q = choose|q: int| 0 <= q < b2.len() && b2[q] == x;
                assert(b[q + 1] == x && b[0] < b[q + 1]);
                assert(a.contains(x));
                let w = choose|w: int| 0 <= w < a.len() && a[w] == x;
                assert(w != 0);
                assert(a2[w - 1] == x);
            }
        }
        lemma_sorted_unique(a2, b2);
        assert(a =~= b) by {
            assert forall|q: int| 0 <= q < a.len() implies a[q] == b[q] by {
                if q > 0 {
                    assert(a2[q - 1] == b2[q - 1]);
                }
            }
        }
    }
}

/// The ascending list of the indices in `set`.
pub open spec fn listing(set: Set<usize>) -> Seq<usize> {
    choose|p: Seq<usize>| strictly_sorted(p) && forall|x: usize| p.contains(x) <==> set.contains(x)
}

/// A strictly ascending list holding exactly `set` is its listing.
pub proof fn lemma_listing(a: Seq<usize>, set: Set<usize>)
    requires
        strictly_sorted(a),
        forall|x: usize| a.contains(x) <==> set.contains(x),
    ensures
        listing(set) == a,
{
    let p = listing(set);
    assert(strictly_sorted(p) && forall|x: usize| p.contains(x) <==> set.contains(x));
    lemma_sorted_unique(p, a);
}

/// A list without repeats whose entries all lie in another list without
/// repeats is no longer than it.
pub proof fn lemma_distinct_subset_len(a: Seq<usize>, b: Seq<usize>)
    requires
        a.no_duplicates(),
        b.no_duplicates(),
        forall|x: usize| a.contains(x) ==> b.contains(x),
    ensures
        a.len() <= b.len(),
{
    a.unique_seq_to_set();
    b.unique_seq_to_set();
    assert(a.to_set().subset_of(b.to_set()));
    vstd::set_lib::lemma_len_subset(a.to_set(), b.to_set());
}

/// A strictly ascending list has no repeats.
pub proof fn lemma_sorted_distinct(a: Seq<usize>)
    requires
        strictly_sorted(a),
    ensures
        a.no_duplicates(),
{
    assert forall|p: int, q: int| 0 <= p < a.len() && 0 <= q < a.len() && p != q implies a[p] != a[q] by {
        if p < q {
            assert(a[p] < a[q]);
        } else {
            assert(a[q] < a[p]);
        }
    }
}

} // verus!
