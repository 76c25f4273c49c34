//! Board state: cells, stewards, coordinate math, and mesh detection.
//!
//! The cells are the FCC sublattice of the `n³` box: the integer points with
//! `i + j + k` even, indexed in `(k, j, i)` order.
use vstd::prelude::*;

use arrayvec::ArrayVec;

use crate::lattice::{fcc_adjacent, MAX_NEIGHBORS, NEIGHBOR_OFFSETS};
use crate::neighbor_list::{
    neighbor_items, neighbor_list_as_slice, neighbor_list_new, neighbor_list_push,
};

verus! {

/// One of the four stewards. Slot order is fixed.
#[derive(Clone, Copy, PartialEq, Eq, Debug, Hash, PartialOrd, Ord, Structural)]
pub enum Steward {
    /// Slot 0 — `#D97757`.
    Sienna,
    /// Slot 1 — `#6A9BCC`.
    Lapis,
    /// Slot 2 — `#788C5D`.
    Verdigris,
    /// Slot 3 — `#E8E6DC`.
    Kaolin,
}

/// The slot index of a steward.
pub open spec fn slot_of(s: Steward) -> u8 {
    match s {
        Steward::Sienna => 0,
        Steward::Lapis => 1,
        Steward::Verdigris => 2,
        Steward::Kaolin => 3,
    }
}

/// The steward seated at slot `slot mod 4`.
pub open spec fn steward_at(slot: u8) -> Steward {
    let r = slot % 4;
    if r == 0 {
        Steward::Sienna
    } else if r == 1 {
        Steward::Lapis
    } else if r == 2 {
        Steward::Verdigris
    } else {
        Steward::Kaolin
    }
}

impl Steward {
    /// All stewards in slot order.
    pub const ALL: [Steward; 4] = [
        Steward::Sienna,
        Steward::Lapis,
        Steward::Verdigris,
        Steward::Kaolin,
    ];

    /// Slot index `0..=3`.
    pub fn slot(self) -> (r: u8)
        ensures
            r == slot_of(self),
            r < 4,
    {
        match self {
            Steward::Sienna => 0,
            Steward::Lapis => 1,
            Steward::Verdigris => 2,
            Steward::Kaolin => 3,
        }
    }

    /// Steward for a slot index (wraps mod 4).
    pub fn from_slot(slot: u8) -> (s: Steward)
        ensures
            s == steward_at(slot),
    {
        let r = slot & 0b11;
        assert(r == slot % 4) by (bit_vector)
            requires
                r == slot & 0b11,
        ;
        if r == 0 {
            Steward::Sienna
        } else if r == 1 {
            Steward::Lapis
        } else if r == 2 {
            Steward::Verdigris
        } else {
            Steward::Kaolin
        }
    }

    /// Locked pigment hex.
    pub fn pigment(self) -> (p: &'static str)
        ensures
            self == Steward::Sienna ==> p@ == "#D97757"@,
            self == Steward::Lapis ==> p@ == "#6A9BCC"@,
            self == Steward::Verdigris ==> p@ == "#788C5D"@,
            self == Steward::Kaolin ==> p@ == "#E8E6DC"@,
    {
        match self {
            Steward::Sienna => "#D97757",
            Steward::Lapis => "#6A9BCC",
            Steward::Verdigris => "#788C5D",
            Steward::Kaolin => "#E8E6DC",
        }
    }
}

/// A slot round-trips through its steward.
pub proof fn lemma_slot_round_trip(s: Steward, slot: u8)
    ensures
        steward_at(slot_of(s)) == s,
        slot < 4 ==> slot_of(steward_at(slot)) == slot,
{
}

/// The exhaustive set of cell states. `Empty` is distinct from a steward's
/// size-1 mesh; it is never a zero-size mesh.
#[derive(Clone, Copy, PartialEq, Eq, Debug, Structural)]
pub enum CellState {
    /// Ghost lattice — a legal placement target.
    Empty,
    /// A live cell owned by a steward.
    Live(Steward),
    /// Dead until its steward's rebuild turn resolves the crater.
    TempDead(Steward),
    /// Permanently neutral substrate. Never reclaimable, never a legal target.
    PermaDead,
}

/// An integer lattice coordinate. `Ord` is lexicographic on `(i, j, k)` — the
/// tiebreak Algorithm A uses for "lex-smallest" partner selection.
#[derive(Clone, Copy, PartialEq, Eq, Debug, Hash, PartialOrd, Ord, Structural)]
pub struct Coord {
    pub i: u8,
    pub j: u8,
    pub k: u8,
}

impl Coord {
    pub fn new(i: u8, j: u8, k: u8) -> (c: Self)
        ensures
            c == (Coord { i, j, k }),
    {
        Coord { i, j, k }
    }
}

/// Lexicographic order on `(i, j, k)`, as the derived `Ord` orders coordinates.
pub open spec fn coord_lt(a: Coord, b: Coord) -> bool {
    a.i < b.i || (a.i == b.i && (a.j < b.j || (a.j == b.j && a.k < b.k)))
}

/// Lexicographic `a < b` on `(i, j, k)`.
pub fn coord_less(a: Coord, b: Coord) -> (r: bool)
    ensures
        r == coord_lt(a, b),
{
    a.i < b.i || (a.i == b.i && (a.j < b.j || (a.j == b.j && a.k < b.k)))
}

/// Whether `c` lies inside the `n³` box.
pub open spec fn in_box(c: Coord, n: u8) -> bool {
    c.i < n && c.j < n && c.k < n
}

/// Whether `c` is an FCC point (`i + j + k` even).
pub open spec fn even_parity(c: Coord) -> bool {
    (c.i + c.j + c.k) % 2 == 0
}

/// Whether `c` is a cell of the board with edge `n`.
pub open spec fn is_cell(c: Coord, n: u8) -> bool {
    in_box(c, n) && even_parity(c)
}

/// The board's index order: lexicographic on `(k, j, i)`.
pub open spec fn kji_lt(a: Coord, b: Coord) -> bool {
    a.k < b.k || (a.k == b.k && (a.j < b.j || (a.j == b.j && a.i < b.i)))
}

/// Position of `c` in the full `n³` box, `i` fastest.
pub open spec fn cubic_key(c: Coord, n: u8) -> int {
    c.i + n * (c.j + n * c.k)
}

/// The abstract board: edge length, one state per cell, one coordinate per cell.
#[verifier::ext_equal]
pub struct BoardModel {
    pub n: u8,
    pub cells: Seq<CellState>,
    pub coords: Seq<Coord>,
}

impl BoardModel {
    pub open spec fn len(self) -> nat {
        self.coords.len()
    }

    /// The cells are exactly the FCC points of the box, listed in `(k, j, i)`
    /// order, each with one state.
    pub open spec fn wf(self) -> bool {
        &&& self.cells.len() == self.coords.len()
        &&& self.len() < 0x7fff_ffff
        &&& forall|a: int| 0 <= a < self.len() ==> #[trigger] is_cell(self.coords[a], self.n)
        &&& forall|a: int, b: int|
            0 <= a < b < self.len() ==> kji_lt(#[trigger] self.coords[a], #[trigger] self.coords[b])
        &&& forall|c: Coord| #[trigger]
            is_cell(c, self.n) ==> exists|a: int| 0 <= a < self.len() && self.coords[a] == c
    }

    /// The index of a coordinate, when it is a cell.
    pub open spec fn index_of(self, c: Coord) -> Option<int> {
        if is_cell(c, self.n) {
            Some(choose|a: int| 0 <= a < self.len() && self.coords[a] == c)
        } else {
            None
        }
    }

    /// Cells `a` and `b` are face-adjacent.
    pub open spec fn adjacent(self, a: int, b: int) -> bool {
        0 <= a < self.len() && 0 <= b < self.len() && fcc_adjacent(self.coords[a], self.coords[b])
    }

    /// Number of empty cells.
    pub open spec fn empty_count(self) -> nat {
        self.cells.filter(|c: CellState| c == CellState::Empty).len()
    }
}

/// In a well-formed model, distinct indices hold distinct coordinates.
pub proof fn lemma_coords_distinct(m: BoardModel, a: int, b: int)
    requires
        m.wf(),
        0 <= a < m.len(),
        0 <= b < m.len(),
        a != b,
    ensures
        m.coords[a] != m.coords[b],
{
    if a < b {
        assert(kji_lt(m.coords[a], m.coords[b]));
    } else {
        assert(kji_lt(m.coords[b], m.coords[a]));
    }
}

/// `index_of` is the inverse of the coordinate list.
pub proof fn lemma_index_of(m: BoardModel, c: Coord)
    requires
        m.wf(),
    ensures
        is_cell(c, m.n) ==> m.index_of(c) is Some,
        m.index_of(c) matches Some(a) ==> 0 <= a < m.len() && m.coords[a] == c,
        forall|a: int| 0 <= a < m.len() && m.coords[a] == c ==> m.index_of(c) == Some(a),
{
    if is_cell(c, m.n) {
        let a = choose|a: int| 0 <= a < m.len() && m.coords[a] == c;
        assert forall|b: int| 0 <= b < m.len() && m.coords[b] == c implies b == a by {
            if b != a {
                lemma_coords_distinct(m, a, b);
            }
        }
    } else {
        assert forall|b: int| 0 <= b < m.len() implies m.coords[b] != c by {
            assert(is_cell(m.coords[b], m.n));
        }
    }
}

/// Two lists strictly ascending in `(k, j, i)` order with the same coordinates
/// are the same list.
proof fn lemma_kji_sorted_unique(s1: Seq<Coord>, s2: Seq<Coord>)
    requires
        forall|a: int, b: int| 0 <= a < b < s1.len() ==> kji_lt(#[trigger] s1[a], #[trigger] s1[b]),
        forall|a: int, b: int| 0 <= a < b < s2.len() ==> kji_lt(#[trigger] s2[a], #[trigger] s2[b]),
        forall|c: Coord| s1.contains(c) <==> s2.contains(c),
    ensures
        s1 == s2,
    decreases s1.len() + s2.len(),
{
    if s1.len() == 0 || s2.len() == 0 {
        if s1.len() > 0 {
            assert(s1.contains(s1[0]));
        }
        if s2.len() > 0 {
            assert(s2.contains(s2[0]));
        }
        assert(s1 =~= s2);
    } else {
        assert(s1.contains(s1[0]) && s2.contains(s2[0]));
        let w2 = choose|w: int| 0 <= w < s2.len() && s2[w] == s1[0];
        let w1 = choose|w: int| 0 <= w < s1.len() && s1[w] == s2[0];
        if w2 > 0 && w1 > 0 {
            assert(kji_lt(s2[0], s2[w2]));
            assert(kji_lt(s1[0], s1[w1]));
        }
        let r1 = s1.drop_first();
        let r2 = s2.drop_first();
        assert forall|c: Coord| r1.contains(c) <==> r2.contains(c) by {
            if r1.contains(c) {
                let q = choose|q: int| 0 <= q < r1.len() && r1[q] == c;
                assert(s1[q + 1] == c && kji_lt(s1[0], s1[q + 1]));
                assert(s2.contains(c));
                let w = choose|w: int| 0 <= w < s2.len() && s2[w] == c;
                assert(w > 0);
                assert(r2[w - 1] == c);
            }
            if r2.contains(c) {
                let q = choose|q: int| 0 <= q < r2.len() && r2[q] == c;
                assert(s2[q + 1] == c && kji_lt(s2[0], s2[q + 1]));
                assert(s1.contains(c));
                let w = choose|w: int| 0 <= w < s1.len() && s1[w] == c;
                assert(w > 0);
                assert(r1[w - 1] == c);
            }
        }
        assert forall|a: int, b: int| 0 <= a < b < r1.len() implies kji_lt(#[trigger] r1[a], #[trigger] r1[b]) by {
            assert(r1[a] == s1[a + 1] && r1[b] == s1[b + 1]);
        }
        assert forall|a: int, b: int| 0 <= a < b < r2.len() implies kji_lt(#[trigger] r2[a], #[trigger] r2[b]) by {
            assert(r2[a] == s2[a + 1] && r2[b] == s2[b + 1]);
        }
        lemma_kji_sorted_unique(r1, r2);
        assert forall|q: int| 0 <= q < s1.len() implies s1[q] == s2[q] by {
            if q > 0 {
                assert(s1[q] == r1[q - 1] && s2[q] == r2[q - 1]);
            }
        }
        assert(s1 =~= s2);
    }
}

/// The cell layout of a board is fixed by its edge: two well-formed boards of
/// the same edge list the same coordinates in the same order.
pub proof fn lemma_board_layout_unique(m1: BoardModel, m2: BoardModel)
    requires
        m1.wf(),
        m2.wf(),
        m1.n == m2.n,
    ensures
        m1.coords == m2.coords,
{
    assert forall|c: Coord| m1.coords.contains(c) <==> m2.coords.contains(c) by {
        if m1.coords.contains(c) {
            let a = choose|a: int| 0 <= a < m1.len() && m1.coords[a] == c;
            assert(is_cell(m1.coords[a], m1.n));
            let b = choose|b: int| 0 <= b < m2.len() && m2.coords[b] == c;
            assert(m2.coords[b] == c);
        }
        if m2.coords.contains(c) {
            let a = choose|a: int| 0 <= a < m2.len() && m2.coords[a] == c;
            assert(is_cell(m2.coords[a], m2.n));
            let b = choose|b: int| 0 <= b < m1.len() && m1.coords[b] == c;
            assert(m1.coords[b] == c);
        }
    }
    lemma_kji_sorted_unique(m1.coords, m2.coords);
}

/// Indexing a well-formed board: a coordinate has an index exactly when it is
/// an FCC cell of the box, and the coordinate of every index indexes back to it.
pub proof fn lemma_index_round_trip(m: BoardModel)
    requires
        m.wf(),
    ensures
        forall|c: Coord| (#[trigger] m.index_of(c) is Some) <==> is_cell(c, m.n),
        forall|c: Coord| #[trigger] m.index_of(c) is Some ==> 0 <= m.index_of(c)->0 < m.len() && m.coords[m.index_of(c)->0] == c,
        forall|x: int| 0 <= x < m.len() ==> #[trigger] m.index_of(m.coords[x]) == Some(x),
{
    assert forall|c: Coord| (#[trigger] m.index_of(c) is Some) <==> is_cell(c, m.n) by {
        lemma_index_of(m, c);
    }
    assert forall|c: Coord| #[trigger] m.index_of(c) is Some implies 0 <= m.index_of(c)->0 < m.len()
        && m.coords[m.index_of(c)->0] == c by {
        lemma_index_of(m, c);
    }
    assert forall|x: int| 0 <= x < m.len() implies #[trigger] m.index_of(m.coords[x]) == Some(x) by {
        lemma_index_of(m, m.coords[x]);
    }
}

/// Adjacency on a board is FCC face adjacency of the two cells' coordinates:
/// symmetric, and no cell is adjacent to itself.
pub proof fn lemma_board_adjacency(m: BoardModel)
    ensures
        forall|a: int, b: int| #[trigger] m.adjacent(a, b) == m.adjacent(b, a),
        forall|a: int| !(#[trigger] m.adjacent(a, a)),
        forall|a: int, b: int|
            0 <= a < m.len() && 0 <= b < m.len() ==> (#[trigger] m.adjacent(a, b) <==> fcc_adjacent(
                m.coords[a],
                m.coords[b],
            )),
{
    assert forall|a: int, b: int| #[trigger] m.adjacent(a, b) == m.adjacent(b, a) by {
        lemma_adjacent_symmetric(m.coords[a], m.coords[b]);
    }
    assert forall|a: int| !(#[trigger] m.adjacent(a, a)) by {
        lemma_adjacent_symmetric(m.coords[a], m.coords[a]);
    }
}

/// The cubic key of an in-box point is below `n³` and determines the point.
proof fn lemma_cubic_key(c: Coord, n: u8)
    requires
        in_box(c, n),
    ensures
        0 <= cubic_key(c, n) < n * n * n,
        cubic_key(c, n) % (n as int) == c.i,
        (cubic_key(c, n) / (n as int)) % (n as int) == c.j,
        (cubic_key(c, n) / (n as int)) / (n as int) == c.k,
{
    let nn = n as int;
    let i = c.i as int;
    let j = c.j as int;
    let k = c.k as int;
    assert(0 <= j + nn * k <= (nn - 1) + nn * (nn - 1)) by (nonlinear_arith)
        requires
            0 <= j < nn,
            0 <= k < nn,
    ;
    assert(0 <= i + nn * (j + nn * k) < nn * nn * nn) by (nonlinear_arith)
        requires
            0 <= i < nn,
            0 <= j + nn * k <= (nn - 1) + nn * (nn - 1),
    ;
    vstd::arithmetic::div_mod::lemma_fundamental_div_mod_converse(
        cubic_key(c, n),
        nn,
        j + nn * k,
        i,
    );
    vstd::arithmetic::div_mod::lemma_fundamental_div_mod_converse(j + nn * k, nn, k, j);
    let key = cubic_key(c, n);
    assert(key == (j + nn * k) * nn + i) by (nonlinear_arith)
        requires
            key == i + nn * (j + nn * k),
    ;
    assert(j + nn * k == k * nn + j) by (nonlinear_arith);
}

/// Two in-box points with the same cubic key are equal.
proof fn lemma_cubic_key_injective(a: Coord, b: Coord, n: u8)
    requires
        in_box(a, n),
        in_box(b, n),
        cubic_key(a, n) == cubic_key(b, n),
    ensures
        a == b,
{
    lemma_cubic_key(a, n);
    lemma_cubic_key(b, n);
}

/// The lattice and its per-cell state.
///
/// `coords` maps a linear index to its coordinate; `cubic_to_idx` is the
/// inverse lookup over the full `n³` box (`-1` where the point is not a cell).
#[derive(Clone, Debug)]
pub struct Board {
    /// Bounding-box edge length. The board is the even-parity points of `n³`.
    pub n: u8,
    cells: Vec<CellState>,
    coords: Vec<Coord>,
    cubic_to_idx: Vec<i32>,
}

/// The invariant of `Board::new`'s enumeration once every point before `cur`
/// (in `(k, j, i)` order) has been visited.
spec fn build_inv(n: u8, coords: Seq<Coord>, table: Seq<i32>, cur: Coord) -> bool {
    &&& table.len() == n * n * n
    &&& coords.len() <= cubic_key(cur, n)
    &&& forall|a: int| 0 <= a < coords.len() ==> #[trigger] is_cell(coords[a], n)
    &&& forall|a: int| 0 <= a < coords.len() ==> kji_lt(#[trigger] coords[a], cur)
    &&& forall|a: int, b: int|
        0 <= a < b < coords.len() ==> kji_lt(#[trigger] coords[a], #[trigger] coords[b])
    &&& forall|c: Coord|
        #![trigger is_cell(c, n), kji_lt(c, cur)]
        is_cell(c, n) && kji_lt(c, cur) ==> exists|a: int| 0 <= a < coords.len() && coords[a] == c
    &&& forall|a: int|
        0 <= a < coords.len() ==> table[cubic_key(#[trigger] coords[a], n)] == a
    &&& forall|c: Coord|
        #![trigger cubic_key(c, n)]
        in_box(c, n) && (!even_parity(c) || !kji_lt(c, cur)) ==> table[cubic_key(c, n)] == -1
}

impl View for Board {
    type V = BoardModel;

    closed spec fn view(&self) -> BoardModel {
        BoardModel { n: self.n, cells: self.cells@, coords: self.coords@ }
    }
}

impl Board {
    /// The lookup table agrees with the coordinate list.
    pub closed spec fn lookup_wf(&self) -> bool {
        &&& self@.n == self.n
        &&& self.cubic_to_idx@.len() == self.n * self.n * self.n
        &&& self.coords@.len() < 0x7fff_ffff
        &&& forall|a: int|
            0 <= a < self.coords@.len() ==> self.cubic_to_idx@[cubic_key(
                #[trigger] self.coords@[a],
                self.n,
            )] == a
        &&& forall|c: Coord|
            #![trigger cubic_key(c, self.n)]
            in_box(c, self.n) && !even_parity(c) ==> self.cubic_to_idx@[cubic_key(c, self.n)] == -1
    }

    /// The board is well formed: its model is, and the lookup table agrees.
    pub open spec fn wf(&self) -> bool {
        &&& self@.wf()
        &&& self.lookup_wf()
    }

    /// An empty board: the even-parity (FCC) cells of the `n × n × n` box.
    pub fn new(n: u8) -> (b: Self)
        ensures
            b.wf(),
            b@.n == n,
            forall|a: int| 0 <= a < b@.len() ==> #[trigger] b@.cells[a] == CellState::Empty,
    {
        let nn = n as usize;
        assert(nn * nn <= 65025 && nn * nn * nn <= 16581375) by (nonlinear_arith)
            requires
                nn <= 255,
        ;
        let mut coords: Vec<Coord> = Vec::new();
        let mut cubic_to_idx: Vec<i32> = vec![-1i32; nn * nn * nn];
        let mut k: u8 = 0;
        proof {
            assert forall|c: Coord| #[trigger] cubic_key(c, n) == cubic_key(c, n) && in_box(c, n)
                implies cubic_to_idx@[cubic_key(c, n)] == -1 by {
                lemma_cubic_key(c, n);
            }
        }
        // Fixed (k, j, i) order → deterministic indices.
        while k < n
            invariant
                k <= n,
                nn == n,
                build_inv(n, coords@, cubic_to_idx@, Coord { i: 0, j: 0, k }),
            decreases n - k,
        {
            let mut j: u8 = 0;
            while j < n
                invariant
                    k < n,
                    j <= n,
                    nn == n,
                    build_inv(n, coords@, cubic_to_idx@, Coord { i: 0, j, k }),
                decreases n - j,
            {
                let mut i: u8 = 0;
                while i < n
                    invariant
                        k < n,
                        j < n,
                        i <= n,
                        nn == n,
                        build_inv(n, coords@, cubic_to_idx@, Coord { i, j, k }),
                    decreases n - i,
                {
                    let ghost cur = Coord { i, j, k };
                    let ghost next = Coord { i: (i + 1) as u8, j, k };
                    proof {
                        lemma_cubic_key(cur, n);
                    }
                    if (i as u16 + j as u16 + k as u16) % 2 == 0 {
                        assert(nn * (k as usize) <= 65025 && nn * (j + nn * k) <= 16581375) by (nonlinear_arith)
                            requires
                                nn <= 255,
                                j < nn,
                                k < nn,
                        ;
                        assert(n * n * n <= 16581375) by (nonlinear_arith)
                            requires
                                n <= 255,
                        ;
                        let cubic = i as usize + nn * (j as usize + nn * k as usize);
                        let ghost old_coords = coords@;
                        let ghost old_table = cubic_to_idx@;
                        cubic_to_idx.set(cubic, coords.len() as i32);
                        coords.push(Coord::new(i, j, k));
                        proof {
                            assert(cubic == cubic_key(cur, n));
                            assert forall|a: int|
                                0 <= a < coords@.len() implies cubic_to_idx@[cubic_key(
                                #[trigger] coords@[a],
                                n,
                            )] == a by {
                                assert(is_cell(coords@[a], n));
                                lemma_cubic_key(coords@[a], n);
                                if a < old_coords.len() {
                                    assert(is_cell(old_coords[a], n));
                                    assert(old_table[cubic_key(old_coords[a], n)] == a);
                                    if cubic_key(coords@[a], n) == cubic {
                                        lemma_cubic_key_injective(coords@[a], cur, n);
                                        assert(kji_lt(old_coords[a], cur));
                                    }
                                }
                            }
                            assert forall|c: Coord|
                                #![trigger cubic_key(c, n)]
                                in_box(c, n) && (!even_parity(c) || !kji_lt(c, next))
                                implies cubic_to_idx@[cubic_key(c, n)] == -1 by {
                                lemma_cubic_key(c, n);
                                if cubic_key(c, n) == cubic {
                                    lemma_cubic_key_injective(c, cur, n);
                                } else {
                                    assert(!even_parity(c) || !kji_lt(c, cur));
                                    assert(old_table[cubic_key(c, n)] == -1);
                                }
                            }
                            assert forall|c: Coord|
                                #![trigger is_cell(c, n), kji_lt(c, next)]
                                is_cell(c, n) && kji_lt(c, next) implies exists|a: int|
                                0 <= a < coords@.len() && coords@[a] == c by {
                                if c == cur {
                                    assert(coords@[coords@.len() - 1] == c);
                                } else {
                                    assert(kji_lt(c, cur));
                                    let a = choose|a: int| 0 <= a < old_coords.len() && old_coords[a] == c;
                                    assert(coords@[a] == c);
                                }
                            }
                            assert(build_inv(n, coords@, cubic_to_idx@, next));
                        }
                    } else {
                        proof {
                            assert forall|c: Coord|
                                #![trigger is_cell(c, n), kji_lt(c, next)]
                                is_cell(c, n) && kji_lt(c, next) implies exists|a: int|
                                0 <= a < coords@.len() && coords@[a] == c by {
                                assert(c != cur);
                                assert(kji_lt(c, cur));
                            }
                            assert(build_inv(n, coords@, cubic_to_idx@, next));
                        }
                    }
                    i += 1;
                }
                proof {
                    let wrapped = Coord { i: 0, j: (j + 1) as u8, k };
                    let end = Coord { i: n, j, k };
                    assert(cubic_key(end, n) == cubic_key(wrapped, n)) by (nonlinear_arith)
                        requires
                            end.i == n,
                            end.j == j,
                            end.k == k,
                            wrapped.i == 0,
                            wrapped.j == j + 1,
                            wrapped.k == k,
                    ;
                    assert forall|c: Coord| #[trigger] in_box(c, n) implies kji_lt(c, end) == kji_lt(c, wrapped) by {}
                    assert forall|c: Coord|
                        #![trigger is_cell(c, n), kji_lt(c, wrapped)]
                        is_cell(c, n) && kji_lt(c, wrapped) implies exists|a: int|
                        0 <= a < coords@.len() && coords@[a] == c by {
                        assert(kji_lt(c, end));
                    }
                    assert forall|c: Coord|
                        #![trigger cubic_key(c, n)]
                        in_box(c, n) && (!even_parity(c) || !kji_lt(c, wrapped))
                        implies cubic_to_idx@[cubic_key(c, n)] == -1 by {
                        assert(kji_lt(c, end) == kji_lt(c, wrapped));
                    }
                    assert forall|a: int| 0 <= a < coords@.len() implies kji_lt(#[trigger] coords@[a], wrapped) by {
                        assert(is_cell(coords@[a], n));
                        assert(kji_lt(coords@[a], end));
                    }
                }
                j += 1;
            }
            proof {
                let wrapped = Coord { i: 0, j: 0, k: (k + 1) as u8 };
                let end = Coord { i: 0, j: n, k };
                assert(cubic_key(end, n) == cubic_key(wrapped, n)) by (nonlinear_arith)
                    requires
                        end.i == 0,
                        end.j == n,
                        end.k == k,
                        wrapped.i == 0,
                        wrapped.j == 0,
                        wrapped.k == k + 1,
                ;
                assert forall|c: Coord|
                    #![trigger is_cell(c, n), kji_lt(c, wrapped)]
                    is_cell(c, n) && kji_lt(c, wrapped) implies exists|a: int|
                    0 <= a < coords@.len() && coords@[a] == c by {
                    assert(kji_lt(c, end));
                }
                assert forall|c: Coord|
                    #![trigger cubic_key(c, n)]
                    in_box(c, n) && (!even_parity(c) || !kji_lt(c, wrapped))
                    implies cubic_to_idx@[cubic_key(c, n)] == -1 by {
                    assert(kji_lt(c, end) == kji_lt(c, wrapped));
                }
                assert forall|a: int| 0 <= a < coords@.len() implies kji_lt(#[trigger] coords@[a], wrapped) by {
                    assert(is_cell(coords@[a], n));
                    assert(kji_lt(coords@[a], end));
                }
            }
            k += 1;
        }
        let ghost fin = Coord { i: 0, j: 0, k: n };
        proof {
            assert(cubic_key(fin, n) == n * n * n) by (nonlinear_arith)
                requires
                    fin.i == 0,
                    fin.j == 0,
                    fin.k == n,
            ;
            assert forall|c: Coord| #[trigger] is_cell(c, n) implies exists|a: int|
                0 <= a < coords@.len() && coords@[a] == c by {
                assert(kji_lt(c, fin));
            }
        }
        let count = coords.len();
        let b = Board { n, cells: vec![CellState::Empty; count], coords, cubic_to_idx };
        b
    }
}


/// The `t`-th face-neighbour displacement, as listed in `NEIGHBOR_OFFSETS`.
pub open spec fn offset(t: int) -> (int, int, int) {
    if t == 0 {
        (1, 1, 0)
    } else if t == 1 {
        (1, -1, 0)
    } else if t == 2 {
        (-1, 1, 0)
    } else if t == 3 {
        (-1, -1, 0)
    } else if t == 4 {
        (1, 0, 1)
    } else if t == 5 {
        (1, 0, -1)
    } else if t == 6 {
        (-1, 0, 1)
    } else if t == 7 {
        (-1, 0, -1)
    } else if t == 8 {
        (0, 1, 1)
    } else if t == 9 {
        (0, 1, -1)
    } else if t == 10 {
        (0, -1, 1)
    } else {
        (0, -1, -1)
    }
}

/// Which displacement of `NEIGHBOR_OFFSETS` leads from `a` to `b` (12 if none).
pub open spec fn offset_pos(a: Coord, b: Coord) -> int {
    let d = (b.i - a.i, b.j - a.j, b.k - a.k);
    if d == offset(0) {
        0
    } else if d == offset(1) {
        1
    } else if d == offset(2) {
        2
    } else if d == offset(3) {
        3
    } else if d == offset(4) {
        4
    } else if d == offset(5) {
        5
    } else if d == offset(6) {
        6
    } else if d == offset(7) {
        7
    } else if d == offset(8) {
        8
    } else if d == offset(9) {
        9
    } else if d == offset(10) {
        10
    } else if d == offset(11) {
        11
    } else {
        12
    }
}

/// Face adjacency is exactly a step by one of the twelve displacements.
pub proof fn lemma_adjacent_offset(a: Coord, b: Coord)
    ensures
        fcc_adjacent(a, b) <==> offset_pos(a, b) < 12,
        offset_pos(a, b) < 12 ==> {
            let d = offset(offset_pos(a, b));
            b.i == a.i + d.0 && b.j == a.j + d.1 && b.k == a.k + d.2
        },
{
}

/// Face adjacency is symmetric.
pub proof fn lemma_adjacent_symmetric(a: Coord, b: Coord)
    ensures
        fcc_adjacent(a, b) == fcc_adjacent(b, a),
        !fcc_adjacent(a, a),
{
}

/// Neighbour lists: exactly the adjacent cells, each once, in offset order.
pub open spec fn is_neighbor_list(m: BoardModel, idx: int, s: Seq<usize>) -> bool {
    &&& s.len() <= MAX_NEIGHBORS
    &&& forall|t: int| 0 <= t < s.len() ==> #[trigger] m.adjacent(idx, s[t] as int)
    &&& forall|b: int| #[trigger] m.adjacent(idx, b) ==> s.contains(b as usize)
    &&& forall|t1: int, t2: int|
        0 <= t1 < t2 < s.len() ==> offset_pos(m.coords[idx], m.coords[#[trigger] s[t1] as int])
            < offset_pos(m.coords[idx], m.coords[#[trigger] s[t2] as int])
}

/// A neighbour list holds no index twice.
pub proof fn lemma_neighbor_list_distinct(m: BoardModel, idx: int, s: Seq<usize>)
    requires
        is_neighbor_list(m, idx, s),
    ensures
        s.no_duplicates(),
{
    assert forall|t1: int, t2: int| 0 <= t1 < s.len() && 0 <= t2 < s.len() && t1 != t2 implies s[t1]
        != s[t2] by {
        if t1 < t2 {
            assert(offset_pos(m.coords[idx], m.coords[s[t1] as int]) < offset_pos(
                m.coords[idx],
                m.coords[s[t2] as int],
            ));
        } else {
            assert(offset_pos(m.coords[idx], m.coords[s[t2] as int]) < offset_pos(
                m.coords[idx],
                m.coords[s[t1] as int],
            ));
        }
    }
}

impl Board {
    /// The edge length of the bounding box.
    pub fn edge(&self) -> (r: u8)
        requires
            self.wf(),
        ensures
            r == self@.n,
    {
        self.n
    }

    /// Total cell count (the even-parity points of `n³`, not `n³`).
    pub fn len(&self) -> (r: usize)
        requires
            self.wf(),
        ensures
            r == self@.len(),
    {
        self.cells.len()
    }

    /// Whether the board has zero cells.
    pub fn is_empty(&self) -> (r: bool)
        requires
            self.wf(),
        ensures
            r == (self@.len() == 0),
    {
        self.cells.len() == 0
    }

    /// Linear index for a coordinate, or `None` if it is out of bounds or not an
    /// FCC cell (odd parity).
    pub fn index(&self, c: Coord) -> (r: Option<usize>)
        requires
            self.wf(),
        ensures
            r matches Some(a) ==> self@.index_of(c) == Some(a as int),
            r is None ==> self@.index_of(c) is None,
            r is Some <==> is_cell(c, self@.n),
    {
        proof {
            lemma_index_of(self@, c);
        }
        let n = self.n;
        if c.i < n && c.j < n && c.k < n {
            let nn = n as usize;
            proof {
                lemma_cubic_key(c, n);
            }
            assert(nn * (c.k as usize) <= 65025 && nn * (c.j + nn * c.k) <= 16581375) by (nonlinear_arith)
                requires
                    nn <= 255,
                    c.j < nn,
                    c.k < nn,
            ;
            let cubic = c.i as usize + nn * (c.j as usize + nn * c.k as usize);
            let v = self.cubic_to_idx[cubic];
            if v == -1 {
                assert(!even_parity(c)) by {
                    if even_parity(c) {
                        let a = choose|a: int| 0 <= a < self@.len() && self@.coords[a] == c;
                        assert(self.cubic_to_idx@[cubic_key(self.coords@[a], self.n)] == a);
                    }
                }
                None
            } else {
                assert(even_parity(c));
                proof {
                    let a = choose|a: int| 0 <= a < self@.len() && self@.coords[a] == c;
                    assert(self.cubic_to_idx@[cubic_key(self.coords@[a], self.n)] == a);
                }
                Some(v as usize)
            }
        } else {
            None
        }
    }

    /// Coordinate for a linear index.
    pub fn coord(&self, idx: usize) -> (c: Coord)
        requires
            self.wf(),
            idx < self@.len(),
        ensures
            c == self@.coords[idx as int],
            is_cell(c, self@.n),
    {
        self.coords[idx]
    }

    /// The state of cell `idx`.
    pub fn get(&self, idx: usize) -> (s: CellState)
        requires
            self.wf(),
            idx < self@.len(),
        ensures
            s == self@.cells[idx as int],
    {
        self.cells[idx]
    }

    /// Overwrite the state of cell `idx`; the geometry is unchanged.
    pub fn set(&mut self, idx: usize, state: CellState)
        requires
            old(self).wf(),
            idx < old(self)@.len(),
        ensures
            final(self).wf(),
            final(self)@ == (BoardModel {
                cells: old(self)@.cells.update(idx as int, state),
                ..old(self)@
            }),
    {
        self.cells.set(idx, state);
    }

    /// In-bounds face-neighbors of `idx`, in `NEIGHBOR_OFFSETS` order.
    pub fn neighbors(&self, idx: usize) -> (out: ArrayVec<usize, MAX_NEIGHBORS>)
        requires
            self.wf(),
            idx < self@.len(),
        ensures
            is_neighbor_list(self@, idx as int, neighbor_items(out)),
    {
        let c = self.coord(idx);
        let n = self.n as i16;
        let mut out = neighbor_list_new();
        let mut t: usize = 0;
        while t < 12
            invariant
                self.wf(),
                idx < self@.len(),
                c == self@.coords[idx as int],
                is_cell(c, self@.n),
                n == self@.n,
                t <= 12,
                neighbor_items(out).len() <= t,
                forall|q: int|
                    0 <= q < neighbor_items(out).len() ==> self@.adjacent(
                        idx as int,
                        #[trigger] neighbor_items(out)[q] as int,
                    ),
                forall|q: int|
                    0 <= q < neighbor_items(out).len() ==> offset_pos(
                        c,
                        self@.coords[#[trigger] neighbor_items(out)[q] as int],
                    ) < t,
                forall|b: int|
                    #[trigger] self@.adjacent(idx as int, b) && offset_pos(c, self@.coords[b]) < t
                        ==> neighbor_items(out).contains(b as usize),
                forall|t1: int, t2: int|
                    0 <= t1 < t2 < neighbor_items(out).len() ==> offset_pos(
                        c,
                        self@.coords[#[trigger] neighbor_items(out)[t1] as int],
                    ) < offset_pos(c, self@.coords[#[trigger] neighbor_items(out)[t2] as int]),
            decreases 12 - t,
        {
            let (di, dj, dk) = NEIGHBOR_OFFSETS[t];
            assert(di == offset(t as int).0 && dj == offset(t as int).1 && dk == offset(t as int).2);
            let ni = c.i as i16 + di as i16;
            let nj = c.j as i16 + dj as i16;
            let nk = c.k as i16 + dk as i16;
            let ghost old_items = neighbor_items(out);
            if 0 <= ni && ni < n && 0 <= nj && nj < n && 0 <= nk && nk < n {
                let nc = Coord::new(ni as u8, nj as u8, nk as u8);
                assert(is_cell(nc, self@.n));
                assert(fcc_adjacent(c, nc));
                assert(offset_pos(c, nc) == t);
                // The step preserves parity, so the target is always a cell.
                let x = self.index(nc).unwrap();
                proof {
                    lemma_index_of(self@, nc);
                }
                neighbor_list_push(&mut out, x);
                proof {
                    let items = neighbor_items(out);
                    assert(items[items.len() - 1] == x);
                    assert(self@.coords[x as int] == nc);
                    assert forall|q: int| 0 <= q < items.len() implies #[trigger] self@.adjacent(
                        idx as int,
                        items[q] as int,
                    ) && offset_pos(c, self@.coords[items[q] as int]) < t + 1 by {
                        if q < old_items.len() {
                            assert(items[q] == old_items[q]);
                            assert(self@.adjacent(idx as int, old_items[q] as int));
                        } else {
                            assert(items[q] == x);
                            assert(self@.adjacent(idx as int, x as int));
                            assert(offset_pos(c, self@.coords[x as int]) == t);
                        }
                    }
                    assert forall|t1: int, t2: int| 0 <= t1 < t2 < items.len() implies offset_pos(
                        c,
                        self@.coords[#[trigger] items[t1] as int],
                    ) < offset_pos(c, self@.coords[#[trigger] items[t2] as int]) by {
                        assert(items[t1] == old_items[t1]);
                        assert(self@.adjacent(idx as int, old_items[t1] as int));
                        if t2 < old_items.len() {
                            assert(items[t2] == old_items[t2]);
                        } else {
                            assert(items[t2] == x);
                            assert(offset_pos(c, self@.coords[x as int]) == t);
                        }
                    }
                    assert forall|b: int|
                        #[trigger] self@.adjacent(idx as int, b) && offset_pos(c, self@.coords[b]) < t + 1
                        implies items.contains(b as usize) by {
                        if offset_pos(c, self@.coords[b]) == t {
                            lemma_adjacent_offset(c, self@.coords[b]);
                            assert(self@.coords[b] == nc);
                            assert(b == x);
                            assert(items[items.len() - 1] == b as usize);
                        } else {
                            assert(old_items.contains(b as usize));
                            let q = choose|q: int| 0 <= q < old_items.len() && old_items[q] == b as usize;
                            assert(items[q] == b as usize);
                        }
                    }
                }
            } else {
                proof {
                    assert forall|q: int| 0 <= q < old_items.len() implies #[trigger] self@.adjacent(
                        idx as int,
                        old_items[q] as int,
                    ) && offset_pos(c, self@.coords[old_items[q] as int]) < t + 1 by {}
                    assert forall|b: int|
                        #[trigger] self@.adjacent(idx as int, b) && offset_pos(c, self@.coords[b]) < t + 1
                        implies neighbor_items(out).contains(b as usize) by {
                        if offset_pos(c, self@.coords[b]) == t {
                            lemma_adjacent_offset(c, self@.coords[b]);
                            assert(is_cell(self@.coords[b], self@.n));
                        }
                    }
                }
            }
            t += 1;
        }
        out
    }
}


impl Board {
    /// The number of FCC cells of the `n³` box.
    pub open spec fn new_len_spec(n: u8) -> nat {
        Set::new(|c: Coord| is_cell(c, n)).len()
    }

    /// Any well-formed board of edge `n` has exactly the FCC cells of its box.
    pub proof fn lemma_new_len(n: u8, m: BoardModel)
        requires
            m.wf(),
            m.n == n,
        ensures
            m.len() == Board::new_len_spec(n),
    {
        assert(m.coords.no_duplicates()) by {
            assert forall|a: int, b: int| 0 <= a < m.len() && 0 <= b < m.len() && a != b implies m.coords[a]
                != m.coords[b] by {
                lemma_coords_distinct(m, a, b);
            }
        }
        assert(m.coords.to_set() =~= Set::new(|c: Coord| is_cell(c, n))) by {
            assert forall|c: Coord| m.coords.to_set().contains(c) <==> is_cell(c, n) by {
                if m.coords.to_set().contains(c) {
                    let a = choose|a: int| 0 <= a < m.len() && m.coords[a] == c;
                    assert(is_cell(m.coords[a], n));
                }
                if is_cell(c, n) {
                    let a = choose|a: int| 0 <= a < m.len() && m.coords[a] == c;
                    assert(m.coords.contains(c));
                }
            }
        }
        m.coords.unique_seq_to_set();
    }
}

} // verus!
