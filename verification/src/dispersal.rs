//! Algorithm A — Morton-greedy dispersal — and validation of a chosen layout.
//!
//! When a mesh of `N ≥ 7` cells collapses, it disperses into live pairs of the
//! steward's color plus perma-dead spacers. With `k = N / 3` and `r = N mod 3`,
//! the ideal perma-dead count is `k + (1 if r == 1 else 0)`.
//!
//! `algorithm_a` pairs the cells (Morton order, lex-greedy partners, remainder
//! rule); `auto_layout` adds the separation guard, so that the layout a rebuild
//! gets when its steward chooses none never keeps a live component of seven or
//! more and is one `validate_layout` accepts.
use vstd::prelude::*;

use crate::board::{coord_less, coord_lt, lemma_coords_distinct, Board, BoardModel};
use crate::lattice::{lemma_morton_injective, morton_code, morton_spec};
use crate::mesh::{
    connected, count_true, flood_fill, lemma_count_true_none, lemma_sorted_distinct, marked_indices, strictly_sorted,
};
use crate::COLLAPSE_THRESHOLD;

verus! {

/// The locked perma-dead floor for a collapse of `n` cells.
pub open spec fn perma_floor(n: int) -> int {
    n / 3 + if n % 3 == 1 {
        1int
    } else {
        0int
    }
}

/// Ideal `(live_cells, perma_dead)` split for a dead mesh of `n` cells.
pub fn dispersal_counts(n: usize) -> (r: (usize, usize))
    ensures
        r.1 == perma_floor(n as int),
        r.0 + r.1 == n,
{
    let k = n / 3;
    let r = n % 3;
    let perma = k + if r == 1 {
        1
    } else {
        0
    };
    (n - perma, perma)
}

/// The result of dispersing one dead mesh: which cells respawn `Live` (the
/// steward's color) and which become `PermaDead`. Both lists are sorted.
#[derive(Clone, Debug, PartialEq, Eq)]
pub struct Dispersal {
    pub live: Vec<usize>,
    pub perma: Vec<usize>,
}

/// A strictly ascending copy of a list of distinct indices.
pub fn sorted_distinct(v: &Vec<usize>) -> (r: Vec<usize>)
    requires
        v@.no_duplicates(),
    ensures
        strictly_sorted(r@),
        r@.len() == v@.len(),
        forall|x: usize| r@.contains(x) <==> v@.contains(x),
{
    let mut r: Vec<usize> = Vec::new();
    let mut t: usize = 0;
    while t < v.len()
        invariant
            v@.no_duplicates(),
            t <= v@.len(),
            strictly_sorted(r@),
            r@.len() == t,
            forall|x: usize| r@.contains(x) <==> v@.take(t as int).contains(x),
        decreases v@.len() - t,
    {
        let x = v[t];
        assert(!r@.contains(x)) by {
            if r@.contains(x) {
                let q = choose|q: int| 0 <= q < t && v@.take(t as int)[q] == x;
                assert(v@[q] == v@[t as int]);
            }
        }
        let mut p: usize = 0;
        while p < r.len() && r[p] < x
            invariant
                p <= r@.len(),
                forall|q: int| 0 <= q < p ==> r@[q] < x,
            decreases r@.len() - p,
        {
            p += 1;
        }
        let ghost old_r = r@;
        r.insert(p, x);
        proof {
            assert(p < old_r.len() ==> old_r[p as int] > x);
            assert forall|a: int, b: int| 0 <= a < b < r@.len() implies r@[a] < r@[b] by {
                if b < p {
                } else if a < p && b == p {
                } else if a < p {
                    assert(r@[b] == old_r[b - 1]);
                    if p < old_r.len() {
                        assert(old_r[a] < old_r[p as int]);
                    }
                } else if a == p {
                    assert(r@[b] == old_r[b - 1]);
                    assert(old_r[p as int] <= old_r[b - 1]) by {
                        if p < b - 1 {
                            assert(old_r[p as int] < old_r[b - 1]);
                        }
                    }
                } else {
                    assert(r@[a] == old_r[a - 1] && r@[b] == old_r[b - 1]);
                }
            }
            let vt = v@.take(t as int);
            let vt1 = v@.take(t + 1);
            assert(vt1 =~= vt.push(x));
            assert forall|y: usize| r@.contains(y) <==> vt1.contains(y) by {
                if r@.contains(y) {
                    let q = choose|q: int| 0 <= q < r@.len() && r@[q] == y;
                    if q < p {
                        assert(old_r[q] == y);
                    } else if q > p {
                        assert(old_r[q - 1] == y);
                    }
                    if y != x {
                        assert(old_r.contains(y));
                        assert(vt.contains(y));
                        let w = choose|w: int| 0 <= w < t && vt[w] == y;
                        assert(vt1[w] == y);
                    } else {
                        assert(vt1[t as int] == y);
                    }
                }
                if vt1.contains(y) {
                    let w = choose|w: int| 0 <= w < t + 1 && vt1[w] == y;
                    if w < t {
                        assert(vt[w] == y);
                        assert(old_r.contains(y));
                        let q = choose|q: int| 0 <= q < old_r.len() && old_r[q] == y;
                        if q < p {
                            assert(r@[q] == y);
                        } else {
                            assert(r@[q + 1] == y);
                        }
                    } else {
                        assert(r@[p as int] == y);
                    }
                }
            }
        }
        t += 1;
    }
    assert(v@.take(v@.len() as int) =~= v@);
    r
}

/// The Morton key of cell `x`.
pub open spec fn key_of(m: BoardModel, x: usize) -> u32 {
    morton_spec(m.coords[x as int])
}

/// `x` inserted into `s` just before the first entry of larger Morton key.
pub open spec fn insert_by_morton(m: BoardModel, s: Seq<usize>, x: usize) -> Seq<usize>
    decreases s.len(),
{
    if s.len() == 0 {
        seq![x]
    } else if key_of(m, x) < key_of(m, s[0]) {
        seq![x] + s
    } else {
        seq![s[0]] + insert_by_morton(m, s.drop_first(), x)
    }
}

/// The cells stably sorted by Morton key (ties keep their input order).
pub open spec fn morton_order(m: BoardModel, cells: Seq<usize>) -> Seq<usize>
    decreases cells.len(),
{
    if cells.len() == 0 {
        seq![]
    } else {
        insert_by_morton(m, morton_order(m, cells.drop_last()), cells.last())
    }
}

proof fn lemma_insert_by_morton(m: BoardModel, s: Seq<usize>, x: usize, p: int)
    requires
        0 <= p <= s.len(),
        forall|q: int| 0 <= q < p ==> !(key_of(m, x) < key_of(m, #[trigger] s[q])),
        p < s.len() ==> key_of(m, x) < key_of(m, s[p]),
    ensures
        insert_by_morton(m, s, x) == s.insert(p, x),
    decreases s.len(),
{
    if s.len() == 0 {
        assert(s.insert(p, x) =~= seq![x]);
    } else if key_of(m, x) < key_of(m, s[0]) {
        assert(p == 0);
        assert(s.insert(p, x) =~= seq![x] + s);
    } else {
        assert(p > 0);
        let rest = s.drop_first();
        assert forall|q: int| 0 <= q < p - 1 implies !(key_of(m, x) < key_of(m, #[trigger] rest[q])) by {
            assert(rest[q] == s[q + 1]);
        }
        lemma_insert_by_morton(m, rest, x, p - 1);
        assert(s.insert(p, x) =~= seq![s[0]] + rest.insert(p - 1, x));
    }
}

proof fn lemma_insert_by_morton_elems(m: BoardModel, s: Seq<usize>, x: usize)
    ensures
        insert_by_morton(m, s, x).len() == s.len() + 1,
        forall|y: usize| #[trigger] insert_by_morton(m, s, x).contains(y) <==> (s.contains(y) || y == x),
    decreases s.len(),
{
    let r = insert_by_morton(m, s, x);
    if s.len() == 0 {
        assert(r =~= seq![x]);
        assert(forall|y: usize| r.contains(y) <==> y == x) by {
            assert forall|y: usize| r.contains(y) implies y == x by {
                let q = choose|q: int| 0 <= q < r.len() && r[q] == y;
            }
            assert(r[0] == x);
        }
    } else if key_of(m, x) < key_of(m, s[0]) {
        assert forall|y: usize| r.contains(y) <==> (s.contains(y) || y == x) by {
            if r.contains(y) {
                let q = choose|q: int| 0 <= q < r.len() && r[q] == y;
                if q > 0 {
                    assert(s[q - 1] == y);
                }
            }
            if s.contains(y) {
                let q = choose|q: int| 0 <= q < s.len() && s[q] == y;
                assert(r[q + 1] == y);
            }
            assert(r[0] == x);
        }
    } else {
        let rest = s.drop_first();
        lemma_insert_by_morton_elems(m, rest, x);
        let rr = insert_by_morton(m, rest, x);
        assert(r == seq![s[0]] + rr);
        assert forall|y: usize| r.contains(y) <==> (s.contains(y) || y == x) by {
            if r.contains(y) {
                let q = choose|q: int| 0 <= q < r.len() && r[q] == y;
                if q > 0 {
                    assert(rr[q - 1] == y);
                    assert(rr.contains(y));
                    if rest.contains(y) {
                        let w = choose|w: int| 0 <= w < rest.len() && rest[w] == y;
                        assert(s[w + 1] == y);
                    }
                } else {
                    assert(s[0] == y);
                    assert(s.contains(y));
                }
            }
            if s.contains(y) {
                let q = choose|q: int| 0 <= q < s.len() && s[q] == y;
                if q > 0 {
                    assert(rest[q - 1] == y);
                    assert(rest.contains(y));
                    assert(rr.contains(y));
                    let w = choose|w: int| 0 <= w < rr.len() && rr[w] == y;
                    assert(r[w + 1] == y);
                } else {
                    assert(r[0] == y);
                }
            }
            if y == x {
                assert(rr.contains(y));
                let w = choose|w: int| 0 <= w < rr.len() && rr[w] == y;
                assert(r[w + 1] == y);
            }
        }
    }
}

/// The Morton order holds the same cells as its input.
pub proof fn lemma_morton_order_elems(m: BoardModel, cells: Seq<usize>)
    ensures
        morton_order(m, cells).len() == cells.len(),
        forall|y: usize| morton_order(m, cells).contains(y) <==> cells.contains(y),
    decreases cells.len(),
{
    if cells.len() > 0 {
        let prev = cells.drop_last();
        lemma_morton_order_elems(m, prev);
        lemma_insert_by_morton_elems(m, morton_order(m, prev), cells.last());
        assert forall|y: usize| morton_order(m, cells).contains(y) <==> cells.contains(y) by {
            if prev.contains(y) {
                let q = choose|q: int| 0 <= q < prev.len() && prev[q] == y;
                assert(cells[q] == y);
            }
            if cells.contains(y) && y != cells.last() {
                let q = choose|q: int| 0 <= q < cells.len() && cells[q] == y;
                assert(q < cells.len() - 1);
                assert(prev[q] == y);
            }
        }
    }
}

/// Morton keys never decrease along `s`.
pub open spec fn key_sorted(m: BoardModel, s: Seq<usize>) -> bool {
    forall|a: int, b: int| 0 <= a < b < s.len() ==> key_of(m, #[trigger] s[a]) <= key_of(m, #[trigger] s[b])
}

proof fn lemma_insert_by_morton_sorted(m: BoardModel, s: Seq<usize>, x: usize)
    requires
        key_sorted(m, s),
    ensures
        key_sorted(m, insert_by_morton(m, s, x)),
    decreases s.len(),
{
    let r = insert_by_morton(m, s, x);
    if s.len() == 0 {
        assert(r =~= seq![x]);
    } else if key_of(m, x) < key_of(m, s[0]) {
        assert(r == seq![x] + s);
        assert forall|a: int, b: int| 0 <= a < b < r.len() implies key_of(m, #[trigger] r[a]) <= key_of(
            m,
            #[trigger] r[b],
        ) by {
            assert(r[b] == s[b - 1]);
            if a > 0 {
                assert(r[a] == s[a - 1]);
            } else if b > 1 {
                assert(key_of(m, s[0]) <= key_of(m, s[b - 1]));
            }
        }
    } else {
        let rest = s.drop_first();
        assert(key_sorted(m, rest)) by {
            assert forall|a: int, b: int| 0 <= a < b < rest.len() implies key_of(m, #[trigger] rest[a])
                <= key_of(m, #[trigger] rest[b]) by {
                assert(rest[a] == s[a + 1] && rest[b] == s[b + 1]);
            }
        }
        lemma_insert_by_morton_sorted(m, rest, x);
        lemma_insert_by_morton_elems(m, rest, x);
        let rr = insert_by_morton(m, rest, x);
        assert(r == seq![s[0]] + rr);
        assert forall|a: int, b: int| 0 <= a < b < r.len() implies key_of(m, #[trigger] r[a]) <= key_of(
            m,
            #[trigger] r[b],
        ) by {
            assert(r[b] == rr[b - 1]);
            if a > 0 {
                assert(r[a] == rr[a - 1]);
            } else {
                assert(rr.contains(rr[b - 1]));
                if rr[b - 1] != x {
                    assert(rest.contains(rr[b - 1]));
                    let w = choose|w: int| 0 <= w < rest.len() && rest[w] == rr[b - 1];
                    assert(rest[w] == s[w + 1]);
                    assert(key_of(m, s[0]) <= key_of(m, s[w + 1]));
                }
            }
        }
    }
}

/// The Morton order is sorted by Morton key.
pub proof fn lemma_morton_order_sorted(m: BoardModel, cells: Seq<usize>)
    ensures
        key_sorted(m, morton_order(m, cells)),
    decreases cells.len(),
{
    if cells.len() > 0 {
        lemma_morton_order_sorted(m, cells.drop_last());
        lemma_insert_by_morton_sorted(m, morton_order(m, cells.drop_last()), cells.last());
    }
}

/// Distinct cells of a well-formed board have distinct Morton keys.
proof fn lemma_key_injective(m: BoardModel, x: usize, y: usize)
    requires
        m.wf(),
        x < m.len(),
        y < m.len(),
        key_of(m, x) == key_of(m, y),
    ensures
        x == y,
{
    lemma_morton_injective(m.coords[x as int], m.coords[y as int]);
    if x != y {
        lemma_coords_distinct(m, x as int, y as int);
    }
}

/// Two key-sorted lists of the same distinct cells of a board are the same list.
proof fn lemma_key_sorted_unique(m: BoardModel, s1: Seq<usize>, s2: Seq<usize>)
    requires
        m.wf(),
        key_sorted(m, s1),
        key_sorted(m, s2),
        s1.no_duplicates(),
        s2.no_duplicates(),
        s1.len() == s2.len(),
        forall|x: usize| s1.contains(x) <==> s2.contains(x),
        forall|q: int| 0 <= q < s1.len() ==> #[trigger] s1[q] < m.len(),
    ensures
        s1 == s2,
    decreases s1.len(),
{
    if s1.len() == 0 {
        assert(s1 =~= s2);
    } else {
        let x1 = s1[0];
        let x2 = s2[0];
        assert(s1.contains(x1));
        assert(s2.contains(x2));
        let w2 = choose|w: int| 0 <= w < s2.len() && s2[w] == x1;
        let w1 = choose|w: int| 0 <= w < s1.len() && s1[w] == x2;
        if w2 > 0 {
            assert(key_of(m, s2[0]) <= key_of(m, s2[w2]));
        }
        if w1 > 0 {
            assert(key_of(m, s1[0]) <= key_of(m, s1[w1]));
        }
        assert(s1[w1] < m.len());
        lemma_key_injective(m, x1, x2);
        let r1 = s1.drop_first();
        let r2 = s2.drop_first();
        assert forall|y: usize| r1.contains(y) <==> r2.contains(y) by {
            if r1.contains(y) {
                let q = choose|q: int| 0 <= q < r1.len() && r1[q] == y;
                assert(s1[q + 1] == y);
                assert(y != x1);
                assert(s2.contains(y));
                let w = choose|w: int| 0 <= w < s2.len() && s2[w] == y;
                assert(w > 0);
                assert(r2[w - 1] == y);
            }
            if r2.contains(y) {
                let q = choose|q: int| 0 <= q < r2.len() && r2[q] == y;
                assert(s2[q + 1] == y);
                assert(y != x2);
                assert(s1.contains(y));
                let w = choose|w: int| 0 <= w < s1.len() && s1[w] == y;
                assert(w > 0);
                assert(r1[w - 1] == y);
            }
        }
        assert(key_sorted(m, r1)) by {
            assert forall|a: int, b: int| 0 <= a < b < r1.len() implies key_of(m, #[trigger] r1[a])
                <= key_of(m, #[trigger] r1[b]) by {
                assert(r1[a] == s1[a + 1] && r1[b] == s1[b + 1]);
            }
        }
        assert(key_sorted(m, r2)) by {
            assert forall|a: int, b: int| 0 <= a < b < r2.len() implies key_of(m, #[trigger] r2[a])
                <= key_of(m, #[trigger] r2[b]) by {
                assert(r2[a] == s2[a + 1] && r2[b] == s2[b + 1]);
            }
        }
        assert(r1.no_duplicates()) by {
            assert forall|a: int, b: int| 0 <= a < r1.len() && 0 <= b < r1.len() && a != b implies r1[a]
                != r1[b] by {
                assert(r1[a] == s1[a + 1] && r1[b] == s1[b + 1]);
            }
        }
        assert(r2.no_duplicates()) by {
            assert forall|a: int, b: int| 0 <= a < r2.len() && 0 <= b < r2.len() && a != b implies r2[a]
                != r2[b] by {
                assert(r2[a] == s2[a + 1] && r2[b] == s2[b + 1]);
            }
        }
        assert forall|q: int| 0 <= q < r1.len() implies #[trigger] r1[q] < m.len() by {
            assert(r1[q] == s1[q + 1]);
        }
        lemma_key_sorted_unique(m, r1, r2);
        assert forall|q: int| 0 <= q < s1.len() implies s1[q] == s2[q] by {
            if q > 0 {
                assert(s1[q] == r1[q - 1] && s2[q] == r2[q - 1]);
            }
        }
        assert(s1 =~= s2);
    }
}

/// The auto layout depends only on the crater's cells, not on the order in
/// which they are listed: two duplicate-free listings of the same cells of a
/// board have the same Morton order, hence the same final order, hence the
/// same perma-dead and live cells under Algorithm A and under its separation
/// guard (both are functions of the final order).
pub proof fn lemma_layout_depends_on_crater_set(m: BoardModel, a: Seq<usize>, b: Seq<usize>)
    requires
        m.wf(),
        a.no_duplicates(),
        b.no_duplicates(),
        forall|x: usize| a.contains(x) <==> b.contains(x),
        forall|q: int| 0 <= q < a.len() ==> #[trigger] a[q] < m.len(),
    ensures
        morton_order(m, a) == morton_order(m, b),
        final_order(m, a) == final_order(m, b),
        guarded_live(m, final_order(m, a)) == guarded_live(m, final_order(m, b)),
{
    assert(a.to_set() =~= b.to_set());
    a.unique_seq_to_set();
    b.unique_seq_to_set();
    let oa = morton_order(m, a);
    let ob = morton_order(m, b);
    lemma_morton_order_elems(m, a);
    lemma_morton_order_elems(m, b);
    lemma_morton_order_sorted(m, a);
    lemma_morton_order_sorted(m, b);
    lemma_same_elems_distinct(a, oa);
    lemma_same_elems_distinct(b, ob);
    assert forall|q: int| 0 <= q < oa.len() implies #[trigger] oa[q] < m.len() by {
        assert(oa.contains(oa[q]));
        assert(a.contains(oa[q]));
        let w = choose|w: int| 0 <= w < a.len() && a[w] == oa[q];
    }
    assert forall|x: usize| oa.contains(x) <==> ob.contains(x) by {
        assert(oa.contains(x) == a.contains(x));
        assert(ob.contains(x) == b.contains(x));
    }
    lemma_key_sorted_unique(m, oa, ob);
}

/// Two strictly ascending lists with the same elements are the same list. With
/// the contract of `algorithm_a` (ascending outputs whose contents the final
/// order fixes), equal final orders give equal dispersals.
pub proof fn lemma_strictly_sorted_unique(s1: Seq<usize>, s2: Seq<usize>)
    requires
        strictly_sorted(s1),
        strictly_sorted(s2),
        forall|x: usize| s1.contains(x) <==> s2.contains(x),
    ensures
        s1 == s2,
    decreases s1.len() + s2.len(),
{
    if s1.len() == 0 || s2.len() == 0 {
        if s1.len() > 0 {
            assert(s1.contains(s1[0]));
        }
        if s2.len() > 0 {
            assert(s2.contains(s2[0]));
        }
        assert(s1 =~= s2);
    } else {
        assert(s1.contains(s1[0]) && s2.contains(s2[0]));
        let w2 = choose|w: int| 0 <= w < s2.len() && s2[w] == s1[0];
        let w1 = choose|w: int| 0 <= w < s1.len() && s1[w] == s2[0];
        if w2 > 0 {
            assert(s2[0] < s2[w2]);
        }
        if w1 > 0 {
            assert(s1[0] < s1[w1]);
        }
        let r1 = s1.drop_first();
        let r2 = s2.drop_first();
        assert forall|y: usize| r1.contains(y) <==> r2.contains(y) by {
            if r1.contains(y) {
                let q = choose|q: int| 0 <= q < r1.len() && r1[q] == y;
                assert(s1[q + 1] == y && s1[0] < s1[q + 1]);
                assert(s2.contains(y));
                let w = choose|w: int| 0 <= w < s2.len() && s2[w] == y;
                assert(w > 0);
                assert(r2[w - 1] == y);
            }
            if r2.contains(y) {
                let q = choose|q: int| 0 <= q < r2.len() && r2[q] == y;
                assert(s2[q + 1] == y && s2[0] < s2[q + 1]);
                assert(s1.contains(y));
                let w = choose|w: int| 0 <= w < s1.len() && s1[w] == y;
                assert(w > 0);
                assert(r1[w - 1] == y);
            }
        }
        assert(strictly_sorted(r1)) by {
            assert forall|a: int, b: int| 0 <= a < b < r1.len() implies r1[a] < r1[b] by {
                assert(r1[a] == s1[a + 1] && r1[b] == s1[b + 1]);
            }
        }
        assert(strictly_sorted(r2)) by {
            assert forall|a: int, b: int| 0 <= a < b < r2.len() implies r2[a] < r2[b] by {
                assert(r2[a] == s2[a + 1] && r2[b] == s2[b + 1]);
            }
        }
        lemma_strictly_sorted_unique(r1, r2);
        assert forall|q: int| 0 <= q < s1.len() implies s1[q] == s2[q] by {
            if q > 0 {
                assert(s1[q] == r1[q - 1] && s2[q] == r2[q - 1]);
            }
        }
        assert(s1 =~= s2);
    }
}

impl Board {
    /// Morton-sorted copy of `cells` (stable on equal keys).
    pub fn morton_sorted(&self, cells: &[usize]) -> (v: Vec<usize>)
        requires
            self.wf(),
            forall|q: int| 0 <= q < cells@.len() ==> #[trigger] cells@[q] < self@.len(),
        ensures
            v@ == morton_order(self@, cells@),
    {
        let mut v: Vec<usize> = Vec::new();
        let mut t: usize = 0;
        while t < cells.len()
            invariant
                self.wf(),
                t <= cells@.len(),
                forall|q: int| 0 <= q < cells@.len() ==> #[trigger] cells@[q] < self@.len(),
                v@ == morton_order(self@, cells@.take(t as int)),
                forall|q: int| 0 <= q < v@.len() ==> #[trigger] v@[q] < self@.len(),
            decreases cells@.len() - t,
        {
            let x = cells[t];
            let kx = morton_code(self.coord(x));
            let mut p: usize = 0;
            while p < v.len() && !(kx < morton_code(self.coord(v[p])))
                invariant
                    self.wf(),
                    p <= v@.len(),
                    kx == key_of(self@, x),
                    forall|q: int| 0 <= q < v@.len() ==> #[trigger] v@[q] < self@.len(),
                    forall|q: int| 0 <= q < p ==> !(key_of(self@, x) < key_of(self@, #[trigger] v@[q])),
                decreases v@.len() - p,
            {
                p += 1;
            }
            proof {
                lemma_insert_by_morton(self@, v@, x, p as int);
                assert(cells@.take(t + 1).drop_last() =~= cells@.take(t as int));
                assert(cells@.take(t + 1).last() == x);
                lemma_insert_by_morton_elems(self@, v@, x);
            }
            let ghost old_v = v@;
            v.insert(p, x);
            proof {
                assert forall|q: int| 0 <= q < v@.len() implies #[trigger] v@[q] < self@.len() by {
                    assert(v@.contains(v@[q]));
                    if v@[q] != x {
                        assert(old_v.contains(v@[q]));
                        let w = choose|w: int| 0 <= w < old_v.len() && old_v[w] == v@[q];
                    }
                }
            }
            t += 1;
        }
        assert(cells@.take(cells@.len() as int) =~= cells@);
        v
    }
}


/// Position `p` (after `i`) holds a face-neighbour of the cell at position `i`.
pub open spec fn partner_candidate(m: BoardModel, ord: Seq<usize>, i: int, p: int) -> bool {
    i + 1 <= p < ord.len() && m.adjacent(ord[i] as int, ord[p] as int)
}

/// Position `p` holds the lex-smallest face-neighbour of position `i` among the
/// later positions (the earliest such position on ties).
pub open spec fn is_best_partner(m: BoardModel, ord: Seq<usize>, i: int, p: int) -> bool {
    &&& partner_candidate(m, ord, i, p)
    &&& forall|q: int|
        #[trigger] partner_candidate(m, ord, i, q) ==> !coord_lt(m.coords[ord[q] as int], m.coords[ord[p] as int])
    &&& forall|q: int|
        #[trigger] partner_candidate(m, ord, i, q) && q < p ==> coord_lt(
            m.coords[ord[p] as int],
            m.coords[ord[q] as int],
        )
}

/// One triple of Algorithm A at position `i`: keep `ord[i+1]` as the partner of
/// `ord[i]` when they are adjacent, else swap the best partner into `i+1`.
pub open spec fn step(m: BoardModel, ord: Seq<usize>, i: int) -> Seq<usize> {
    if m.adjacent(ord[i] as int, ord[i + 1] as int) {
        ord
    } else if exists|p: int| is_best_partner(m, ord, i, p) {
        let p = choose|p: int| is_best_partner(m, ord, i, p);
        ord.update(i + 1, ord[p]).update(p, ord[i + 1])
    } else {
        ord
    }
}

/// The triples from position `i` on, applied in turn.
pub open spec fn walk(m: BoardModel, ord: Seq<usize>, i: nat) -> Seq<usize>
    decreases ord.len() - i,
    when i <= ord.len()
{
    if i + 2 < ord.len() {
        walk(m, step(m, ord, i as int), i + 3)
    } else {
        ord
    }
}

/// The cell order after every triple has chosen its pair.
pub open spec fn final_order(m: BoardModel, cells: Seq<usize>) -> Seq<usize> {
    walk(m, morton_order(m, cells), 0)
}

/// Position `q` of the final order becomes perma-dead: the third cell of each
/// triple, the lone remainder, or a non-adjacent remainder pair.
pub open spec fn is_perma_pos(m: BoardModel, f: Seq<usize>, q: int) -> bool {
    let n = f.len() as int;
    ||| (q % 3 == 2 && 0 <= q < n - n % 3)
    ||| (n % 3 == 1 && q == n - 1)
    ||| (n % 3 == 2 && n - 2 <= q < n && !m.adjacent(f[n - 2] as int, f[n - 1] as int))
}

/// The perma-dead count Algorithm A yields for final order `f`.
pub open spec fn algorithm_a_perma_count(m: BoardModel, f: Seq<usize>) -> int {
    let n = f.len() as int;
    perma_floor(n) + if n % 3 == 2 && !m.adjacent(f[n - 2] as int, f[n - 1] as int) {
        2int
    } else {
        0int
    }
}

/// How many of the positions below `t` are perma positions.
spec fn perma_below(m: BoardModel, f: Seq<usize>, t: int) -> int {
    let n = f.len() as int;
    let k = n / 3;
    if t <= 3 * k {
        t / 3
    } else if n % 3 == 1 {
        k + 1
    } else if n % 3 == 2 && !m.adjacent(f[n - 2] as int, f[n - 1] as int) {
        k + (t - 3 * k)
    } else {
        k
    }
}

proof fn lemma_perma_below_step(m: BoardModel, f: Seq<usize>, t: int)
    requires
        0 <= t < f.len(),
    ensures
        perma_below(m, f, t + 1) == perma_below(m, f, t) + if is_perma_pos(m, f, t) {
            1int
        } else {
            0int
        },
{
}

proof fn lemma_perma_below_all(m: BoardModel, f: Seq<usize>)
    ensures
        perma_below(m, f, f.len() as int) == algorithm_a_perma_count(m, f),
        perma_below(m, f, 0) == 0,
{
}

/// The best partner, when there is one, is unique.
proof fn lemma_best_partner_unique(m: BoardModel, ord: Seq<usize>, i: int, p1: int, p2: int)
    requires
        is_best_partner(m, ord, i, p1),
        is_best_partner(m, ord, i, p2),
    ensures
        p1 == p2,
{
    if p1 < p2 {
        assert(partner_candidate(m, ord, i, p1));
        assert(coord_lt(m.coords[ord[p2] as int], m.coords[ord[p1] as int]));
    } else if p2 < p1 {
        assert(partner_candidate(m, ord, i, p2));
        assert(coord_lt(m.coords[ord[p1] as int], m.coords[ord[p2] as int]));
    }
}

/// A step changes only positions after `i` and keeps the same cells.
proof fn lemma_step(m: BoardModel, ord: Seq<usize>, i: int)
    requires
        0 <= i,
        i + 2 < ord.len(),
    ensures
        step(m, ord, i).len() == ord.len(),
        forall|q: int| 0 <= q <= i ==> #[trigger] step(m, ord, i)[q] == ord[q],
        ord.no_duplicates() ==> step(m, ord, i).no_duplicates(),
        forall|x: usize| #[trigger] step(m, ord, i).contains(x) <==> ord.contains(x),
{
    let r = step(m, ord, i);
    if !m.adjacent(ord[i] as int, ord[i + 1] as int) && exists|p: int| is_best_partner(m, ord, i, p) {
        let p = choose|p: int| is_best_partner(m, ord, i, p);
        assert forall|x: usize| r.contains(x) <==> ord.contains(x) by {
            if r.contains(x) {
                let q = choose|q: int| 0 <= q < r.len() && r[q] == x;
                if q == i + 1 {
                    assert(ord[p] == x);
                } else if q == p {
                    assert(ord[i + 1] == x);
                } else {
                    assert(ord[q] == x);
                }
            }
            if ord.contains(x) {
                let q = choose|q: int| 0 <= q < ord.len() && ord[q] == x;
                if q == i + 1 {
                    assert(r[p] == x);
                } else if q == p {
                    assert(r[i + 1] == x);
                } else {
                    assert(r[q] == x);
                }
            }
        }
        if ord.no_duplicates() {
            assert forall|a: int, b: int| 0 <= a < r.len() && 0 <= b < r.len() && a != b implies r[a] != r[b] by {
                let sa = if a == i + 1 { p } else if a == p { i + 1 } else { a };
                let sb = if b == i + 1 { p } else if b == p { i + 1 } else { b };
                assert(r[a] == ord[sa]);
                assert(r[b] == ord[sb]);
            }
        }
    }
}

/// Walking from `i` changes only positions after `i` and keeps the same cells.
proof fn lemma_walk(m: BoardModel, ord: Seq<usize>, i: nat)
    requires
        i <= ord.len(),
    ensures
        walk(m, ord, i).len() == ord.len(),
        forall|q: int| 0 <= q <= i && q < ord.len() ==> #[trigger] walk(m, ord, i)[q] == ord[q],
        ord.no_duplicates() ==> walk(m, ord, i).no_duplicates(),
        forall|x: usize| #[trigger] walk(m, ord, i).contains(x) <==> ord.contains(x),
    decreases ord.len() - i,
{
    if i + 2 < ord.len() {
        lemma_step(m, ord, i as int);
        let s = step(m, ord, i as int);
        lemma_walk(m, s, i + 3);
        assert forall|q: int| 0 <= q <= i && q < ord.len() implies #[trigger] walk(m, ord, i)[q] == ord[q] by {
            assert(walk(m, s, i + 3)[q] == s[q]);
        }
        assert forall|x: usize| #[trigger] walk(m, ord, i).contains(x) <==> ord.contains(x) by {
            assert(walk(m, s, i + 3).contains(x) <==> s.contains(x));
            assert(s.contains(x) <==> ord.contains(x));
        }
    }
}

/// Whether `v` holds `x`.
fn holds(v: &Vec<usize>, x: usize) -> (r: bool)
    ensures
        r == v@.contains(x),
{
    let mut t: usize = 0;
    while t < v.len()
        invariant
            t <= v@.len(),
            forall|q: int| 0 <= q < t ==> v@[q] != x,
        decreases v@.len() - t,
    {
        if v[t] == x {
            return true;
        }
        t += 1;
    }
    false
}

/// The final order of Algorithm A over `cells`: the Morton order with each
/// triple's partner chosen.
pub(crate) fn auto_order(board: &Board, cells: &[usize]) -> (ordered: Vec<usize>)
    requires
        board.wf(),
        cells@.no_duplicates(),
        forall|q: int| 0 <= q < cells@.len() ==> #[trigger] cells@[q] < board@.len(),
    ensures
        ordered@ == final_order(board@, cells@),
        ordered@.len() == cells@.len(),
        ordered@.no_duplicates(),
        forall|q: int| 0 <= q < ordered@.len() ==> #[trigger] ordered@[q] < board@.len(),
        forall|x: usize| #[trigger] ordered@.contains(x) <==> cells@.contains(x),
{
    let ghost m = board@;
    let n = cells.len();
    let mut ordered = board.morton_sorted(cells);
    let ghost f = final_order(m, cells@);
    proof {
        lemma_morton_order_elems(m, cells@);
        assert(ordered@.no_duplicates()) by {
            // `ordered` holds the same `n` distinct cells as `cells`.
            lemma_same_elems_distinct(cells@, ordered@);
        }
        lemma_walk(m, ordered@, 0);
        assert forall|q: int| 0 <= q < n implies #[trigger] ordered@[q] < m.len() by {
            assert(ordered@.contains(ordered@[q]));
            assert(cells@.contains(ordered@[q]));
            let w = choose|w: int| 0 <= w < n && cells@[w] == ordered@[q];
        }
    }
    // `consumed[p]` marks positions already assigned in an earlier window.
    let mut consumed: Vec<bool> = vec![false; n];

    // Walk triples: make positions i, i+1 a face-adjacent pair where possible.
    let mut i: usize = 0;
    while i < n && n - i > 2
        invariant
            board.wf(),
            m == board@,
            n == cells@.len(),
            ordered@.len() == n,
            consumed@.len() == n,
            i % 3 == 0,
            i <= n,
            ordered@.no_duplicates(),
            forall|q: int| 0 <= q < n ==> #[trigger] ordered@[q] < m.len(),
            forall|x: usize| #[trigger] ordered@.contains(x) <==> cells@.contains(x),
            walk(m, ordered@, i as nat) == f,
            forall|p: int| 0 <= p < n ==> (#[trigger] consumed@[p] <==> p < i),
            f.len() == n,
        decreases n - i,
    {
        let ghost before = ordered@;
        // Try to make positions i and i+1 a face-adjacent pair. If c[i+1] is not
        // adjacent, pull in the lex-smallest unconsumed face-adjacent neighbor.
        if !board.adjacent(ordered[i], ordered[i + 1]) {
            let mut best: Option<usize> = None;
            let mut p = i + 1;
            while p < n
                invariant
                    board.wf(),
                    m == board@,
                    ordered@ == before,
                    ordered@.len() == n,
                    consumed@.len() == n,
                    forall|q: int| 0 <= q < n ==> #[trigger] ordered@[q] < m.len(),
                    forall|q: int| 0 <= q < n ==> (#[trigger] consumed@[q] <==> q < i),
                    i + 2 < n,
                    i + 1 <= p <= n,
                    best matches Some(b) ==> {
                        &&& i + 1 <= b < p
                        &&& partner_candidate(m, before, i as int, b as int)
                        &&& forall|q: int|
                            #[trigger] partner_candidate(m, before, i as int, q) && q < p ==> !coord_lt(
                                m.coords[before[q] as int],
                                m.coords[before[b as int] as int],
                            )
                        &&& forall|q: int|
                            #[trigger] partner_candidate(m, before, i as int, q) && q < b ==> coord_lt(
                                m.coords[before[b as int] as int],
                                m.coords[before[q] as int],
                            )
                    },
                    best is None ==> forall|q: int| #[trigger] partner_candidate(m, before, i as int, q) ==> q >= p,
                decreases n - p,
            {
                if consumed[p] {
                    p += 1;
                    continue;
                }
                if board.adjacent(ordered[i], ordered[p]) {
                    best = match best {
                        None => Some(p),
                        Some(b) => {
                            if coord_less(board.coord(ordered[p]), board.coord(ordered[b])) {
                                Some(p)
                            } else {
                                Some(b)
                            }
                        },
                    };
                }
                p += 1;
            }
            if let Some(p) = best {
                proof {
                    assert(is_best_partner(m, before, i as int, p as int));
                    assert forall|p2: int| is_best_partner(m, before, i as int, p2) implies p2 == p by {
                        lemma_best_partner_unique(m, before, i as int, p as int, p2);
                    }
                }
                let a = ordered[i + 1];
                let b = ordered[p];
                ordered.set(i + 1, b);
                ordered.set(p, a);
                assert(ordered@ == step(m, before, i as int));
            } else {
                proof {
                    assert forall|p2: int| !is_best_partner(m, before, i as int, p2) by {}
                }
                assert(ordered@ == step(m, before, i as int));
            }
            // If no adjacent partner exists, positions i and i+1 still both go
            // live — two size-1 meshes.
        } else {
            assert(ordered@ == step(m, before, i as int));
        }
        proof {
            lemma_step(m, before, i as int);
            assert(walk(m, before, i as nat) == walk(m, ordered@, (i + 3) as nat));
            lemma_walk(m, ordered@, (i + 3) as nat);
                assert forall|x: usize| #[trigger] ordered@.contains(x) <==> cells@.contains(x) by {
                assert(ordered@.contains(x) <==> before.contains(x));
            }
            assert forall|q: int| 0 <= q < n implies #[trigger] ordered@[q] < m.len() by {
                assert(ordered@.contains(ordered@[q]));
                assert(before.contains(ordered@[q]));
                let w = choose|w: int| 0 <= w < n && before[w] == ordered@[q];
            }
        }
        consumed.set(i, true);
        consumed.set(i + 1, true);
        consumed.set(i + 2, true);
        i += 3;
    }
    proof {
        assert(ordered@ == f);
    }
    ordered
}

/// Run Algorithm A's pairing over `cells` (the collapsed mesh, distinct cells)
/// on `board`: the count table's partition, before the separation guard.
///
/// The board is only read for geometry (coords + adjacency); callers apply the
/// returned partition to actual cell states.
pub fn algorithm_a(board: &Board, cells: &[usize]) -> (d: Dispersal)
    requires
        board.wf(),
        cells@.no_duplicates(),
        forall|q: int| 0 <= q < cells@.len() ==> #[trigger] cells@[q] < board@.len(),
    ensures
        ({
            let f = final_order(board@, cells@);
            &&& strictly_sorted(d.perma@)
            &&& strictly_sorted(d.live@)
            &&& forall|x: usize|
                d.perma@.contains(x) <==> exists|q: int|
                    0 <= q < f.len() && is_perma_pos(board@, f, q) && #[trigger] f[q] == x
            &&& forall|x: usize|
                d.live@.contains(x) <==> exists|q: int|
                    0 <= q < f.len() && !is_perma_pos(board@, f, q) && #[trigger] f[q] == x
            &&& d.perma@.len() == algorithm_a_perma_count(board@, f)
        }),
        d.live@.len() + d.perma@.len() == cells@.len(),
        forall|x: usize| cells@.contains(x) <==> (d.live@.contains(x) || d.perma@.contains(x)),
        forall|x: usize| !(d.live@.contains(x) && d.perma@.contains(x)),
        cells@.len() <= 10 ==> d.live@.len() < COLLAPSE_THRESHOLD,
        ({
            let f = final_order(board@, cells@);
            let n = cells@.len() as int;
            &&& n % 3 != 2 ==> d.perma@.len() == perma_floor(n)
            &&& n % 3 == 2 && board@.adjacent(f[n - 2] as int, f[n - 1] as int) ==> d.perma@.len() == perma_floor(n)
                && d.live@.contains(f[n - 2]) && d.live@.contains(f[n - 1])
            &&& n % 3 == 2 && !board@.adjacent(f[n - 2] as int, f[n - 1] as int) ==> d.perma@.len() == perma_floor(n)
                + 2
        }),
{
    let ghost m = board@;
    let n = cells.len();
    let ordered = auto_order(board, cells);
    let ghost f = final_order(m, cells@);
    // Positions i, i+1 of each triple -> live pair; position i+2 -> perma-dead.
    let mut perma: Vec<usize> = Vec::new();
    let mut i: usize = 0;
    while i < n && n - i > 2
        invariant
            n == cells@.len(),
            ordered@ == f,
            f.len() == n,
            i % 3 == 0,
            i <= n,
            perma@.len() == i / 3,
            forall|t: int| 0 <= t < perma@.len() ==> #[trigger] perma@[t] == f[3 * t + 2],
        decreases n - i,
    {
        let ghost old_perma = perma@;
        perma.push(ordered[i + 2]);
        proof {
            assert forall|t: int| 0 <= t < perma@.len() implies #[trigger] perma@[t] == f[3 * t + 2] by {
                if t < old_perma.len() {
                    assert(perma@[t] == old_perma[t]);
                }
            }
        }
        i += 3;
    }
    proof {
        assert(i == 3 * (n / 3));
    }

    // Remainder.
    let ghost main_perma = perma@;
    if n % 3 == 1 {
        perma.push(ordered[n - 1]);
    } else if n % 3 == 2 {
        // One extra live pair at the boundary if adjacent; else both perma.
        if !board.adjacent(ordered[n - 2], ordered[n - 1]) {
            perma.push(ordered[n - 2]);
            perma.push(ordered[n - 1]);
        }
    }
    proof {
        // `perma` lists exactly the cells at perma positions, one per position.
        assert(perma@.len() == algorithm_a_perma_count(m, f));
        assert forall|t: int| 0 <= t < perma@.len() implies exists|q: int|
            0 <= q < n && is_perma_pos(m, f, q) && #[trigger] perma@[t] == f[q] by {
            if t < main_perma.len() {
                assert(perma@[t] == f[3 * t + 2]);
                assert(is_perma_pos(m, f, 3 * t + 2));
            } else if n % 3 == 1 {
                assert(perma@[t] == f[n - 1]);
                assert(is_perma_pos(m, f, n - 1));
            } else {
                assert(perma@[t] == f[n - 2 + (t - main_perma.len())]);
                assert(is_perma_pos(m, f, n - 2 + (t - main_perma.len())));
            }
        }
        assert forall|q: int| 0 <= q < n && is_perma_pos(m, f, q) implies perma@.contains(f[q]) by {
            if q % 3 == 2 && q < n - n % 3 {
                let t = q / 3;
                assert(perma@[t] == f[3 * t + 2]);
            } else if n % 3 == 1 {
                assert(perma@[perma@.len() - 1] == f[q]);
            } else if q == n - 2 {
                assert(perma@[perma@.len() - 2] == f[q]);
            } else {
                assert(perma@[perma@.len() - 1] == f[q]);
            }
        }
        assert(perma@.no_duplicates()) by {
            assert forall|a: int, b: int| 0 <= a < perma@.len() && 0 <= b < perma@.len() && a != b
                implies perma@[a] != perma@[b] by {
                let qa = perma_position(m, f, main_perma.len() as int, a);
                let qb = perma_position(m, f, main_perma.len() as int, b);
                lemma_perma_position(m, f, perma@, main_perma.len() as int, a);
                lemma_perma_position(m, f, perma@, main_perma.len() as int, b);
            }
        }
    }

    let perma_sorted = sorted_distinct(&perma);
    let mut live_unsorted: Vec<usize> = Vec::new();
    let mut q: usize = 0;
    let ghost mut pc: int = 0;
    while q < n
        invariant
            n == f.len(),
            ordered@ == f,
            f.no_duplicates(),
            q <= n,
            forall|x: usize| perma@.contains(x) <==> exists|w: int|
                0 <= w < n && is_perma_pos(m, f, w) && #[trigger] f[w] == x,
            live_unsorted@.no_duplicates(),
            forall|x: usize| live_unsorted@.contains(x) <==> exists|w: int|
                0 <= w < q && !is_perma_pos(m, f, w) && #[trigger] f[w] == x,
            pc == perma_below(m, f, q as int),
            live_unsorted@.len() + pc == q,
        decreases n - q,
    {
        let x = ordered[q];
        proof {
            lemma_perma_below_step(m, f, q as int);
            // `f[q]` is perma exactly when position `q` is a perma position.
            if perma@.contains(x) {
                let w = choose|w: int| 0 <= w < n && is_perma_pos(m, f, w) && #[trigger] f[w] == x;
                assert(w == q);
            }
        }
        if !holds(&perma, x) {
            proof {
                assert(!live_unsorted@.contains(x)) by {
                    if live_unsorted@.contains(x) {
                        let w = choose|w: int| 0 <= w < q && !is_perma_pos(m, f, w) && #[trigger] f[w] == x;
                    }
                }
            }
            let ghost old_live = live_unsorted@;
            live_unsorted.push(x);
            proof {
                assert forall|y: usize| live_unsorted@.contains(y) <==> exists|w: int|
                    0 <= w < q + 1 && !is_perma_pos(m, f, w) && #[trigger] f[w] == y by {
                    if live_unsorted@.contains(y) && y != x {
                        let t = choose|t: int| 0 <= t < live_unsorted@.len() && live_unsorted@[t] == y;
                        assert(old_live[t] == y);
                    }
                    if exists|w: int| 0 <= w < q + 1 && !is_perma_pos(m, f, w) && #[trigger] f[w] == y {
                        let w = choose|w: int| 0 <= w < q + 1 && !is_perma_pos(m, f, w) && #[trigger] f[w] == y;
                        if w < q {
                            assert(old_live.contains(y));
                            let t = choose|t: int| 0 <= t < old_live.len() && old_live[t] == y;
                            assert(live_unsorted@[t] == y);
                        } else {
                            assert(live_unsorted@[live_unsorted@.len() - 1] == y);
                        }
                    }
                }
            }
        } else {
            proof {
                pc = pc + 1;
                assert forall|y: usize| live_unsorted@.contains(y) <==> exists|w: int|
                    0 <= w < q + 1 && !is_perma_pos(m, f, w) && #[trigger] f[w] == y by {
                    if exists|w: int| 0 <= w < q + 1 && !is_perma_pos(m, f, w) && #[trigger] f[w] == y {
                        let w = choose|w: int| 0 <= w < q + 1 && !is_perma_pos(m, f, w) && #[trigger] f[w] == y;
                        assert(w != q);
                    }
                }
            }
        }
        q += 1;
    }
    proof {
        lemma_perma_below_all(m, f);
    }
    let live = sorted_distinct(&live_unsorted);
    proof {
        assert forall|x: usize| cells@.contains(x) <==> (live@.contains(x) || perma_sorted@.contains(x)) by {
            if cells@.contains(x) {
                assert(f.contains(x));
                let w = choose|w: int| 0 <= w < n && f[w] == x;
                if is_perma_pos(m, f, w) {
                    assert(perma@.contains(x));
                } else {
                    assert(live_unsorted@.contains(x));
                }
            }
            if live@.contains(x) {
                let w = choose|w: int| 0 <= w < n && !is_perma_pos(m, f, w) && #[trigger] f[w] == x;
                assert(f.contains(x));
            }
            if perma_sorted@.contains(x) {
                let w = choose|w: int| 0 <= w < n && is_perma_pos(m, f, w) && #[trigger] f[w] == x;
                assert(f.contains(x));
            }
        }
        assert forall|x: usize| !(live@.contains(x) && perma_sorted@.contains(x)) by {
            if live@.contains(x) && perma_sorted@.contains(x) {
                let w1 = choose|w: int| 0 <= w < n && !is_perma_pos(m, f, w) && #[trigger] f[w] == x;
                let w2 = choose|w: int| 0 <= w < n && is_perma_pos(m, f, w) && #[trigger] f[w] == x;
            }
        }
    }
    proof {
        lemma_count_table(m, f);
        if n % 3 == 2 && m.adjacent(f[n - 2] as int, f[n - 1] as int) {
            assert(!is_perma_pos(m, f, n - 2) && f[n - 2] == f[n - 2]);
            assert(!is_perma_pos(m, f, n - 1) && f[n - 1] == f[n - 1]);
        }
    }
    Dispersal { live, perma: perma_sorted }
}

/// Number of candidate live pairs in final order `f`: one per triple, plus the
/// remainder pair when it is face-adjacent. Pair `k` sits at positions `3k`
/// and `3k + 1`.
pub open spec fn pair_count(m: BoardModel, f: Seq<usize>) -> int {
    let n = f.len() as int;
    n / 3 + if n % 3 == 2 && m.adjacent(f[n - 2] as int, f[n - 1] as int) {
        1int
    } else {
        0int
    }
}

/// No kept cell lies in a kept component of seven or more cells.
pub open spec fn mask_legal(m: BoardModel, mask: Seq<bool>) -> bool {
    forall|x: int| 0 <= x < m.len() && #[trigger] mask[x] ==> component_size(m, mask, x) < COLLAPSE_THRESHOLD
}

/// The live cells kept once the separation guard has looked at the first `k`
/// candidate pairs, in order: a pair is kept when the live cells with it still
/// form no component of seven or more (only the pair's own component can have
/// grown), and demoted to perma-dead otherwise.
pub open spec fn guarded_mask(m: BoardModel, f: Seq<usize>, k: nat) -> Seq<bool>
    decreases k,
{
    if k == 0 {
        Seq::new(m.len(), |x: int| false)
    } else {
        let prev = guarded_mask(m, f, (k - 1) as nat);
        let cand = prev.update(f[3 * (k - 1)] as int, true).update(f[3 * (k - 1) + 1] as int, true);
        if mask_legal(m, cand) {
            cand
        } else {
            prev
        }
    }
}

/// The live cells of the auto layout: Algorithm A's pairs that pass the
/// separation guard.
pub open spec fn guarded_live(m: BoardModel, f: Seq<usize>) -> Seq<bool> {
    guarded_mask(m, f, pair_count(m, f) as nat)
}

/// The guard keeps its promise at every step: the kept cells never form a
/// component of seven or more, and every kept cell is a cell of one of the
/// pairs looked at.
pub proof fn lemma_guarded_mask(m: BoardModel, f: Seq<usize>, k: nat)
    requires
        3 * k <= f.len() + 1,
        forall|q: int| 0 <= q < f.len() ==> #[trigger] f[q] < m.len(),
    ensures
        guarded_mask(m, f, k).len() == m.len(),
        mask_legal(m, guarded_mask(m, f, k)),
        forall|x: int|
            0 <= x < m.len() && #[trigger] guarded_mask(m, f, k)[x] ==> exists|q: int|
                0 <= q < 3 * k && q % 3 != 2 && q < f.len() && #[trigger] f[q] == x,
    decreases k,
{
    if k > 0 {
        lemma_guarded_mask(m, f, (k - 1) as nat);
        let prev = guarded_mask(m, f, (k - 1) as nat);
        let a = f[3 * (k - 1)] as int;
        let b = f[3 * (k - 1) + 1] as int;
        let cand = prev.update(a, true).update(b, true);
        assert forall|x: int| 0 <= x < m.len() && #[trigger] guarded_mask(m, f, k)[x] implies exists|q: int|
            0 <= q < 3 * k && q % 3 != 2 && q < f.len() && #[trigger] f[q] == x by {
            if mask_legal(m, cand) && !prev[x] {
                if x == b {
                    assert(f[3 * (k - 1) + 1] == x);
                } else {
                    assert(f[3 * (k - 1)] == x);
                }
            } else {
                let q = choose|q: int| 0 <= q < 3 * (k - 1) && q % 3 != 2 && q < f.len() && #[trigger] f[q] == x;
                assert(f[q] == x);
            }
        }
    }
}

/// The count table on Algorithm A's final order: the third cell of each
/// triple is perma-dead and its first two are not; with one cell over it is
/// perma-dead; with two over they stay a live pair exactly when face-adjacent.
/// So the perma-dead count is the table's floor `n / 3 (+1 when n mod 3 == 1)`,
/// plus two only for a non-adjacent remainder pair.
pub proof fn lemma_count_table(m: BoardModel, f: Seq<usize>)
    ensures
        ({
            let n = f.len() as int;
            &&& forall|q: int| 0 <= q < n - n % 3 ==> (is_perma_pos(m, f, q) <==> q % 3 == 2)
            &&& n % 3 == 1 ==> is_perma_pos(m, f, n - 1)
            &&& n % 3 == 2 && m.adjacent(f[n - 2] as int, f[n - 1] as int) ==> !is_perma_pos(m, f, n - 2)
                && !is_perma_pos(m, f, n - 1) && algorithm_a_perma_count(m, f) == perma_floor(n)
                && pair_count(m, f) == n / 3 + 1
            &&& n % 3 == 2 && !m.adjacent(f[n - 2] as int, f[n - 1] as int) ==> is_perma_pos(m, f, n - 2)
                && is_perma_pos(m, f, n - 1) && algorithm_a_perma_count(m, f) == perma_floor(n) + 2
                && pair_count(m, f) == n / 3
            &&& n % 3 != 2 ==> algorithm_a_perma_count(m, f) == perma_floor(n) && pair_count(m, f) == n / 3
        }),
{
}

/// Positions `q < 3·pair_count` off the third slot of a triple are exactly
/// the positions Algorithm A does not make perma-dead.
proof fn lemma_pair_positions(m: BoardModel, f: Seq<usize>, q: int)
    requires
        0 <= q < f.len(),
    ensures
        (q < 3 * pair_count(m, f) && q % 3 != 2) <==> !is_perma_pos(m, f, q),
{
    lemma_count_table(m, f);
}

proof fn lemma_count_true_update(s: Seq<bool>, i: int)
    requires
        0 <= i < s.len(),
    ensures
        count_true(s.update(i, true)) <= count_true(s) + 1,
    decreases s.len(),
{
    let u = s.update(i, true);
    if i == s.len() - 1 {
        assert(u.drop_last() =~= s.drop_last());
    } else {
        lemma_count_true_update(s.drop_last(), i);
        assert(u.drop_last() =~= s.drop_last().update(i, true));
    }
}

proof fn lemma_count_true_mono(a: Seq<bool>, b: Seq<bool>)
    requires
        a.len() == b.len(),
        forall|i: int| 0 <= i < a.len() && #[trigger] a[i] ==> b[i],
    ensures
        count_true(a) <= count_true(b),
    decreases a.len(),
{
    if a.len() > 0 {
        lemma_count_true_mono(a.drop_last(), b.drop_last());
    }
}

/// A kept cell's component holds no more cells than are kept.
proof fn lemma_component_within(m: BoardModel, mask: Seq<bool>, x: int)
    requires
        0 <= x < m.len(),
        mask.len() == m.len(),
        mask[x],
    ensures
        component_size(m, mask, x) <= count_true(mask),
{
    let c = Seq::new(m.len(), |y: int| connected(m, mask, x, y));
    assert forall|y: int| 0 <= y < c.len() && #[trigger] c[y] implies mask[y] by {
        crate::mesh::lemma_connected_members(m, mask, x, y);
    }
    lemma_count_true_mono(c, mask);
}

/// While at most three pairs have been looked at, the kept cells are too few
/// to reach the collapse size, so the guard keeps every pair.
proof fn lemma_guard_small(m: BoardModel, f: Seq<usize>, k: nat)
    requires
        k <= 3,
        3 * k <= f.len() + 1,
        forall|q: int| 0 <= q < f.len() ==> #[trigger] f[q] < m.len(),
    ensures
        guarded_mask(m, f, k).len() == m.len(),
        count_true(guarded_mask(m, f, k)) <= 2 * k,
        forall|q: int| 0 <= q < 3 * k && q % 3 != 2 && q < f.len() ==> guarded_mask(m, f, k)[#[trigger] f[q] as int],
    decreases k,
{
    if k == 0 {
        lemma_count_true_none(guarded_mask(m, f, 0));
    } else {
        lemma_guard_small(m, f, (k - 1) as nat);
        let prev = guarded_mask(m, f, (k - 1) as nat);
        let a = f[3 * (k - 1)] as int;
        let b = f[3 * (k - 1) + 1] as int;
        let mid = prev.update(a, true);
        let cand = mid.update(b, true);
        lemma_count_true_update(prev, a);
        lemma_count_true_update(mid, b);
        assert forall|x: int| 0 <= x < m.len() && #[trigger] cand[x] implies component_size(m, cand, x)
            < COLLAPSE_THRESHOLD by {
            lemma_component_within(m, cand, x);
        }
        assert(mask_legal(m, cand));
        assert(guarded_mask(m, f, k) == cand);
        assert forall|q: int| 0 <= q < 3 * k && q % 3 != 2 && q < f.len() implies cand[#[trigger] f[q] as int] by {
            if q < 3 * (k - 1) {
                assert(prev[f[q] as int]);
            } else if q == 3 * (k - 1) {
            } else {
                assert(q == 3 * (k - 1) + 1);
            }
        }
    }
}

/// On a crater of at most ten cells the separation guard demotes nothing: the
/// auto layout keeps live exactly the cells Algorithm A pairs.
pub proof fn lemma_small_crater_guard_keeps_all(m: BoardModel, f: Seq<usize>)
    requires
        f.len() <= 10,
        f.no_duplicates(),
        forall|q: int| 0 <= q < f.len() ==> #[trigger] f[q] < m.len(),
    ensures
        forall|q: int| 0 <= q < f.len() ==> (guarded_live(m, f)[#[trigger] f[q] as int] <==> !is_perma_pos(m, f, q)),
{
    let k = pair_count(m, f);
    lemma_count_table(m, f);
    lemma_guard_small(m, f, k as nat);
    lemma_guarded_mask(m, f, k as nat);
    assert forall|q: int| 0 <= q < f.len() implies (guarded_live(m, f)[#[trigger] f[q] as int]
        <==> !is_perma_pos(m, f, q)) by {
        lemma_pair_positions(m, f, q);
        if guarded_live(m, f)[f[q] as int] {
            let q2 = choose|q2: int| 0 <= q2 < 3 * k && q2 % 3 != 2 && q2 < f.len() && #[trigger] f[q2] == f[q] as int;
            assert(f[q2] == f[q]);
            assert(q2 == q);
        }
    }
}

/// Whether no kept cell of `mask` lies in a kept component of seven or more.
fn mask_is_legal(board: &Board, mask: &Vec<bool>) -> (r: bool)
    requires
        board.wf(),
        mask@.len() == board@.len(),
    ensures
        r == mask_legal(board@, mask@),
{
    let ghost m = board@;
    let len = board.len();
    let mut x: usize = 0;
    while x < len
        invariant
            board.wf(),
            m == board@,
            len == m.len(),
            mask@.len() == len,
            x <= len,
            forall|y: int| 0 <= y < x && #[trigger] mask@[y] ==> component_size(m, mask@, y) < COLLAPSE_THRESHOLD,
        decreases len - x,
    {
        if mask[x] {
            let seen = flood_fill(board, mask, x);
            let comp = marked_indices(&seen);
            proof {
                assert(seen@ =~= Seq::new(m.len(), |y: int| connected(m, mask@, x as int, y)));
            }
            if comp.len() >= COLLAPSE_THRESHOLD {
                assert(component_size(m, mask@, x as int) >= COLLAPSE_THRESHOLD);
                return false;
            }
        }
        x += 1;
    }
    true
}

/// The auto layout of a collapsed mesh: Algorithm A followed by the narrow
/// separation guard, which demotes a candidate live pair to perma-dead only when
/// keeping it would join live cells into a component of seven or more.
pub fn auto_layout(board: &Board, cells: &[usize]) -> (d: Dispersal)
    requires
        board.wf(),
        cells@.no_duplicates(),
        forall|q: int| 0 <= q < cells@.len() ==> #[trigger] cells@[q] < board@.len(),
    ensures
        ({
            let live = guarded_live(board@, final_order(board@, cells@));
            &&& strictly_sorted(d.live@)
            &&& strictly_sorted(d.perma@)
            &&& forall|x: usize| #[trigger] d.live@.contains(x) <==> (cells@.contains(x) && live[x as int])
            &&& forall|x: usize| #[trigger] d.perma@.contains(x) <==> (cells@.contains(x) && !live[x as int])
        }),
        d.live@.len() + d.perma@.len() == cells@.len(),
        !kept_shape_illegal(board@, cells@, d.perma@),
        layout_verdict(board@, cells@, d.perma@) is None,
        cells@.len() <= 10 ==> ({
            let f = final_order(board@, cells@);
            let n = cells@.len() as int;
            &&& forall|x: usize|
                d.perma@.contains(x) <==> exists|q: int|
                    0 <= q < f.len() && is_perma_pos(board@, f, q) && #[trigger] f[q] == x
            &&& n % 3 != 2 ==> d.perma@.len() == perma_floor(n)
            &&& n % 3 == 2 && board@.adjacent(f[n - 2] as int, f[n - 1] as int) ==> d.perma@.len() == perma_floor(n)
                && d.live@.contains(f[n - 2]) && d.live@.contains(f[n - 1])
            &&& n % 3 == 2 && !board@.adjacent(f[n - 2] as int, f[n - 1] as int) ==> d.perma@.len() == perma_floor(n)
                + 2
        }),
{
    let ghost m = board@;
    let ghost f = final_order(m, cells@);
    let n = cells.len();
    let len = board.len();
    let ordered = auto_order(board, cells);
    let pairs: usize = if n % 3 == 2 && board.adjacent(ordered[n - 2], ordered[n - 1]) {
        n / 3 + 1
    } else {
        n / 3
    };
    let mut mask: Vec<bool> = vec![false; len];
    proof {
        assert(mask@ =~= guarded_mask(m, f, 0));
    }
    let mut k: usize = 0;
    while k < pairs
        invariant
            board.wf(),
            m == board@,
            len == m.len(),
            n == f.len(),
            ordered@ == f,
            f.no_duplicates(),
            forall|q: int| 0 <= q < n ==> #[trigger] f[q] < m.len(),
            pairs == pair_count(m, f),
            k <= pairs,
            mask@ == guarded_mask(m, f, k as nat),
            mask@.len() == len,
        decreases pairs - k,
    {
        let a = ordered[3 * k];
        let b = ordered[3 * k + 1];
        let ghost prev = mask@;
        let old_a = mask[a];
        let old_b = mask[b];
        mask.set(a, true);
        mask.set(b, true);
        if !mask_is_legal(board, &mask) {
            mask.set(b, old_b);
            mask.set(a, old_a);
            assert(mask@ =~= prev);
        }
        k += 1;
    }
    // Algorithm A's perma-dead cells stay perma-dead; its live cells stay live
    // unless their pair was demoted.
    let base = algorithm_a(board, cells);
    proof {
        lemma_guarded_mask(m, f, pairs as nat);
        lemma_sorted_distinct(base.perma@);
        lemma_sorted_distinct(base.live@);
        assert forall|x: usize| #[trigger] base.perma@.contains(x) implies !mask@[x as int] by {
            let q = choose|q: int| 0 <= q < f.len() && is_perma_pos(m, f, q) && #[trigger] f[q] == x;
            if mask@[x as int] {
                assert(x < m.len());
                let q2 = choose|q2: int| 0 <= q2 < 3 * pairs && q2 % 3 != 2 && q2 < f.len() && #[trigger] f[q2] == x;
                assert(q2 == q);
                assert(!is_perma_pos(m, f, q2));
            }
        }
    }
    let mut live: Vec<usize> = Vec::new();
    let mut perma: Vec<usize> = Vec::new();
    let mut t: usize = 0;
    while t < base.perma.len()
        invariant
            t <= base.perma@.len(),
            perma@ == base.perma@.take(t as int),
        decreases base.perma@.len() - t,
    {
        perma.push(base.perma[t]);
        proof {
            assert(perma@ =~= base.perma@.take(t + 1));
        }
        t += 1;
    }
    proof {
        assert(perma@ =~= base.perma@);
        assert forall|w: int| 0 <= w < base.live@.len() implies #[trigger] base.live@[w] < m.len() by {
            assert(base.live@.contains(base.live@[w]));
            assert(cells@.contains(base.live@[w]));
            let k = choose|k: int| 0 <= k < cells@.len() && cells@[k] == base.live@[w];
        }
    }
    let mut q: usize = 0;
    while q < base.live.len()
        invariant
            mask@.len() == len,
            len == m.len(),
            q <= base.live@.len(),
            base.live@.no_duplicates(),
            base.perma@.no_duplicates(),
            forall|x: usize| !(base.live@.contains(x) && base.perma@.contains(x)),
            forall|x: usize| #[trigger] base.perma@.contains(x) ==> !mask@[x as int],
            forall|w: int| 0 <= w < base.live@.len() ==> #[trigger] base.live@[w] < m.len(),
            live@.no_duplicates(),
            perma@.no_duplicates(),
            live@.len() + perma@.len() == base.perma@.len() + q,
            perma@.len() >= base.perma@.len(),
            forall|x: usize| live@.contains(x) <==> (base.live@.take(q as int).contains(x) && mask@[x as int]),
            forall|x: usize|
                perma@.contains(x) <==> (base.perma@.contains(x) || (base.live@.take(q as int).contains(x)
                    && !mask@[x as int])),
        decreases base.live@.len() - q,
    {
        let x = base.live[q];
        let ghost t0 = base.live@.take(q as int);
        let ghost t1 = base.live@.take(q + 1);
        proof {
            assert(base.live@.contains(x));
            assert(!t0.contains(x)) by {
                if t0.contains(x) {
                    let w = choose|w: int| 0 <= w < q && #[trigger] t0[w] == x;
                    assert(base.live@[w] == base.live@[q as int]);
                }
            }
            assert forall|y: usize| t1.contains(y) <==> (t0.contains(y) || y == x) by {
                if t1.contains(y) {
                    let w = choose|w: int| 0 <= w < q + 1 && #[trigger] t1[w] == y;
                    if w < q {
                        assert(t0[w] == y);
                    }
                }
                if t0.contains(y) {
                    let w = choose|w: int| 0 <= w < q && #[trigger] t0[w] == y;
                    assert(t1[w] == y);
                }
                if y == x {
                    assert(t1[q as int] == y);
                }
            }
        }
        let ghost old_live = live@;
        let ghost old_perma = perma@;
        if mask[x] {
            live.push(x);
        } else {
            perma.push(x);
        }
        proof {
            assert forall|y: usize| live@.contains(y) <==> (old_live.contains(y) || (y == x && mask@[x as int])) by {
                if live@.contains(y) && !(y == x && mask@[x as int]) {
                    let w = choose|w: int| 0 <= w < live@.len() && live@[w] == y;
                    assert(old_live[w] == y);
                }
                if old_live.contains(y) {
                    let w = choose|w: int| 0 <= w < old_live.len() && old_live[w] == y;
                    assert(live@[w] == y);
                }
                if y == x && mask@[x as int] {
                    assert(live@[live@.len() - 1] == y);
                }
            }
            assert forall|y: usize| perma@.contains(y) <==> (old_perma.contains(y) || (y == x && !mask@[x as int])) by {
                if perma@.contains(y) && !(y == x && !mask@[x as int]) {
                    let w = choose|w: int| 0 <= w < perma@.len() && perma@[w] == y;
                    assert(old_perma[w] == y);
                }
                if old_perma.contains(y) {
                    let w = choose|w: int| 0 <= w < old_perma.len() && old_perma[w] == y;
                    assert(perma@[w] == y);
                }
                if y == x && !mask@[x as int] {
                    assert(perma@[perma@.len() - 1] == y);
                }
            }
            assert forall|y: usize| live@.contains(y) <==> (t1.contains(y) && mask@[y as int]) by {
                assert(t1.contains(y) <==> (t0.contains(y) || y == x));
                assert(old_live.contains(y) <==> (t0.contains(y) && mask@[y as int]));
            }
            assert forall|y: usize|
                perma@.contains(y) <==> (base.perma@.contains(y) || (t1.contains(y) && !mask@[y as int])) by {
                assert(t1.contains(y) <==> (t0.contains(y) || y == x));
                assert(old_perma.contains(y) <==> (base.perma@.contains(y) || (t0.contains(y)
                    && !mask@[y as int])));
            }
            assert(!old_perma.contains(x)) by {
                assert(!base.perma@.contains(x));
            }
        }
        q += 1;
    }
    assert(base.live@.take(base.live@.len() as int) =~= base.live@);
    let live_sorted = sorted_distinct(&live);
    let perma_sorted = sorted_distinct(&perma);
    proof {
        let gl = guarded_live(m, f);
        assert(mask@ == gl);
        assert forall|x: usize| cells@.contains(x) <==> f.contains(x) by {}
        // a kept cell is a crater cell, hence one of Algorithm A's live cells
        assert forall|x: usize| #[trigger] live_sorted@.contains(x) <==> (cells@.contains(x) && gl[x as int]) by {
            if cells@.contains(x) && gl[x as int] {
                assert(base.live@.contains(x) || base.perma@.contains(x));
            }
        }
        assert forall|x: usize| #[trigger] perma_sorted@.contains(x) <==> (cells@.contains(x) && !gl[x as int]) by {
            if cells@.contains(x) && !gl[x as int] {
                assert(base.live@.contains(x) || base.perma@.contains(x));
            }
        }
        assert(kept_mask(m, cells@, perma_sorted@) =~= gl) by {
            assert forall|b: int| 0 <= b < m.len() implies kept_mask(m, cells@, perma_sorted@)[b] == gl[b] by {
                if gl[b] {
                    let w = choose|w: int| 0 <= w < 3 * pairs && w % 3 != 2 && w < f.len() && #[trigger] f[w] == b;
                    assert(f.contains(f[w]));
                }
            }
        }
        if kept_shape_illegal(m, cells@, perma_sorted@) {
            let x = choose|x: int| 0 <= x < m.len() && #[trigger] kept_mask(m, cells@, perma_sorted@)[x] && component_size(
                m,
                kept_mask(m, cells@, perma_sorted@),
                x,
            ) >= COLLAPSE_THRESHOLD;
            assert(gl[x]);
        }
        assert forall|t: int| !#[trigger] first_bad(cells@, perma_sorted@, t) by {
            if 0 <= t < perma_sorted@.len() {
                assert(perma_sorted@.contains(perma_sorted@[t]));
                if perma_sorted@.take(t).contains(perma_sorted@[t]) {
                    let w = choose|w: int| 0 <= w < t && perma_sorted@.take(t)[w] == perma_sorted@[t];
                    assert(perma_sorted@[w] < perma_sorted@[t]);
                }
            }
        }
        assert(perma_sorted@.len() >= perma_floor(cells@.len() as int));
    }
    proof {
        if n <= 10 {
            lemma_small_crater_guard_keeps_all(m, f);
            let gl = guarded_live(m, f);
            assert forall|x: usize| perma_sorted@.contains(x) <==> base.perma@.contains(x) by {
                if perma_sorted@.contains(x) {
                    assert(cells@.contains(x) && !gl[x as int]);
                    assert(f.contains(x));
                    let q = choose|q: int| 0 <= q < f.len() && f[q] == x;
                    assert(!gl[f[q] as int]);
                }
                if base.perma@.contains(x) {
                    let q = choose|q: int| 0 <= q < f.len() && is_perma_pos(m, f, q) && #[trigger] f[q] == x;
                    assert(!gl[f[q] as int]);
                    assert(f.contains(x));
                }
            }
            assert forall|x: usize| live_sorted@.contains(x) <==> base.live@.contains(x) by {
                if live_sorted@.contains(x) {
                    assert(cells@.contains(x) && gl[x as int]);
                    assert(f.contains(x));
                    let q = choose|q: int| 0 <= q < f.len() && f[q] == x;
                    assert(gl[f[q] as int]);
                }
                if base.live@.contains(x) {
                    let q = choose|q: int| 0 <= q < f.len() && !is_perma_pos(m, f, q) && #[trigger] f[q] == x;
                    assert(gl[f[q] as int]);
                    assert(f.contains(x));
                }
            }
            lemma_strictly_sorted_unique(perma_sorted@, base.perma@);
            lemma_strictly_sorted_unique(live_sorted@, base.live@);
        }
    }
    Dispersal { live: live_sorted, perma: perma_sorted }
}

/// The position of `f` whose cell is entry `t` of the unsorted perma list.
spec fn perma_position(m: BoardModel, f: Seq<usize>, main: int, t: int) -> int {
    let n = f.len() as int;
    if t < main {
        3 * t + 2
    } else if n % 3 == 1 {
        n - 1
    } else {
        n - 2 + (t - main)
    }
}

proof fn lemma_perma_position(m: BoardModel, f: Seq<usize>, perma: Seq<usize>, main: int, t: int)
    requires
        f.len() >= 0,
        main == f.len() / 3,
        0 <= t < perma.len(),
        perma.len() == algorithm_a_perma_count(m, f),
        forall|s: int| 0 <= s < main ==> #[trigger] perma[s] == f[3 * s + 2],
        f.len() % 3 == 1 ==> perma.len() == main + 1 && perma[main] == f[f.len() - 1],
        f.len() % 3 == 2 && perma.len() == main + 2 ==> perma[main] == f[f.len() - 2]
            && perma[main + 1] == f[f.len() - 1],
    ensures
        0 <= perma_position(m, f, main, t) < f.len(),
        perma[t] == f[perma_position(m, f, main, t)],
        forall|u: int| 0 <= u < perma.len() && u != t ==> perma_position(m, f, main, u) != perma_position(m, f, main, t),
{
}

/// Two sequences of equal length with the same elements, the first without
/// repeats: the second has none either.
proof fn lemma_same_elems_distinct(a: Seq<usize>, b: Seq<usize>)
    requires
        a.no_duplicates(),
        a.len() == b.len(),
        forall|x: usize| b.contains(x) <==> a.contains(x),
    ensures
        b.no_duplicates(),
{
    a.unique_seq_to_set();
    assert(a.to_set() =~= b.to_set());
    b.lemma_no_dup_set_cardinality();
}


/// Why a chosen wreckage layout was rejected.
#[derive(Clone, Copy, Debug, PartialEq, Eq, Structural)]
pub enum LayoutError {
    /// A chosen perma-dead cell is not part of the collapsed crater.
    NotInFootprint,
    /// The same perma-dead cell was listed twice.
    Duplicate,
    /// Fewer perma-dead than the locked count floor.
    TooFewPerma,
    /// The kept live cells would form a component of `≥ COLLAPSE_THRESHOLD`.
    IllegalShape,
}

/// Entry `t` of the chosen perma list is outside the crater or repeats an
/// earlier entry.
pub open spec fn layout_bad_at(footprint: Seq<usize>, perma: Seq<usize>, t: int) -> bool {
    !footprint.contains(perma[t]) || perma.take(t).contains(perma[t])
}

/// Entry `t` is the first bad entry of the chosen perma list.
pub open spec fn first_bad(footprint: Seq<usize>, perma: Seq<usize>, t: int) -> bool {
    &&& 0 <= t < perma.len()
    &&& layout_bad_at(footprint, perma, t)
    &&& forall|u: int| 0 <= u < t ==> !#[trigger] layout_bad_at(footprint, perma, u)
}

/// The crater cells a layout keeps live.
pub open spec fn kept_mask(m: BoardModel, footprint: Seq<usize>, perma: Seq<usize>) -> Seq<bool> {
    Seq::new(m.len(), |b: int| footprint.contains(b as usize) && !perma.contains(b as usize))
}

/// Number of cells joined to `x` through cells the mask admits.
pub open spec fn component_size(m: BoardModel, mask: Seq<bool>, x: int) -> nat {
    count_true(Seq::new(m.len(), |y: int| connected(m, mask, x, y)))
}

/// Some kept cell lies in a kept component of seven or more cells.
pub open spec fn kept_shape_illegal(m: BoardModel, footprint: Seq<usize>, perma: Seq<usize>) -> bool {
    exists|x: int|
        0 <= x < m.len() && #[trigger] kept_mask(m, footprint, perma)[x] && component_size(
            m,
            kept_mask(m, footprint, perma),
            x,
        ) >= COLLAPSE_THRESHOLD
}

/// The first reason a chosen layout is rejected, in the order the checks run.
pub open spec fn layout_verdict(m: BoardModel, footprint: Seq<usize>, perma: Seq<usize>) -> Option<
    LayoutError,
> {
    if exists|t: int| #[trigger] first_bad(footprint, perma, t) {
        let t = choose|t: int| #[trigger] first_bad(footprint, perma, t);
        if !footprint.contains(perma[t]) {
            Some(LayoutError::NotInFootprint)
        } else {
            Some(LayoutError::Duplicate)
        }
    } else if perma.len() < perma_floor(footprint.len() as int) {
        Some(LayoutError::TooFewPerma)
    } else if kept_shape_illegal(m, footprint, perma) {
        Some(LayoutError::IllegalShape)
    } else {
        None
    }
}

/// Check a steward-chosen wreckage layout for crater `footprint`: the chosen
/// `perma` cells must lie in the crater, be listed once, meet the count floor,
/// and leave no kept live component of seven or more.
pub fn validate_layout(board: &Board, footprint: &[usize], perma: &[usize]) -> (r: Result<
    Dispersal,
    LayoutError,
>)
    requires
        board.wf(),
        footprint@.no_duplicates(),
        forall|q: int| 0 <= q < footprint@.len() ==> #[trigger] footprint@[q] < board@.len(),
    ensures
        r == Err::<Dispersal, LayoutError>(LayoutError::NotInFootprint) <==> exists|t: int|
            #[trigger] first_bad(footprint@, perma@, t) && !footprint@.contains(perma@[t]),
        r == Err::<Dispersal, LayoutError>(LayoutError::Duplicate) <==> exists|t: int|
            #[trigger] first_bad(footprint@, perma@, t) && footprint@.contains(perma@[t]),
        r == Err::<Dispersal, LayoutError>(LayoutError::TooFewPerma) <==> (forall|t: int|
            !#[trigger] first_bad(footprint@, perma@, t)) && perma@.len() < perma_floor(
            footprint@.len() as int,
        ),
        r == Err::<Dispersal, LayoutError>(LayoutError::IllegalShape) <==> (forall|t: int|
            !#[trigger] first_bad(footprint@, perma@, t)) && perma@.len() >= perma_floor(
            footprint@.len() as int,
        ) && kept_shape_illegal(board@, footprint@, perma@),
        match layout_verdict(board@, footprint@, perma@) {
            Some(e) => r == Err::<Dispersal, LayoutError>(e),
            None => r is Ok,
        },
        r matches Ok(d) ==> {
            &&& d.perma@.len() == perma@.len()
            &&& forall|x: usize| d.perma@.contains(x) ==> footprint@.contains(x)
            &&& strictly_sorted(d.perma@)
            &&& strictly_sorted(d.live@)
            &&& forall|x: usize| d.perma@.contains(x) <==> perma@.contains(x)
            &&& forall|x: usize|
                d.live@.contains(x) <==> (footprint@.contains(x) && !perma@.contains(x))
        },
{
    let ghost m = board@;
    // Every chosen cell lies in the crater and is listed once.
    let mut t: usize = 0;
    while t < perma.len()
        invariant
            t <= perma@.len(),
            forall|u: int| 0 <= u < t ==> !#[trigger] layout_bad_at(footprint@, perma@, u),
        decreases perma@.len() - t,
    {
        let c = perma[t];
        let in_fp = slice_holds(footprint, c);
        if !in_fp {
            assert(first_bad(footprint@, perma@, t as int));
            proof {
                lemma_first_bad_unique(footprint@, perma@, t as int);
            }
            return Err(LayoutError::NotInFootprint);
        }
        let mut u: usize = 0;
        while u < t
            invariant
                u <= t,
                t < perma@.len(),
                c == perma@[t as int],
                footprint@.contains(c),
                forall|w: int| 0 <= w < t ==> !#[trigger] layout_bad_at(footprint@, perma@, w),
                forall|w: int| 0 <= w < u ==> perma@[w] != c,
            decreases t - u,
        {
            if perma[u] == c {
                assert(perma@.take(t as int)[u as int] == c);
                assert(perma@.take(t as int).contains(c));
                assert(first_bad(footprint@, perma@, t as int));
                proof {
                    lemma_first_bad_unique(footprint@, perma@, t as int);
                }
                return Err(LayoutError::Duplicate);
            }
            u += 1;
        }
        assert(!perma@.take(t as int).contains(c)) by {
            if perma@.take(t as int).contains(c) {
                let w = choose|w: int| 0 <= w < t && perma@.take(t as int)[w] == c;
            }
        }
        t += 1;
    }
    proof {
        assert forall|t: int| !#[trigger] first_bad(footprint@, perma@, t) by {}
    }
    let (_, floor) = dispersal_counts(footprint.len());
    if perma.len() < floor {
        return Err(LayoutError::TooFewPerma);
    }
    // The kept cells, and the mask that admits exactly them.
    let len = board.len();
    let mut mask: Vec<bool> = Vec::new();
    let mut b: usize = 0;
    while b < len
        invariant
            len == m.len(),
            b <= len,
            mask@ =~= kept_mask(m, footprint@, perma@).take(b as int),
        decreases len - b,
    {
        mask.push(slice_holds(footprint, b) && !slice_holds(perma, b));
        b += 1;
    }
    assert(mask@ =~= kept_mask(m, footprint@, perma@));
    let mut x: usize = 0;
    while x < len
        invariant
            board.wf(),
            m == board@,
            len == m.len(),
            x <= len,
            mask@ == kept_mask(m, footprint@, perma@),
            forall|t: int| !#[trigger] first_bad(footprint@, perma@, t),
            perma@.len() >= perma_floor(footprint@.len() as int),
            forall|y: int|
                0 <= y < x && #[trigger] mask@[y] ==> component_size(m, mask@, y) < COLLAPSE_THRESHOLD,
        decreases len - x,
    {
        if mask[x] {
            let seen = flood_fill(board, &mask, x);
            let comp = marked_indices(&seen);
            proof {
                assert(seen@ =~= Seq::new(m.len(), |y: int| connected(m, mask@, x as int, y)));
            }
            if comp.len() >= COLLAPSE_THRESHOLD {
                assert(component_size(m, mask@, x as int) >= COLLAPSE_THRESHOLD);
                assert(kept_shape_illegal(m, footprint@, perma@));
                return Err(LayoutError::IllegalShape);
            }
        }
        x += 1;
    }
    let mut kept: Vec<usize> = Vec::new();
    let mut q: usize = 0;
    while q < footprint.len()
        invariant
            q <= footprint@.len(),
            footprint@.no_duplicates(),
            kept@.no_duplicates(),
            forall|y: usize| kept@.contains(y) <==> (footprint@.take(q as int).contains(y) && !perma@.contains(y)),
        decreases footprint@.len() - q,
    {
        let c = footprint[q];
        let ghost old_kept = kept@;
        let ghost ft = footprint@.take(q as int);
        let ghost ft1 = footprint@.take(q + 1);
        proof {
            assert(ft1 =~= ft.push(c));
            assert(!ft.contains(c)) by {
                if ft.contains(c) {
                    let w = choose|w: int| 0 <= w < q && ft[w] == c;
                    assert(footprint@[w] == footprint@[q as int]);
                }
            }
        }
        if !slice_holds(perma, c) {
            kept.push(c);
            proof {
                assert forall|y: usize| kept@.contains(y) <==> (ft1.contains(y) && !perma@.contains(y)) by {
                    if kept@.contains(y) && y != c {
                        let w = choose|w: int| 0 <= w < kept@.len() && kept@[w] == y;
                        assert(old_kept[w] == y);
                    }
                    if y != c && ft1.contains(y) {
                        let w = choose|w: int| 0 <= w < q + 1 && ft1[w] == y;
                        assert(ft[w] == y);
                    }
                    if y != c && old_kept.contains(y) {
                        let w = choose|w: int| 0 <= w < old_kept.len() && old_kept[w] == y;
                        assert(kept@[w] == y);
                    }
                    if y != c && ft.contains(y) {
                        let w = choose|w: int| 0 <= w < q && ft[w] == y;
                        assert(ft1[w] == y);
                    }
                    if y == c {
                        assert(kept@[kept@.len() - 1] == c);
                        assert(ft1[q as int] == c);
                    }
                }
            }
        } else {
            proof {
                assert forall|y: usize| kept@.contains(y) <==> (ft1.contains(y) && !perma@.contains(y)) by {
                    if y != c && ft1.contains(y) {
                        let w = choose|w: int| 0 <= w < q + 1 && ft1[w] == y;
                        assert(ft[w] == y);
                    }
                    if y != c && ft.contains(y) {
                        let w = choose|w: int| 0 <= w < q && ft[w] == y;
                        assert(ft1[w] == y);
                    }
                }
            }
        }
        q += 1;
    }
    assert(footprint@.take(footprint@.len() as int) =~= footprint@);
    let perma_vec = slice_to_vec(perma);
    proof {
        assert forall|a: int, b: int| 0 <= a < perma@.len() && 0 <= b < perma@.len() && a != b implies perma@[a] != perma@[b] by {
            if a < b {
                assert(!layout_bad_at(footprint@, perma@, b));
                assert(perma@.take(b)[a] == perma@[a]);
            } else {
                assert(!layout_bad_at(footprint@, perma@, a));
                assert(perma@.take(a)[b] == perma@[b]);
            }
        }
        assert(!kept_shape_illegal(m, footprint@, perma@));
        assert forall|x: usize| perma@.contains(x) implies footprint@.contains(x) by {
            let w = choose|w: int| 0 <= w < perma@.len() && perma@[w] == x;
            assert(!layout_bad_at(footprint@, perma@, w));
        }
    }
    let live = sorted_distinct(&kept);
    let perma_sorted = sorted_distinct(&perma_vec);
    Ok(Dispersal { live, perma: perma_sorted })
}

/// There is at most one first bad entry.
proof fn lemma_first_bad_unique(footprint: Seq<usize>, perma: Seq<usize>, t: int)
    requires
        first_bad(footprint, perma, t),
    ensures
        forall|u: int| #[trigger] first_bad(footprint, perma, u) ==> u == t,
{
    assert forall|u: int| #[trigger] first_bad(footprint, perma, u) implies u == t by {
        if u < t {
            assert(!layout_bad_at(footprint, perma, u));
        } else if t < u {
            assert(!layout_bad_at(footprint, perma, t));
        }
    }
}

/// Whether the slice holds `x`.
fn slice_holds(v: &[usize], x: usize) -> (r: bool)
    ensures
        r == v@.contains(x),
{
    let mut t: usize = 0;
    while t < v.len()
        invariant
            t <= v@.len(),
            forall|q: int| 0 <= q < t ==> v@[q] != x,
        decreases v@.len() - t,
    {
        if v[t] == x {
            return true;
        }
        t += 1;
    }
    false
}

/// An owned copy of a slice.
pub(crate) fn slice_to_vec(v: &[usize]) -> (r: Vec<usize>)
    ensures
        r@ == v@,
{
    let mut r: Vec<usize> = Vec::new();
    let mut t: usize = 0;
    while t < v.len()
        invariant
            t <= v@.len(),
            r@ =~= v@.take(t as int),
        decreases v@.len() - t,
    {
        r.push(v[t]);
        t += 1;
    }
    r
}

} // verus!
