//! Daily-seed derivation: the deterministic starting state of the shared daily
//! puzzle, fixed by the UTC date alone.
//!
//! Draw order (fixed, so every client derives the same day):
//! 1. Roster: slot 0 is `Easy`; a Fisher–Yates shuffle of `[Medium, Hard, Brutal]`
//!    into slots 1–3 uses stream words 0 and 1.
//! 2. `K = 3 + word 2 % 13`, so `K ∈ [3, 15]`.
//! 3. `K` distinct cell indices by a partial Fisher–Yates over `0..total` (step
//!    `p` uses word `3 + p`), then sorted ascending.
//! 4. `board_state_hash` = SHA-256 over the date bytes, `K` as `u32` LE, and each
//!    sorted index as `u32` LE.
use rand_chacha::ChaCha8Rng;
use rand_core::{RngCore, SeedableRng};
use vstd::prelude::*;
use vstd::string::StringSliceAdditionalSpecFns;

use crate::board::Board;
use crate::hash::{le_bytes, sha256, sha256_digest, u32_le_bytes};
use crate::dispersal::sorted_distinct;
use crate::mesh::strictly_sorted;

verus! {

/// AI difficulty tier for a steward slot. Slot 0 of the daily roster is always
/// `Easy`.
#[derive(Clone, Copy, Debug, PartialEq, Eq, Structural)]
pub enum Difficulty {
    Easy,
    Medium,
    Hard,
    Brutal,
}

/// The fully derived daily puzzle state.
#[derive(Clone, Debug, PartialEq, Eq)]
pub struct DailySeed {
    /// Per-slot AI difficulty; `roster[0]` is always `Easy`.
    pub roster: [Difficulty; 4],
    /// Number of pre-existing perma-dead cells, in `[3, 15]`.
    pub k: u32,
    /// Sorted, distinct cell indices that start as `PermaDead`; length `k`.
    pub perma_dead: Vec<usize>,
    /// SHA-256 over the date bytes, `k` LE and each sorted index as `u32` LE.
    pub board_state_hash: [u8; 32],
}

/// Word `pos` of the ChaCha8 stream (stream id 0) keyed by `seed`.
pub uninterp spec fn chacha8_word(seed: Seq<u8>, pos: u64) -> u32;

/// Builds `rand_chacha::ChaCha8Rng::from_seed(seed)`, seeks it to word `pos`
/// with `set_word_pos` and reads one `next_u32`: the stream's word at `pos`,
/// which is the `pos`-th value a fresh generator's `next_u32` calls return.
/// A function of `seed` and `pos` alone.
#[verifier::external_body]
pub(crate) fn chacha8_word_at(seed: [u8; 32], pos: u64) -> (w: u32)
    ensures
        w == chacha8_word(seed@, pos),
{
    let mut rng = ChaCha8Rng::from_seed(seed);
    rng.set_word_pos(pos as u128);
    rng.next_u32()
}

/// `s` with the entries at `a` and `b` exchanged.
pub open spec fn swap_at<T>(s: Seq<T>, a: int, b: int) -> Seq<T> {
    s.update(a, s[b]).update(b, s[a])
}

/// The roster after the two Fisher–Yates steps on slots 1–3: step one swaps
/// slot 3 with `1 + w0 % 3`, step two swaps slot 2 with `1 + w1 % 2`.
pub open spec fn daily_roster(w0: u32, w1: u32) -> Seq<Difficulty> {
    let start = seq![Difficulty::Easy, Difficulty::Medium, Difficulty::Hard, Difficulty::Brutal];
    let first = swap_at(start, 3, 1 + (w0 % 3) as int);
    swap_at(first, 2, 1 + (w1 % 2) as int)
}

/// Slot 0 is `Easy` and the roster holds each tier exactly once.
pub open spec fn roster_ok(r: Seq<Difficulty>) -> bool {
    &&& r.len() == 4
    &&& r[0] == Difficulty::Easy
    &&& r.contains(Difficulty::Medium)
    &&& r.contains(Difficulty::Hard)
    &&& r.contains(Difficulty::Brutal)
}

/// The perma-dead count drawn from word `w`.
pub open spec fn draw_k(w: u32) -> u32 {
    (3 + w % 13) as u32
}

/// The index array after the first `i` steps of a Fisher–Yates shuffle of
/// `0..total`; step `p` swaps position `p` with `p + draws[p] % (total - p)`.
pub open spec fn shuffle_prefix(total: nat, draws: Seq<u32>, i: nat) -> Seq<usize>
    decreases i,
{
    if i == 0 {
        Seq::new(total, |x: int| x as usize)
    } else {
        let p = (i - 1) as nat;
        swap_at(shuffle_prefix(total, draws, p), p as int, p + (draws[p as int] as int) % (total - p))
    }
}

/// `r` is `s` sorted ascending: strictly increasing, with the same elements.
pub open spec fn sorted_form_of(r: Seq<usize>, s: Seq<usize>) -> bool {
    &&& strictly_sorted(r)
    &&& forall|y: usize| r.contains(y) <==> s.contains(y)
}

/// The cells chosen by `k` shuffle steps over `0..total`, as drawn (unsorted).
pub open spec fn drawn_cells(total: nat, draws: Seq<u32>, k: nat) -> Seq<usize> {
    shuffle_prefix(total, draws, k).take(k as int)
}

/// The key of the day's stream: SHA-256 of `"ciris-daily-"` and the date bytes.
pub open spec fn daily_key(date: Seq<u8>) -> Seq<u8> {
    sha256_digest("ciris-daily-".spec_bytes() + date)
}

/// Word `pos` of the day's stream.
pub open spec fn daily_word(date: Seq<u8>, pos: u64) -> u32 {
    chacha8_word(daily_key(date), pos)
}

/// The day's perma-dead count.
pub open spec fn daily_k(date: Seq<u8>) -> u32 {
    draw_k(daily_word(date, 2))
}

/// The words the position draw of the day consumes: stream words `3..3 + count`.
pub open spec fn daily_draws(date: Seq<u8>, count: nat) -> Seq<u32> {
    Seq::new(count, |p: int| daily_word(date, (3 + p) as u64))
}

/// Each index as four little-endian bytes, in order.
pub open spec fn index_bytes(s: Seq<usize>) -> Seq<u8>
    decreases s.len(),
{
    if s.len() == 0 {
        seq![]
    } else {
        index_bytes(s.drop_last()) + le_bytes(s.last() as u32)
    }
}

/// The bytes the day's `board_state_hash` covers.
pub open spec fn daily_hash_preimage(date: Seq<u8>, k: u32, perma: Seq<usize>) -> Seq<u8> {
    date + le_bytes(k) + index_bytes(perma)
}

/// Exchanging two entries keeps a sequence free of duplicates.
proof fn lemma_swap_distinct(s: Seq<usize>, a: int, b: int)
    requires
        s.no_duplicates(),
        0 <= a < s.len(),
        0 <= b < s.len(),
    ensures
        swap_at(s, a, b).no_duplicates(),
        forall|y: usize| swap_at(s, a, b).contains(y) <==> s.contains(y),
{
    let t = swap_at(s, a, b);
    assert forall|p: int, q: int| 0 <= p < t.len() && 0 <= q < t.len() && p != q implies t[p] != t[q] by {
        let sp = if p == b { a } else if p == a { b } else { p };
        let sq = if q == b { a } else if q == a { b } else { q };
        assert(t[p] == s[sp]);
        assert(t[q] == s[sq]);
    }
    assert forall|y: usize| t.contains(y) <==> s.contains(y) by {
        if t.contains(y) {
            let p = choose|p: int| 0 <= p < t.len() && t[p] == y;
            let sp = if p == b { a } else if p == a { b } else { p };
            assert(s[sp] == y);
        }
        if s.contains(y) {
            let p = choose|p: int| 0 <= p < s.len() && s[p] == y;
            let tp = if p == b { a } else if p == a { b } else { p };
            assert(t[tp] == y);
        }
    }
}

/// The shuffled array stays a duplicate-free arrangement of `0..total`.
proof fn lemma_shuffle_prefix(total: nat, draws: Seq<u32>, i: nat)
    requires
        i <= total,
        i <= draws.len(),
        total <= usize::MAX,
    ensures
        shuffle_prefix(total, draws, i).len() == total,
        shuffle_prefix(total, draws, i).no_duplicates(),
        forall|q: int|
            0 <= q < total ==> #[trigger] shuffle_prefix(total, draws, i)[q] < total,
    decreases i,
{
    if i == 0 {
        let s = shuffle_prefix(total, draws, 0);
        assert forall|p: int, q: int| 0 <= p < s.len() && 0 <= q < s.len() && p != q implies s[p] != s[q] by {
            assert(s[p] == p as usize && s[q] == q as usize);
        }
    } else {
        let p = (i - 1) as nat;
        lemma_shuffle_prefix(total, draws, p);
        let prev = shuffle_prefix(total, draws, p);
        let j = p + (draws[p as int] as int) % (total - p);
        lemma_swap_distinct(prev, p as int, j);
        let cur = shuffle_prefix(total, draws, i);
        assert forall|q: int| 0 <= q < total implies #[trigger] cur[q] < total by {
            assert(cur.contains(cur[q]));
            let w = choose|w: int| 0 <= w < prev.len() && prev[w] == cur[q];
        }
    }
}

/// The daily roster from stream words 0 and 1.
pub fn shuffle_roster(w0: u32, w1: u32) -> (r: [Difficulty; 4])
    ensures
        r@ == daily_roster(w0, w1),
        roster_ok(r@),
{
    let mut r = [Difficulty::Easy, Difficulty::Medium, Difficulty::Hard, Difficulty::Brutal];
    let ghost start = r@;
    let j1: usize = 1 + (w0 % 3) as usize;
    let a = r[3];
    let b = r[j1];
    r[3] = b;
    r[j1] = a;
    let ghost first = r@;
    assert(first =~= swap_at(start, 3, j1 as int));
    let j2: usize = 1 + (w1 % 2) as usize;
    let c = r[2];
    let d = r[j2];
    r[2] = d;
    r[j2] = c;
    assert(r@ =~= swap_at(first, 2, j2 as int));
    proof {
        let s = r@;
        assert(s[0] == Difficulty::Easy);
        assert(s.contains(Difficulty::Medium)) by {
            if s[1] == Difficulty::Medium {
            } else if s[2] == Difficulty::Medium {
            } else {
                assert(s[3] == Difficulty::Medium);
            }
        }
        assert(s.contains(Difficulty::Hard)) by {
            if s[1] == Difficulty::Hard {
            } else if s[2] == Difficulty::Hard {
            } else {
                assert(s[3] == Difficulty::Hard);
            }
        }
        assert(s.contains(Difficulty::Brutal)) by {
            if s[1] == Difficulty::Brutal {
            } else if s[2] == Difficulty::Brutal {
            } else {
                assert(s[3] == Difficulty::Brutal);
            }
        }
    }
    r
}

/// The `k` perma-dead cells drawn from `0..total` by `k` partial Fisher–Yates
/// steps (step `p` uses `draws[p]`), sorted ascending.
pub fn perma_dead_draw(total: usize, k: usize, draws: &[u32]) -> (r: Vec<usize>)
    requires
        k <= total,
        k <= draws@.len(),
    ensures
        sorted_form_of(r@, drawn_cells(total as nat, draws@, k as nat)),
        r@.len() == k,
        forall|q: int| 0 <= q < r@.len() ==> #[trigger] r@[q] < total,
{
    let mut indices: Vec<usize> = Vec::new();
    let mut x: usize = 0;
    while x < total
        invariant
            x <= total,
            indices@ =~= Seq::new(x as nat, |y: int| y as usize),
        decreases total - x,
    {
        indices.push(x);
        x += 1;
    }
    let mut i: usize = 0;
    while i < k
        invariant
            i <= k,
            k <= total,
            k <= draws@.len(),
            indices@ == shuffle_prefix(total as nat, draws@, i as nat),
        decreases k - i,
    {
        proof {
            lemma_shuffle_prefix(total as nat, draws@, i as nat);
        }
        let remaining = total - i;
        let j = i + (draws[i] as usize % remaining);
        let a = indices[i];
        let b = indices[j];
        indices.set(i, b);
        indices.set(j, a);
        proof {
            let prev = shuffle_prefix(total as nat, draws@, i as nat);
            assert(indices@ =~= swap_at(prev, i as int, j as int));
        }
        i += 1;
    }
    proof {
        lemma_shuffle_prefix(total as nat, draws@, k as nat);
    }
    let ghost drawn = drawn_cells(total as nat, draws@, k as nat);
    let mut chosen: Vec<usize> = Vec::new();
    let mut t: usize = 0;
    while t < k
        invariant
            t <= k,
            k <= indices@.len(),
            chosen@ =~= indices@.take(t as int),
        decreases k - t,
    {
        chosen.push(indices[t]);
        t += 1;
    }
    proof {
        let full = shuffle_prefix(total as nat, draws@, k as nat);
        assert(chosen@ =~= drawn);
        assert forall|p: int, q: int| 0 <= p < drawn.len() && 0 <= q < drawn.len() && p != q implies drawn[p]
            != drawn[q] by {
            assert(drawn[p] == full[p] && drawn[q] == full[q]);
        }
    }
    let r = sorted_distinct(&chosen);
    proof {
        let full = shuffle_prefix(total as nat, draws@, k as nat);
        assert forall|q: int| 0 <= q < r@.len() implies #[trigger] r@[q] < total by {
            assert(r@.contains(r@[q]));
            let w = choose|w: int| 0 <= w < drawn.len() && drawn[w] == r@[q];
            assert(drawn[w] == full[w]);
        }
    }
    r
}

/// Append `bytes` to `out`.
fn append_bytes(out: &mut Vec<u8>, bytes: &[u8])
    ensures
        final(out)@ == old(out)@ + bytes@,
{
    let mut t: usize = 0;
    while t < bytes.len()
        invariant
            t <= bytes@.len(),
            out@ =~= old(out)@ + bytes@.take(t as int),
        decreases bytes@.len() - t,
    {
        out.push(bytes[t]);
        t += 1;
    }
    assert(bytes@.take(bytes@.len() as int) =~= bytes@);
}


/// The draws of the position step: stream words `3..3 + count` of `key`.
fn stream_words(key: [u8; 32], count: u32) -> (r: Vec<u32>)
    ensures
        r@ == Seq::new(count as nat, |p: int| chacha8_word(key@, (3 + p) as u64)),
{
    let mut r: Vec<u32> = Vec::new();
    let mut p: u32 = 0;
    while p < count
        invariant
            p <= count,
            r@ =~= Seq::new(p as nat, |x: int| chacha8_word(key@, (3 + x) as u64)),
        decreases count - p,
    {
        let w = chacha8_word_at(key, 3 + p as u64);
        r.push(w);
        p += 1;
    }
    r
}

/// The hash preimage bytes of the day: the date, `k` LE, each index as `u32` LE.
fn daily_hash_bytes(date: &[u8], k: u32, perma: &Vec<usize>) -> (r: Vec<u8>)
    ensures
        r@ == daily_hash_preimage(date@, k, perma@),
{
    let mut out: Vec<u8> = Vec::new();
    append_bytes(&mut out, date);
    let kb = u32_le_bytes(k);
    append_bytes(&mut out, &kb);
    let ghost head = out@;
    let mut t: usize = 0;
    while t < perma.len()
        invariant
            t <= perma@.len(),
            head == date@ + le_bytes(k),
            out@ =~= head + index_bytes(perma@.take(t as int)),
        decreases perma@.len() - t,
    {
        let ib = u32_le_bytes(perma[t] as u32);
        append_bytes(&mut out, &ib);
        proof {
            let s1 = perma@.take(t + 1);
            assert(s1.drop_last() =~= perma@.take(t as int));
            assert(s1.last() == perma@[t as int]);
        }
        t += 1;
    }
    assert(perma@.take(perma@.len() as int) =~= perma@);
    out
}

/// The cells the day's draw picks on an edge-`board_n` board, as drawn.
pub open spec fn daily_cells(date: Seq<u8>, board_n: u8) -> Seq<usize> {
    drawn_cells(Board::new_len_spec(board_n), daily_draws(date, daily_k(date) as nat), daily_k(date) as nat)
}

/// `ds` is the state derived for `date` on an edge-`board_n` board.
pub open spec fn is_daily_seed(ds: DailySeed, date: Seq<u8>, board_n: u8) -> bool {
    &&& ds.roster@ == daily_roster(daily_word(date, 0), daily_word(date, 1))
    &&& ds.k == daily_k(date)
    &&& sorted_form_of(ds.perma_dead@, daily_cells(date, board_n))
    &&& ds.board_state_hash@ == sha256_digest(daily_hash_preimage(date, ds.k, ds.perma_dead@))
}

/// Derive the daily puzzle state from an ISO-8601 UTC date (`"YYYY-MM-DD"`) and
/// a board edge length; indices range over the board's cells.
pub fn derive_daily_seed(utc_date_iso: &str, board_n: u8) -> (ds: DailySeed)
    requires
        daily_k(utc_date_iso.spec_bytes()) <= Board::new_len_spec(board_n),
    ensures
        is_daily_seed(ds, utc_date_iso.spec_bytes(), board_n),
        roster_ok(ds.roster@),
        3 <= ds.k <= 15,
        ds.perma_dead@.len() == ds.k,
        strictly_sorted(ds.perma_dead@),
        forall|q: int|
            0 <= q < ds.perma_dead@.len() ==> #[trigger] ds.perma_dead@[q] < Board::new_len_spec(board_n),
{
    let date = utc_date_iso.as_bytes();
    let mut pre: Vec<u8> = Vec::new();
    append_bytes(&mut pre, "ciris-daily-".as_bytes());
    append_bytes(&mut pre, date);
    let key = sha256(pre.as_slice());
    let board = Board::new(board_n);
    let total = board.len();
    proof {
        Board::lemma_new_len(board_n, board@);
    }
    let roster = shuffle_roster(chacha8_word_at(key, 0), chacha8_word_at(key, 1));
    let k: u32 = 3 + chacha8_word_at(key, 2) % 13;
    let draws = stream_words(key, k);
    let perma_dead = perma_dead_draw(total, k as usize, draws.as_slice());
    let hb = daily_hash_bytes(date, k, &perma_dead);
    let board_state_hash = sha256(hb.as_slice());
    proof {
        assert(draws@ =~= daily_draws(utc_date_iso.spec_bytes(), k as nat));
    }
    DailySeed { roster, k, perma_dead, board_state_hash }
}

/// The daily puzzle state, or `None` when the day's perma-dead count exceeds
/// the board's cell count (a board of edge 3 or less on some dates).
pub fn try_derive_daily_seed(utc_date_iso: &str, board_n: u8) -> (r: Option<DailySeed>)
    ensures
        r is Some <==> daily_k(utc_date_iso.spec_bytes()) <= Board::new_len_spec(board_n),
        r matches Some(ds) ==> is_daily_seed(ds, utc_date_iso.spec_bytes(), board_n),
{
    let date = utc_date_iso.as_bytes();
    let mut pre: Vec<u8> = Vec::new();
    append_bytes(&mut pre, "ciris-daily-".as_bytes());
    append_bytes(&mut pre, date);
    let key = sha256(pre.as_slice());
    let k: u32 = 3 + chacha8_word_at(key, 2) % 13;
    let board = Board::new(board_n);
    proof {
        Board::lemma_new_len(board_n, board@);
    }
    if (k as usize) <= board.len() {
        Some(derive_daily_seed(utc_date_iso, board_n))
    } else {
        None
    }
}

} // verus!
