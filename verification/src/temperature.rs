//! Mesh temperature and the resonance trigger, in exact integer arithmetic.
//!
//! ```text
//! T(M) = α·|M| + Σ_{N ∈ adj(M)} [ γ·|N|         if |N| ≥ |M|
//!                                 −β·(|M|−|N|)   if |M| >  |N|
//!                                 + δ·min(|M|,|N|) ]
//! ```
//!
//! The coefficients are the decimals α = 0.060, β = 0.080, γ = 0.050,
//! δ = 0.060; they are held here in thousandths so every value is exact.
//! Temperatures are returned in thousandths; the resonance margin in units of
//! 1/2000 (the condition carries a factor ½).
use vstd::prelude::*;

verus! {

/// Internal Brownian gain α, in thousandths.
pub const ALPHA_MILLI: i128 = 60;

/// Large-bleeds-to-small rate β, in thousandths.
pub const BETA_MILLI: i128 = 80;

/// Heated-by-larger gain γ, in thousandths.
pub const GAMMA_MILLI: i128 = 50;

/// Resonance gain δ, in thousandths.
pub const DELTA_MILLI: i128 = 60;

/// The smaller of two sizes.
pub open spec fn min_size(m: int, n: int) -> int {
    if m <= n {
        m
    } else {
        n
    }
}

/// The contribution of one adjacent enemy mesh of size `n` to the temperature
/// of a mesh of size `m`, in thousandths.
pub open spec fn pair_heat(m: int, n: int) -> int {
    (if n >= m {
        GAMMA_MILLI * n
    } else {
        -BETA_MILLI * (m - n)
    }) + DELTA_MILLI * min_size(m, n)
}

/// `T(M)` in thousandths for a mesh of size `m` whose adjacent enemy meshes
/// have the sizes in `enemies`.
pub open spec fn temperature_milli(m: int, enemies: Seq<usize>) -> int
    decreases enemies.len(),
{
    if enemies.len() == 0 {
        ALPHA_MILLI * m
    } else {
        temperature_milli(m, enemies.drop_last()) + pair_heat(m, enemies.last() as int)
    }
}

/// The resonance condition `δ·min(|M|,|N|) > ½·(α·|M| + γ·|N|)`, scaled by 2000:
/// the pair `(lhs, rhs)` with `lhs = 2·δ·min(m, n)` and `rhs = α·m + γ·n`.
pub open spec fn resonance_sides(m: int, n: int) -> (int, int) {
    (2 * DELTA_MILLI * min_size(m, n), ALPHA_MILLI * m + GAMMA_MILLI * n)
}

/// The pair `(m, n)` resonates.
pub open spec fn resonates(m: int, n: int) -> bool {
    resonance_sides(m, n).0 > resonance_sides(m, n).1
}

/// Raw temperature of a mesh of size `m_size` whose face-adjacent enemy meshes
/// have the given sizes, in thousandths.
pub fn temperature(m_size: usize, enemy_sizes: &[usize]) -> (t: i128)
    requires
        m_size <= u32::MAX,
        enemy_sizes@.len() <= u32::MAX,
        forall|q: int| 0 <= q < enemy_sizes@.len() ==> #[trigger] enemy_sizes@[q] <= u32::MAX,
    ensures
        t == temperature_milli(m_size as int, enemy_sizes@),
{
    let m = m_size as i128;
    let mut t: i128 = ALPHA_MILLI * m;
    let mut q: usize = 0;
    while q < enemy_sizes.len()
        invariant
            q <= enemy_sizes@.len(),
            enemy_sizes@.len() <= u32::MAX,
            forall|p: int| 0 <= p < enemy_sizes@.len() ==> #[trigger] enemy_sizes@[p] <= u32::MAX,
            m == m_size,
            m <= u32::MAX,
            t == temperature_milli(m as int, enemy_sizes@.take(q as int)),
            -858993459200 * (q + 1) <= t <= 858993459200 * (q + 1),
        decreases enemy_sizes@.len() - q,
    {
        let n_size = enemy_sizes[q];
        let n = n_size as i128;
        let low = if m <= n {
            m
        } else {
            n
        };
        let step: i128 = if n_size >= m_size {
            GAMMA_MILLI * n + DELTA_MILLI * low
        } else {
            DELTA_MILLI * low - BETA_MILLI * (m - n)
        };
        assert(-858993459200 <= step <= 858993459200) by (nonlinear_arith)
            requires
                0 <= m <= u32::MAX,
                0 <= n <= u32::MAX,
                0 <= low <= u32::MAX,
                step == GAMMA_MILLI * n + DELTA_MILLI * low || step == DELTA_MILLI * low - BETA_MILLI * (m - n),
                GAMMA_MILLI == 50,
                DELTA_MILLI == 60,
                BETA_MILLI == 80,
        ;
        t = t + step;
        proof {
            let s1 = enemy_sizes@.take(q + 1);
            assert(s1.drop_last() =~= enemy_sizes@.take(q as int));
            assert(s1.last() == n_size);
        }
        q += 1;
    }
    assert(enemy_sizes@.take(enemy_sizes@.len() as int) =~= enemy_sizes@);
    t
}

/// The raw sides of the resonance condition, scaled by 2000: `(2·δ·min(m, n),
/// α·m + γ·n)` with the coefficients in thousandths. Resonance fires when the
/// first exceeds the second.
pub fn resonance_margin(m_size: usize, n_size: usize) -> (r: (i128, i128))
    ensures
        r.0 == resonance_sides(m_size as int, n_size as int).0,
        r.1 == resonance_sides(m_size as int, n_size as int).1,
{
    let m = m_size as i128;
    let n = n_size as i128;
    let low = if m <= n {
        m
    } else {
        n
    };
    assert(2 * DELTA_MILLI * low <= 120 * 0x1_0000_0000_0000_0000 && ALPHA_MILLI * m + GAMMA_MILLI * n <= 110
        * 0x1_0000_0000_0000_0000) by (nonlinear_arith)
        requires
            0 <= low <= m <= 0xffff_ffff_ffff_ffff || 0 <= low <= n <= 0xffff_ffff_ffff_ffff,
            0 <= m <= 0xffff_ffff_ffff_ffff,
            0 <= n <= 0xffff_ffff_ffff_ffff,
            DELTA_MILLI == 60,
            ALPHA_MILLI == 60,
            GAMMA_MILLI == 50,
    ;
    (2 * DELTA_MILLI * low, ALPHA_MILLI * m + GAMMA_MILLI * n)
}

/// Whether a face pair `(M, N)` resonates: `δ·min(|M|,|N|) > ½·(α·|M| + γ·|N|)`.
pub fn resonance_triggers(m_size: usize, n_size: usize) -> (r: bool)
    ensures
        r == resonates(m_size as int, n_size as int),
{
    let (lhs, rhs) = resonance_margin(m_size, n_size);
    lhs > rhs
}

/// Balanced pairs resonate at every size: for `|M| = |N| = s ≥ 1` the size
/// cancels and the condition is `δ > ½·(α + γ)`.
pub proof fn lemma_balanced_pairs_resonate(s: int)
    requires
        s >= 1,
    ensures
        resonates(s, s),
{
    assert(2 * DELTA_MILLI * s > ALPHA_MILLI * s + GAMMA_MILLI * s) by (nonlinear_arith)
        requires
            s >= 1,
            DELTA_MILLI == 60,
            ALPHA_MILLI == 60,
            GAMMA_MILLI == 50,
    ;
}

/// A pair with a single-cell side and a larger other side never resonates,
/// in either order.
pub proof fn lemma_single_cell_pairs_silent(m: int)
    requires
        m >= 2,
    ensures
        !resonates(m, 1),
        !resonates(1, m),
{
    assert(2 * DELTA_MILLI * 1 <= ALPHA_MILLI * m + GAMMA_MILLI * 1 && 2 * DELTA_MILLI * 1 <= ALPHA_MILLI * 1
        + GAMMA_MILLI * m) by (nonlinear_arith)
        requires
            m >= 2,
            DELTA_MILLI == 60,
            ALPHA_MILLI == 60,
            GAMMA_MILLI == 50,
    ;
}

/// A lone mesh (no adjacent enemy) is strictly hotter the larger it is:
/// `T = α·|M|` with `α > 0`.
pub proof fn lemma_lone_temperature_increasing(s: int, t: int)
    requires
        s < t,
    ensures
        temperature_milli(s, seq![]) < temperature_milli(t, seq![]),
{
    assert(ALPHA_MILLI * s < ALPHA_MILLI * t) by (nonlinear_arith)
        requires
            s < t,
            ALPHA_MILLI == 60,
    ;
}

/// An adjacent enemy mesh at least as large as `M` (and non-empty) raises
/// `M`'s temperature.
pub proof fn lemma_larger_enemy_heats(m: int, enemies: Seq<usize>, n: usize)
    requires
        m >= 0,
        n >= m,
        n >= 1,
    ensures
        temperature_milli(m, enemies.push(n)) > temperature_milli(m, enemies),
{
    assert(enemies.push(n).drop_last() =~= enemies);
}


/// The resonance band: for `|M| ≤ |N|` a pair resonates exactly when
/// `6·|M| > 5·|N|`, and for `|M| > |N|` exactly when `7·|N| > 6·|M|`.
pub proof fn lemma_resonance_band(m: int, n: int)
    requires
        m >= 0,
        n >= 0,
    ensures
        resonates(m, n) == if m <= n {
            6 * m > 5 * n
        } else {
            7 * n > 6 * m
        },
{
    assert(2 * DELTA_MILLI * min_size(m, n) == 120 * min_size(m, n) && ALPHA_MILLI * m + GAMMA_MILLI * n == 60 * m
        + 50 * n) by (nonlinear_arith)
        requires
            DELTA_MILLI == 60,
            ALPHA_MILLI == 60,
            GAMMA_MILLI == 50,
    ;
}

} // verus!
