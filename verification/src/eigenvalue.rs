//! The deterministic pseudo-random integer graphs whose Laplacian spectra are
//! studied: a 64-bit linear congruential generator and the symmetric weight
//! matrices it fills.
use vstd::arithmetic::div_mod::{
    lemma_add_mod_noop,
    lemma_fundamental_div_mod_converse,
    lemma_mod_bound,
    lemma_small_mod,
};
use vstd::prelude::*;

verus! {

/// Eigenvalues of integer-weighted Laplacians snap to algebraic numbers.
pub struct EigenvalueQuantization;

/// Multiplier of the generator.
pub const LCG_MULTIPLIER: u64 = 6364136223846793005u64;

/// Increment of the generator.
pub const LCG_INCREMENT: u64 = 1442695040888963407u64;

/// Seed of the integer-weighted graphs.
pub const GRAPH_SEED: u64 = 12345u64;

/// One step of the generator: `s * LCG_MULTIPLIER + LCG_INCREMENT` modulo 2^64.
pub open spec fn lcg_step(s: int) -> int {
    (s * LCG_MULTIPLIER + LCG_INCREMENT) % 0x1_0000_0000_0000_0000
}

/// The state after `k` steps from `seed`.
pub open spec fn lcg_iter(seed: int, k: nat) -> int
    decreases k,
{
    if k == 0 {
        seed
    } else {
        lcg_step(lcg_iter(seed, (k - 1) as nat))
    }
}

/// Number of pairs `(r, c)` with `r < c < n` in the rows before row `i`.
pub open spec fn pairs_before_row(n: int, i: int) -> int
    decreases i,
{
    if i <= 0 {
        0
    } else {
        pairs_before_row(n, i - 1) + (n - i)
    }
}

/// Position, counting from 1, of the pair `{i, j}` (`i != j`) when the
/// pairs `r < c` are visited row by row.
pub open spec fn pair_position(n: int, i: int, j: int) -> int {
    if i < j {
        pairs_before_row(n, i) + (j - i)
    } else {
        pairs_before_row(n, j) + (i - j)
    }
}

/// Entry `(i, j)` of the state matrix: the generator state drawn for the
/// pair `{i, j}`, and 0 on the diagonal.
#[verifier::opaque]
pub open spec fn lcg_entry(seed: int, n: int, i: int, j: int) -> int {
    if i == j {
        0
    } else {
        lcg_iter(seed, pair_position(n, i, j) as nat)
    }
}

/// The state matrix is symmetric.
pub proof fn lemma_entry_symmetric(seed: int, n: int, i: int, j: int)
    ensures
        lcg_entry(seed, n, i, j) == lcg_entry(seed, n, j, i),
{
    reveal(lcg_entry);
}

/// The state matrix is 0 on the diagonal.
pub proof fn lemma_entry_diagonal(seed: int, n: int, i: int)
    ensures
        lcg_entry(seed, n, i, i) == 0,
{
    reveal(lcg_entry);
}

/// Above the diagonal, entry `(i, j)` is the state drawn at the pair's position.
pub proof fn lemma_entry_upper(seed: int, n: int, i: int, j: int)
    requires
        i < j,
    ensures
        lcg_entry(seed, n, i, j) == lcg_iter(seed, (pairs_before_row(n, i) + (j - i)) as nat),
{
    reveal(lcg_entry);
}

/// The pairs `i < j` draw successive states of the generator, row by row:
/// the first pair `(0, 1)` draws the state after `seed`, the pair right of
/// `(i, j)` in its row draws the next state, and the first pair of the next
/// row follows the last pair of a row.
pub proof fn lemma_entry_draw_order(seed: int, n: int, i: int, j: int)
    requires
        0 <= i < j < n,
    ensures
        lcg_entry(seed, n, 0, 1) == lcg_step(seed),
        j + 1 < n ==> lcg_entry(seed, n, i, j + 1) == lcg_step(lcg_entry(seed, n, i, j)),
        j == n - 1 && i + 2 < n ==> lcg_entry(seed, n, i + 1, i + 2) == lcg_step(
            lcg_entry(seed, n, i, j),
        ),
{
    reveal(lcg_entry);
    assert(pairs_before_row(n, 0) == 0);
    assert(lcg_iter(seed, 1) == lcg_step(lcg_iter(seed, 0)));
    let k = pairs_before_row(n, i) + (j - i);
    lemma_pairs_before_row_nonneg(n, i);
    assert(lcg_iter(seed, (k + 1) as nat) == lcg_step(lcg_iter(seed, k as nat)));
    lemma_pairs_before_row_step(n, i);
}

proof fn lemma_pairs_before_row_nonneg(n: int, i: int)
    requires
        0 <= i < n,
    ensures
        pairs_before_row(n, i) >= 0,
    decreases i,
{
    if i > 0 {
        lemma_pairs_before_row_nonneg(n, i - 1);
    }
}

/// `mat` is an `n` by `n` matrix of `u64`.
pub open spec fn is_square(mat: Seq<Vec<u64>>, n: int) -> bool {
    &&& mat.len() == n
    &&& forall|i: int| 0 <= i < n ==> (#[trigger] mat[i]).len() == n
}

/// One step of the generator.
pub fn lcg_next(state: u64) -> (next: u64)
    ensures
        next == lcg_step(state as int),
{
    let ghost m: int = 0x1_0000_0000_0000_0000int;
    let x = state.wrapping_mul(LCG_MULTIPLIER);
    let next = x.wrapping_add(LCG_INCREMENT);
    proof {
        let p = state as int * LCG_MULTIPLIER as int;
        assert(x == p % m);
        let c = LCG_INCREMENT as int;
        if x + c > u64::MAX {
            lemma_fundamental_div_mod_converse(x + c, m, 1, x + c - m);
        } else {
            lemma_small_mod((x + c) as nat, m as nat);
        }
        assert(next == (x + c) % m);
        lemma_small_mod(c as nat, m as nat);
        lemma_add_mod_noop(p, c, m);
    }
    next
}

proof fn lemma_pairs_before_row_step(n: int, i: int)
    requires
        0 <= i,
    ensures
        pairs_before_row(n, i + 1) == pairs_before_row(n, i) + (n - i - 1),
{
}

/// The symmetric matrix of generator states: the pairs `i < j` draw the
/// states after `seed` one by one, row by row, and each state goes to
/// `(i, j)` and `(j, i)`; the diagonal is 0.  Also returns the state after
/// the last draw.
pub fn lcg_states(seed: u64, n: usize) -> (res: (Vec<Vec<u64>>, u64))
    ensures
        is_square(res.0@, n as int),
        forall|i: int, j: int|
            0 <= i < n && 0 <= j < n ==> #[trigger] res.0@[i]@[j] == lcg_entry(
                seed as int,
                n as int,
                i,
                j,
            ),
        res.1 == lcg_iter(seed as int, pairs_before_row(n as int, n as int) as nat),
{
    let mut mat: Vec<Vec<u64>> = Vec::new();
    let mut state: u64 = seed;
    let mut i: usize = 0;
    while i < n
        invariant
            i <= n,
            mat.len() == i,
            forall|r: int| 0 <= r < i ==> (#[trigger] mat@[r]).len() == n,
            forall|r: int, c: int|
                0 <= r < i && 0 <= c < n ==> #[trigger] mat@[r]@[c] == lcg_entry(
                    seed as int,
                    n as int,
                    r,
                    c,
                ),
            state == lcg_iter(seed as int, pairs_before_row(n as int, i as int) as nat),
            pairs_before_row(n as int, i as int) >= 0,
        decreases n - i,
    {
        let mut row: Vec<u64> = Vec::new();
        let mut j: usize = 0;
        while j < n
            invariant
                i < n,
                j <= n,
                mat.len() == i,
                forall|r: int| 0 <= r < i ==> (#[trigger] mat@[r]).len() == n,
                forall|r: int, c: int|
                    0 <= r < i && 0 <= c < n ==> #[trigger] mat@[r]@[c] == lcg_entry(
                        seed as int,
                        n as int,
                        r,
                        c,
                    ),
                row.len() == j,
                forall|c: int|
                    0 <= c < j ==> #[trigger] row@[c] == lcg_entry(seed as int, n as int, i as int, c),
                pairs_before_row(n as int, i as int) >= 0,
                j <= i ==> state == lcg_iter(seed as int, pairs_before_row(n as int, i as int) as nat),
                j > i ==> state == lcg_iter(
                    seed as int,
                    (pairs_before_row(n as int, i as int) + (j - i - 1)) as nat,
                ),
            decreases n - j,
        {
            if j < i {
                let v = mat[j][i];
                proof {
                    lemma_entry_symmetric(seed as int, n as int, i as int, j as int);
                }
                row.push(v);
            } else if j == i {
                proof {
                    lemma_entry_diagonal(seed as int, n as int, i as int);
                }
                row.push(0);
            } else {
                let ghost k = (pairs_before_row(n as int, i as int) + (j - i - 1)) as nat;
                state = lcg_next(state);
                proof {
                    lemma_entry_upper(seed as int, n as int, i as int, j as int);
                    assert(state == lcg_iter(seed as int, k + 1));
                }
                row.push(state);
            }
            j = j + 1;
        }
        mat.push(row);
        proof {
            lemma_pairs_before_row_step(n as int, i as int);
        }
        i = i + 1;
    }
    (mat, state)
}

/// The state matrix of `lcg_states` with every entry reduced modulo
/// `modulus`, and the state after the last draw.
pub fn lcg_weights(seed: u64, n: usize, modulus: u64) -> (res: (Vec<Vec<u64>>, u64))
    requires
        modulus > 0,
    ensures
        is_square(res.0@, n as int),
        forall|i: int, j: int|
            0 <= i < n && 0 <= j < n ==> #[trigger] res.0@[i]@[j] == lcg_entry(
                seed as int,
                n as int,
                i,
                j,
            ) % modulus as int,
        forall|i: int, j: int|
            0 <= i < n && 0 <= j < n ==> res.0@[i]@[j] < modulus && res.0@[i]@[j] == res.0@[j]@[i],
        forall|i: int| 0 <= i < n ==> res.0@[i]@[i] == 0,
        res.1 == lcg_iter(seed as int, pairs_before_row(n as int, n as int) as nat),
{
    let (states, last) = lcg_states(seed, n);
    let mut mat: Vec<Vec<u64>> = Vec::new();
    let mut i: usize = 0;
    while i < n
        invariant
            modulus > 0,
            is_square(states@, n as int),
            i <= n,
            mat.len() == i,
            forall|r: int| 0 <= r < i ==> (#[trigger] mat@[r]).len() == n,
            forall|r: int, c: int|
                0 <= r < i && 0 <= c < n ==> #[trigger] mat@[r]@[c] == states@[r]@[c] % modulus,
        decreases n - i,
    {
        let mut row: Vec<u64> = Vec::new();
        let mut j: usize = 0;
        while j < n
            invariant
                modulus > 0,
                is_square(states@, n as int),
                i < n,
                j <= n,
                row.len() == j,
                forall|c: int| 0 <= c < j ==> #[trigger] row@[c] == states@[i as int]@[c] % modulus,
            decreases n - j,
        {
            row.push(states[i][j] % modulus);
            j = j + 1;
        }
        mat.push(row);
        i = i + 1;
    }
    proof {
        assert forall|i: int, j: int|
            0 <= i < n && 0 <= j < n implies #[trigger] mat@[i]@[j] == lcg_entry(
            seed as int,
            n as int,
            i,
            j,
        ) % modulus as int by {
            assert(mat@[i]@[j] == states@[i]@[j] % modulus);
        }
        assert forall|i: int, j: int|
            0 <= i < n && 0 <= j < n implies mat@[i]@[j] < modulus && mat@[i]@[j] == mat@[j]@[i] by {
            assert(mat@[i]@[j] == states@[i]@[j] % modulus);
            assert(mat@[j]@[i] == states@[j]@[i] % modulus);
            assert(states@[i]@[j] == lcg_entry(seed as int, n as int, i, j));
            assert(states@[j]@[i] == lcg_entry(seed as int, n as int, j, i));
            lemma_entry_symmetric(seed as int, n as int, i, j);
        }
        assert forall|i: int| 0 <= i < n implies mat@[i]@[i] == 0 by {
            assert(mat@[i]@[i] == states@[i]@[i] % modulus);
            assert(states@[i]@[i] == lcg_entry(seed as int, n as int, i, i));
            lemma_entry_diagonal(seed as int, n as int, i);
            lemma_small_mod(0, modulus as nat);
        }
    }
    (mat, last)
}

impl EigenvalueQuantization {
    /// The integer weights of a random integer-weighted graph (deterministic
    /// PRNG): weight `(i, j)` is the generator state drawn for the pair,
    /// seeded with `GRAPH_SEED`, modulo `max_weight + 1`.  With fewer than
    /// two nodes nothing is drawn and the matrix is all zero.
    pub fn random_integer_weights(n: usize, max_weight: u64) -> (weights: Vec<Vec<u64>>)
        requires
            n <= 1 || max_weight < u64::MAX,
        ensures
            is_square(weights@, n as int),
            forall|i: int, j: int|
                0 <= i < n && 0 <= j < n ==> #[trigger] weights@[i]@[j] == lcg_entry(
                    GRAPH_SEED as int,
                    n as int,
                    i,
                    j,
                ) % (max_weight + 1),
            forall|i: int, j: int|
                0 <= i < n && 0 <= j < n ==> weights@[i]@[j] <= max_weight && weights@[i]@[j]
                    == weights@[j]@[i],
            forall|i: int| 0 <= i < n ==> weights@[i]@[i] == 0,
    {
        if n <= 1 {
            let (weights, _) = lcg_weights(GRAPH_SEED, n, 1);
            proof {
                assert forall|i: int, j: int| 0 <= i < n && 0 <= j < n implies #[trigger] weights@[i]@[j]
                    == lcg_entry(GRAPH_SEED as int, n as int, i, j) % (max_weight + 1) by {
                    assert(i == 0 && j == 0);
                    lemma_entry_diagonal(GRAPH_SEED as int, n as int, i);
                    lemma_small_mod(0, (max_weight + 1) as nat);
                }
            }
            weights
        } else {
            let (weights, _) = lcg_weights(GRAPH_SEED, n, max_weight + 1);
            weights
        }
    }

    /// Seed of the real-weighted graph of trial `t`: `GRAPH_SEED + 997 t`
    /// modulo 2^64.
    pub fn trial_seed(t: u64) -> (seed: u64)
        requires
            t * 997 <= u64::MAX,
        ensures
            seed == (GRAPH_SEED + t * 997) % 0x1_0000_0000_0000_0000,
    {
        let seed = GRAPH_SEED.wrapping_add(t * 997);
        proof {
            let s = GRAPH_SEED + t * 997;
            if s > u64::MAX {
                lemma_fundamental_div_mod_converse(s, 0x1_0000_0000_0000_0000, 1, s - 0x1_0000_0000_0000_0000);
            } else {
                lemma_small_mod(s as nat, 0x1_0000_0000_0000_0000);
            }
        }
        seed
    }
}

} // verus!
