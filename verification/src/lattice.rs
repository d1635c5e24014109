//! The integer structure of the lattices that are compared spectrally:
//! grid and chain points, neighbour steps, the adjacency that a set of
//! steps induces on a list of points, and the Fibonacci chains.
use vstd::prelude::*;

verus! {

/// `(dx, dy)` is one of `steps`.
pub open spec fn is_step(steps: Seq<(i64, i64)>, dx: int, dy: int) -> bool {
    exists|k: int| 0 <= k < steps.len() && steps[k].0 == dx && steps[k].1 == dy
}

/// `is_step` is membership in the step list.
pub proof fn lemma_is_step_contains(steps: Seq<(i64, i64)>, dx: i64, dy: i64)
    ensures
        is_step(steps, dx as int, dy as int) <==> steps.contains((dx, dy)),
{
    if is_step(steps, dx as int, dy as int) {
        let k = choose|k: int| 0 <= k < steps.len() && steps[k].0 == dx && steps[k].1 == dy;
        assert(steps[k] == (dx, dy));
    }
    if steps.contains((dx, dy)) {
        let k = choose|k: int| 0 <= k < steps.len() && steps[k] == (dx, dy);
        assert(steps[k].0 == dx && steps[k].1 == dy);
    }
}

/// Points `p` and `q` are neighbours when `q - p` is one of `steps`.
pub open spec fn are_neighbors(steps: Seq<(i64, i64)>, p: (i64, i64), q: (i64, i64)) -> bool {
    is_step(steps, q.0 - p.0, q.1 - p.1)
}

/// `adj` is the adjacency matrix that `steps` induce on `points`.
pub open spec fn is_adjacency(
    adj: Seq<Vec<bool>>,
    points: Seq<(i64, i64)>,
    steps: Seq<(i64, i64)>,
) -> bool {
    &&& adj.len() == points.len()
    &&& forall|i: int| 0 <= i < adj.len() ==> (#[trigger] adj[i]).len() == points.len()
    &&& forall|i: int, j: int|
        0 <= i < points.len() && 0 <= j < points.len() ==> (#[trigger] adj[i]@[j] <==> are_neighbors(
            steps,
            points[i],
            points[j],
        ))
}

/// A step set closed under negation.
pub open spec fn is_symmetric_steps(steps: Seq<(i64, i64)>) -> bool {
    forall|dx: int, dy: int| #[trigger] is_step(steps, dx, dy) ==> is_step(steps, -dx, -dy)
}

/// With steps closed under negation the adjacency is symmetric: the graph is
/// undirected.
pub proof fn lemma_adjacency_symmetric(
    adj: Seq<Vec<bool>>,
    points: Seq<(i64, i64)>,
    steps: Seq<(i64, i64)>,
    i: int,
    j: int,
)
    requires
        is_adjacency(adj, points, steps),
        is_symmetric_steps(steps),
        0 <= i < points.len(),
        0 <= j < points.len(),
    ensures
        adj[i]@[j] == adj[j]@[i],
{
    let p = points[i];
    let q = points[j];
    if adj[i]@[j] {
        assert(is_step(steps, q.0 - p.0, q.1 - p.1));
        assert(is_step(steps, -(q.0 - p.0), -(q.1 - p.1)));
        assert(-(q.0 - p.0) == p.0 - q.0 && -(q.1 - p.1) == p.1 - q.1);
    }
    if adj[j]@[i] {
        assert(is_step(steps, p.0 - q.0, p.1 - q.1));
        assert(is_step(steps, -(p.0 - q.0), -(p.1 - q.1)));
        assert(-(p.0 - q.0) == q.0 - p.0 && -(p.1 - q.1) == q.1 - p.1);
    }
}

/// The four axis steps of the square lattice Z².
pub fn square_steps() -> (steps: Vec<(i64, i64)>)
    ensures
        steps@ == seq![(1i64, 0i64), (-1i64, 0i64), (0i64, 1i64), (0i64, -1i64)],
        is_symmetric_steps(steps@),
{
    let steps = vec![(1i64, 0i64), (-1i64, 0i64), (0i64, 1i64), (0i64, -1i64)];
    proof {
        assert forall|dx: int, dy: int| #[trigger] is_step(steps@, dx, dy) implies is_step(
            steps@,
            -dx,
            -dy,
        ) by {
            let k = choose|k: int| 0 <= k < steps@.len() && steps@[k].0 == dx && steps@[k].1 == dy;
            let k2 = if k % 2 == 0 { k + 1 } else { k - 1 };
            assert(steps@[k2].0 == -dx && steps@[k2].1 == -dy);
        }
    }
    steps
}

/// The six unit steps of the triangular (hexagonal) lattice:
/// ±1, ±ω and ±(1 - ω) in Eisenstein coordinates.
pub fn triangular_steps() -> (steps: Vec<(i64, i64)>)
    ensures
        steps@ == seq![
            (1i64, 0i64),
            (-1i64, 0i64),
            (0i64, 1i64),
            (0i64, -1i64),
            (1i64, -1i64),
            (-1i64, 1i64),
        ],
        is_symmetric_steps(steps@),
{
    let steps = vec![(1i64, 0i64), (-1i64, 0i64), (0i64, 1i64), (0i64, -1i64), (1i64, -1i64), (-1i64, 1i64)];
    proof {
        assert forall|dx: int, dy: int| #[trigger] is_step(steps@, dx, dy) implies is_step(
            steps@,
            -dx,
            -dy,
        ) by {
            let k = choose|k: int| 0 <= k < steps@.len() && steps@[k].0 == dx && steps@[k].1 == dy;
            let k2 = if k % 2 == 0 { k + 1 } else { k - 1 };
            assert(steps@[k2].0 == -dx && steps@[k2].1 == -dy);
        }
    }
    steps
}

/// Whether `(dx, dy)` is one of `steps`.
fn has_step(steps: &Vec<(i64, i64)>, dx: i128, dy: i128) -> (found: bool)
    ensures
        found == is_step(steps@, dx as int, dy as int),
{
    let mut k: usize = 0;
    while k < steps.len()
        invariant
            k <= steps.len(),
            forall|q: int| 0 <= q < k ==> !(steps@[q].0 == dx && steps@[q].1 == dy),
        decreases steps.len() - k,
    {
        if steps[k].0 as i128 == dx && steps[k].1 as i128 == dy {
            return true;
        }
        k = k + 1;
    }
    false
}

/// The adjacency matrix that `steps` induce on `points`: entry `(i, j)` is
/// set when `points[j] - points[i]` is one of the steps.
pub fn adjacency(points: &Vec<(i64, i64)>, steps: &Vec<(i64, i64)>) -> (adj: Vec<Vec<bool>>)
    ensures
        is_adjacency(adj@, points@, steps@),
{
    let n = points.len();
    let mut adj: Vec<Vec<bool>> = Vec::new();
    let mut i: usize = 0;
    while i < n
        invariant
            n == points.len(),
            i <= n,
            adj.len() == i,
            forall|r: int| 0 <= r < i ==> (#[trigger] adj@[r]).len() == n,
            forall|r: int, j: int|
                0 <= r < i && 0 <= j < n ==> (#[trigger] adj@[r]@[j] <==> are_neighbors(
                    steps@,
                    points@[r],
                    points@[j],
                )),
        decreases n - i,
    {
        let mut row: Vec<bool> = Vec::new();
        let mut j: usize = 0;
        while j < n
            invariant
                n == points.len(),
                i < n,
                j <= n,
                row.len() == j,
                forall|q: int|
                    0 <= q < j ==> (#[trigger] row@[q] <==> are_neighbors(
                        steps@,
                        points@[i as int],
                        points@[q],
                    )),
            decreases n - j,
        {
            let dx: i128 = points[j].0 as i128 - points[i].0 as i128;
            let dy: i128 = points[j].1 as i128 - points[i].1 as i128;
            row.push(has_step(steps, dx, dy));
            j = j + 1;
        }
        adj.push(row);
        i = i + 1;
    }
    adj
}

/// The points of a `side` by `side` grid in row-major order: index
/// `r * side + c` holds `(r, c)`.
pub fn grid_points(side: usize) -> (points: Vec<(i64, i64)>)
    requires
        side * side <= usize::MAX,
        side <= i64::MAX,
    ensures
        points.len() == side * side,
        forall|k: int|
            0 <= k < points.len() ==> #[trigger] points@[k] == ((k / side as int) as i64, (k
                % side as int) as i64),
{
    let mut points: Vec<(i64, i64)> = Vec::new();
    let mut r: usize = 0;
    while r < side
        invariant
            side * side <= usize::MAX,
            side <= i64::MAX,
            r <= side,
            points.len() == r * side,
            forall|k: int|
                0 <= k < points.len() ==> #[trigger] points@[k] == ((k / side as int) as i64, (k
                    % side as int) as i64),
        decreases side - r,
    {
        let mut c: usize = 0;
        while c < side
            invariant
                side * side <= usize::MAX,
                side <= i64::MAX,
                r < side,
                c <= side,
                points.len() == r * side + c,
                forall|k: int|
                    0 <= k < points.len() ==> #[trigger] points@[k] == ((k / side as int) as i64, (k
                        % side as int) as i64),
            decreases side - c,
        {
            assert(r * side + c < side * side) by (nonlinear_arith)
                requires
                    r < side,
                    c < side,
            ;
            let ghost k = points.len() as int;
            proof {
                vstd::arithmetic::div_mod::lemma_fundamental_div_mod_converse(
                    k,
                    side as int,
                    r as int,
                    c as int,
                );
                assert(k == r * side + c);
                assert(k == r as int * side as int + c as int);
            }
            points.push((r as i64, c as i64));
            c = c + 1;
        }
        assert((r + 1) * side == r * side + side) by (nonlinear_arith);
        r = r + 1;
    }
    points
}

/// `n` points on a line: index `i` holds `(i, 0)`.
pub fn line_points(n: usize) -> (points: Vec<(i64, i64)>)
    requires
        n <= i64::MAX,
    ensures
        points.len() == n,
        forall|i: int| 0 <= i < n ==> #[trigger] points@[i] == (i as i64, 0i64),
{
    let mut points: Vec<(i64, i64)> = Vec::new();
    let mut i: usize = 0;
    while i < n
        invariant
            n <= i64::MAX,
            i <= n,
            points.len() == i,
            forall|k: int| 0 <= k < i ==> #[trigger] points@[k] == (k as i64, 0i64),
        decreases n - i,
    {
        points.push((i as i64, 0i64));
        i = i + 1;
    }
    points
}

/// The steps `±d` along the first coordinate.
pub fn line_steps(d: i64) -> (steps: Vec<(i64, i64)>)
    requires
        d > i64::MIN,
    ensures
        steps.len() == 2,
        steps@[0] == (d, 0i64),
        steps@[1] == ((-d) as i64, 0i64),
        is_symmetric_steps(steps@),
{
    let neg = -d;
    let steps = vec![(d, 0i64), (neg, 0i64)];
    proof {
        assert forall|dx: int, dy: int| #[trigger] is_step(steps@, dx, dy) implies is_step(
            steps@,
            -dx,
            -dy,
        ) by {
            let k = choose|k: int| 0 <= k < steps@.len() && steps@[k].0 == dx && steps@[k].1 == dy;
            let k2 = if k == 0 { 1int } else { 0int };
            assert(steps@[k2].0 == -dx && steps@[k2].1 == -dy);
        }
    }
    steps
}

/// One step of the Fibonacci substitution `L → LS`, `S → L` (other letters
/// vanish).
pub open spec fn substitute(w: Seq<char>) -> Seq<char>
    decreases w.len(),
{
    if w.len() == 0 {
        Seq::empty()
    } else {
        substitute(w.drop_last()) + (if w.last() == 'L' {
            seq!['L', 'S']
        } else if w.last() == 'S' {
            seq!['L']
        } else {
            Seq::empty()
        })
    }
}

/// The Fibonacci word after `k` substitutions, starting from `L`.
pub open spec fn fib_word(k: nat) -> Seq<char>
    decreases k,
{
    if k == 0 {
        seq!['L']
    } else {
        substitute(fib_word((k - 1) as nat))
    }
}

/// Fibonacci numbers: 0, 1, 1, 2, 3, 5, ...
pub open spec fn fib(n: nat) -> nat
    decreases n,
{
    if n == 0 {
        0
    } else if n == 1 {
        1
    } else {
        fib((n - 1) as nat) + fib((n - 2) as nat)
    }
}

/// Number of `L` letters in a word.
pub open spec fn count_l(w: Seq<char>) -> nat
    decreases w.len(),
{
    if w.len() == 0 {
        0
    } else {
        count_l(w.drop_last()) + (if w.last() == 'L' {
            1nat
        } else {
            0nat
        })
    }
}

/// Only `L` and `S` occur in `w`.
pub open spec fn is_ls_word(w: Seq<char>) -> bool {
    forall|i: int| 0 <= i < w.len() ==> #[trigger] w[i] == 'L' || w[i] == 'S'
}

proof fn lemma_substitute_counts(w: Seq<char>)
    requires
        is_ls_word(w),
    ensures
        substitute(w).len() == w.len() + count_l(w),
        count_l(substitute(w)) == w.len(),
        is_ls_word(substitute(w)),
    decreases w.len(),
{
    if w.len() > 0 {
        let u = w.drop_last();
        assert(is_ls_word(u)) by {
            assert forall|i: int| 0 <= i < u.len() implies #[trigger] u[i] == 'L' || u[i] == 'S' by {
                assert(u[i] == w[i]);
            }
        }
        lemma_substitute_counts(u);
        let tail: Seq<char> = if w.last() == 'L' {
            seq!['L', 'S']
        } else {
            seq!['L']
        };
        assert(w.last() == w[w.len() - 1]);
        assert(substitute(w) == substitute(u) + tail);
        lemma_count_l_append(substitute(u), tail);
        lemma_count_l_small();
        let s = substitute(w);
        assert forall|i: int| 0 <= i < s.len() implies #[trigger] s[i] == 'L' || s[i] == 'S' by {
            if i < substitute(u).len() {
                assert(s[i] == substitute(u)[i]);
            } else {
                assert(s[i] == tail[i - substitute(u).len()]);
            }
        }
    }
}

proof fn lemma_count_l_append(u: Seq<char>, v: Seq<char>)
    ensures
        count_l(u + v) == count_l(u) + count_l(v),
    decreases v.len(),
{
    if v.len() == 0 {
        assert(u + v =~= u);
    } else {
        assert((u + v).drop_last() =~= u + v.drop_last());
        assert((u + v).last() == v.last());
        lemma_count_l_append(u, v.drop_last());
    }
}

proof fn lemma_count_l_small()
    ensures
        count_l(seq!['L', 'S']) == 1,
        count_l(seq!['L']) == 1,
{
    let e = Seq::<char>::empty();
    let l = seq!['L'];
    let ls = seq!['L', 'S'];
    assert(count_l(e) == 0);
    assert(l.drop_last() =~= e);
    assert(l.last() == 'L');
    assert(count_l(l) == count_l(e) + 1);
    assert(ls.drop_last() =~= l);
    assert(ls.last() == 'S');
    assert(count_l(ls) == count_l(l) + 0);
}

/// The substitution acts letter by letter: it maps a concatenation to the
/// concatenation of the images.
pub proof fn lemma_substitute_append(u: Seq<char>, v: Seq<char>)
    ensures
        substitute(u + v) == substitute(u) + substitute(v),
    decreases v.len(),
{
    if v.len() == 0 {
        assert(u + v =~= u);
        assert(substitute(u) + substitute(v) =~= substitute(u));
    } else {
        let w = u + v;
        assert(w.drop_last() =~= u + v.drop_last());
        assert(w.last() == v.last());
        lemma_substitute_append(u, v.drop_last());
        let tail: Seq<char> = if v.last() == 'L' {
            seq!['L', 'S']
        } else if v.last() == 'S' {
            seq!['L']
        } else {
            Seq::empty()
        };
        assert(substitute(w) == substitute(u + v.drop_last()) + tail);
        assert(substitute(v) == substitute(v.drop_last()) + tail);
        assert(substitute(u) + substitute(v.drop_last()) + tail =~= substitute(u) + (substitute(
            v.drop_last(),
        ) + tail));
    }
}

/// The Fibonacci chains concatenate like the Fibonacci numbers add:
/// the chain after `k + 2` steps is the chain after `k + 1` steps followed by
/// the chain after `k` steps (`LS`, `LSL`, `LSLLS`, ...).
pub proof fn lemma_fib_word_concat(k: nat)
    ensures
        fib_word(k + 2) == fib_word(k + 1) + fib_word(k),
    decreases k,
{
    if k == 0 {
        let w0 = seq!['L'];
        let w1 = seq!['L', 'S'];
        let e = Seq::<char>::empty();
        assert(w0.drop_last() =~= e);
        assert(w0.last() == 'L');
        assert(substitute(e) == e);
        assert(substitute(w0) == substitute(e) + seq!['L', 'S']);
        assert(substitute(w0) =~= w1);
        assert(fib_word(0) == w0);
        assert(fib_word(1) == substitute(fib_word(0)));
        assert(fib_word(1) =~= w1);
        assert(w1.drop_last() =~= w0);
        assert(w1.last() == 'S');
        assert(substitute(w1) == substitute(w0) + seq!['L']);
        assert(fib_word(2) == substitute(fib_word(1)));
        assert(fib_word(2) =~= w1 + w0);
    } else {
        lemma_fib_word_concat((k - 1) as nat);
        assert(fib_word(k + 1) == fib_word(k) + fib_word((k - 1) as nat));
        lemma_substitute_append(fib_word(k), fib_word((k - 1) as nat));
        assert(fib_word(k + 2) == substitute(fib_word(k + 1)));
        assert(fib_word(k + 1) == substitute(fib_word(k)));
        assert(fib_word(k) == substitute(fib_word((k - 1) as nat)));
    }
}

/// The Fibonacci word after `k` substitutions has `fib(k + 2)` letters, of
/// which `fib(k + 1)` are `L`.
pub proof fn lemma_fib_word_len(k: nat)
    ensures
        fib_word(k).len() == fib(k + 2),
        count_l(fib_word(k)) == fib(k + 1),
        is_ls_word(fib_word(k)),
    decreases k,
{
    if k == 0 {
        lemma_count_l_small();
        assert(fib(2) == 1) by {
            reveal_with_fuel(fib, 3);
        }
    } else {
        lemma_fib_word_len((k - 1) as nat);
        lemma_substitute_counts(fib_word((k - 1) as nat));
        assert(fib(k + 2) == fib(k + 1) + fib(k as nat));
    }
}

/// The chain of the Fibonacci substitution lattice after `levels` steps of
/// `L → LS`, `S → L`, starting from `L`.
pub fn fibonacci_word(levels: usize) -> (chain: Vec<char>)
    ensures
        chain@ == fib_word(levels as nat),
{
    let mut chain: Vec<char> = vec!['L'];
    let mut level: usize = 0;
    proof {
        lemma_fib_word_len(0);
    }
    while level < levels
        invariant
            level <= levels,
            chain@ == fib_word(level as nat),
        decreases levels - level,
    {
        let mut next: Vec<char> = Vec::new();
        let mut i: usize = 0;
        while i < chain.len()
            invariant
                i <= chain.len(),
                next@ == substitute(chain@.take(i as int)),
            decreases chain.len() - i,
        {
            let ghost before = next@;
            let ch = chain[i];
            if ch == 'L' {
                next.push('L');
                next.push('S');
            } else if ch == 'S' {
                next.push('L');
            }
            proof {
                let t = chain@.take(i + 1);
                assert(t.drop_last() =~= chain@.take(i as int));
                assert(t.last() == ch);
                if ch == 'L' {
                    assert(next@ =~= before + seq!['L', 'S']);
                } else if ch == 'S' {
                    assert(next@ =~= before + seq!['L']);
                } else {
                    assert(next@ =~= before + Seq::<char>::empty());
                }
            }
            i = i + 1;
        }
        assert(chain@.take(chain.len() as int) =~= chain@);
        chain = next;
        level = level + 1;
    }
    chain
}

/// Consecutive Fibonacci numbers `1, 1, 2, 3, 5, ...`: `max(2, generations)`
/// of them, `numbers[i] == fib(i + 1)`.
pub fn fibonacci_numbers(generations: usize) -> (numbers: Vec<u64>)
    requires
        fib(generations as nat) <= u64::MAX,
    ensures
        numbers.len() == if generations < 2 {
            2
        } else {
            generations
        },
        forall|i: int| 0 <= i < numbers.len() ==> #[trigger] numbers@[i] == fib((i + 1) as nat),
{
    let mut fibs: Vec<u64> = vec![1u64, 1u64];
    proof {
        assert(fib(2) == 1) by {
            reveal_with_fuel(fib, 3);
        }
    }
    let mut g: usize = 2;
    while g < generations
        invariant
            2 <= g,
            g <= generations || generations < 2,
            generations < 2 ==> g == 2,
            fib(generations as nat) <= u64::MAX,
            fibs.len() == g,
            forall|i: int| 0 <= i < fibs.len() ==> #[trigger] fibs@[i] == fib((i + 1) as nat),
        decreases generations - g,
    {
        proof {
            lemma_fib_monotone((g + 1) as nat, generations as nat);
            assert(fib((g + 1) as nat) == fib(g as nat) + fib((g - 1) as nat));
        }
        let next = fibs[fibs.len() - 1] + fibs[fibs.len() - 2];
        fibs.push(next);
        g = g + 1;
    }
    assert(fibs.len() == if generations < 2 {
        2
    } else {
        generations
    });
    fibs
}

/// Fibonacci numbers never decrease.
pub proof fn lemma_fib_monotone(i: nat, j: nat)
    requires
        i <= j,
    ensures
        fib(i) <= fib(j),
    decreases j - i,
{
    if i < j {
        lemma_fib_monotone(i, (j - 1) as nat);
        if j >= 2 {
            assert(fib(j) == fib((j - 1) as nat) + fib((j - 2) as nat));
        }
    }
}

} // verus!
