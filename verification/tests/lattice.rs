use pythagorean_quantize::eigenvalue::{lcg_next, lcg_states, lcg_weights, EigenvalueQuantization};
use pythagorean_quantize::lattice::{
    adjacency, fibonacci_numbers, fibonacci_word, grid_points, line_points, line_steps,
    square_steps, triangular_steps,
};
use pythagorean_quantize::number_theory::isqrt;
use pythagorean_quantize::snap::SnapTools;

#[test]
fn isqrt_values() {
    assert_eq!(isqrt(0), 0);
    assert_eq!(isqrt(1), 1);
    assert_eq!(isqrt(15), 3);
    assert_eq!(isqrt(16), 4);
    assert_eq!(isqrt(u64::MAX), 4294967295);
}

#[test]
fn square_grid_adjacency() {
    let pts = grid_points(2);
    assert_eq!(pts, vec![(0, 0), (0, 1), (1, 0), (1, 1)]);
    let adj = adjacency(&pts, &square_steps());
    assert_eq!(
        adj,
        vec![
            vec![false, true, true, false],
            vec![true, false, false, true],
            vec![true, false, false, true],
            vec![false, true, true, false],
        ]
    );
}

#[test]
fn triangular_grid_adjacency() {
    let pts = grid_points(2);
    let adj = adjacency(&pts, &triangular_steps());
    // (0, 1) and (1, 0) are joined by the diagonal
    assert!(adj[1][2] && adj[2][1]);
    assert!(!adj[0][3]);
}

#[test]
fn chain_adjacency() {
    let pts = line_points(4);
    let near = adjacency(&pts, &line_steps(1));
    let far = adjacency(&pts, &line_steps(2));
    assert!(near[0][1] && near[2][3] && !near[0][2]);
    assert!(far[0][2] && far[1][3] && !far[0][1]);
}

#[test]
fn fibonacci_chain() {
    assert_eq!(fibonacci_word(0), vec!['L']);
    assert_eq!(fibonacci_word(3), vec!['L', 'S', 'L', 'L', 'S']);
    assert_eq!(fibonacci_word(5).len(), 13);
    assert_eq!(fibonacci_numbers(6), vec![1, 1, 2, 3, 5, 8]);
    assert_eq!(fibonacci_numbers(0), vec![1, 1]);
    assert_eq!(fibonacci_numbers(93)[92], 12200160415121876738);
}

#[test]
fn lcg_values() {
    assert_eq!(lcg_next(12345), 2021368500568277588);
    let w = EigenvalueQuantization::random_integer_weights(3, 5);
    assert_eq!(w, vec![vec![0, 2, 5], vec![2, 0, 4], vec![5, 4, 0]]);
    let (c, next) = SnapTools::candidate_weights(42, 3);
    assert_eq!(c, vec![vec![0, 1, 0], vec![1, 0, 3], vec![0, 3, 0]]);
    assert_eq!(next, 7615522811268512075);
    let (s, last) = lcg_states(12345, 3);
    assert_eq!(s[0][1], 2021368500568277588);
    assert_eq!(last, 16336879138292273062);
    let (w2, _) = lcg_weights(12345, 3, 6);
    assert_eq!(w2, w);
    assert_eq!(EigenvalueQuantization::trial_seed(2), 12345 + 2 * 997);
    assert_eq!(EigenvalueQuantization::random_integer_weights(1, u64::MAX), vec![vec![0]]);
    assert!(EigenvalueQuantization::random_integer_weights(0, u64::MAX).is_empty());
}
