use pythagorean_quantize::eisenstein::EisensteinInt;

#[test]
fn test_eisenstein_norm_basic() {
    assert_eq!(EisensteinInt::norm(1, 0), 1);
    assert_eq!(EisensteinInt::norm(1, 1), 1); // 1 - 1 + 1 = 1
    assert_eq!(EisensteinInt::norm(2, 1), 3); // 4 - 2 + 1 = 3
}

#[test]
fn norm_more_values() {
    assert_eq!(EisensteinInt::norm(0, 0), 0);
    assert_eq!(EisensteinInt::norm(-1, 1), 3);
    assert_eq!(EisensteinInt::norm(1, -1), 3);
    assert_eq!(EisensteinInt::norm(3, 0), 9);
    assert_eq!(EisensteinInt::norm(-2, -1), 3);
}

#[test]
fn with_norm_unit_ring() {
    let pts = EisensteinInt::with_norm(1);
    assert_eq!(
        pts,
        vec![(-1, -1, 1), (-1, 0, 1), (0, -1, 1), (0, 1, 1), (1, 0, 1), (1, 1, 1)]
    );
}

#[test]
fn with_norm_zero_is_empty() {
    assert!(EisensteinInt::with_norm(0).is_empty());
}

#[test]
fn with_norm_sorted_and_complete() {
    let pts = EisensteinInt::with_norm(49);
    for p in &pts {
        assert!(p.2 > 0 && p.2 <= 49);
        assert_eq!(EisensteinInt::norm(p.0, p.1), p.2);
    }
    for w in pts.windows(2) {
        assert!((w[0].2, w[0].0, w[0].1) < (w[1].2, w[1].0, w[1].1));
    }
    // (8, 4) has norm 48: it lies far along a diagonal of the lattice
    assert!(pts.iter().any(|p| p.0 == 8 && p.1 == 4 && p.2 == 48));
    let mut count = 0;
    for a in -20i64..=20 {
        for b in -20i64..=20 {
            let n = EisensteinInt::norm(a, b);
            if n > 0 && n <= 49 {
                count += 1;
            }
        }
    }
    assert_eq!(pts.len(), count);
}

#[test]
fn lattice_adjacency_unit_ring() {
    let pts = EisensteinInt::with_norm(1);
    let adj = EisensteinInt::lattice_adjacency(&pts);
    assert_eq!(adj.len(), 6);
    for i in 0..6 {
        assert_eq!(adj[i].iter().filter(|&&e| e).count(), 2);
        assert!(!adj[i][i]);
        for j in 0..6 {
            assert_eq!(adj[i][j], adj[j][i]);
        }
    }
    // (1, 0) and (1, 1) differ by ω
    assert!(adj[4][5]);
}

#[test]
fn square_disc_points_small() {
    assert_eq!(EisensteinInt::square_disc_points(1), vec![(-1, 0), (0, -1), (0, 1), (1, 0)]);
    assert!(EisensteinInt::square_disc_points(0).is_empty());
    assert_eq!(EisensteinInt::square_disc_points(2).len(), 12);
}

#[test]
fn norm_is_multiplicative() {
    let cases = [(1i64, 2i64, 3i64, -1i64), (2, 1, 2, 1), (-3, 5, 4, 7), (0, 1, 0, 1), (5, 0, -2, 3)];
    for (a, b, c, d) in cases {
        let product = EisensteinInt::norm(a * c - b * d, a * d + b * c - b * d);
        assert_eq!(product, EisensteinInt::norm(a, b) * EisensteinInt::norm(c, d));
    }
    // (2 + ω)(2 + ω) = 3 + 3ω, norm 9 = 3 * 3
    assert_eq!(EisensteinInt::norm(3, 3), 9);
}
