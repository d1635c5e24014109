use pythagorean_quantize::pythagorean_triples::PythagoreanTriple;

fn abc(t: &PythagoreanTriple) -> (u64, u64, u64) {
    (t.a, t.b, t.c)
}

#[test]
fn test_345_is_primitive() {
    let triples = PythagoreanTriple::primitive(10);
    assert!(triples.iter().any(|t| t.a == 3 && t.b == 4 && t.c == 5));
}

#[test]
fn test_primitive_only_coprime() {
    let triples = PythagoreanTriple::primitive(100);
    for t in &triples {
        let g = PythagoreanTriple::gcd(PythagoreanTriple::gcd(t.a, t.b), t.c);
        assert_eq!(g, 1, "Triple ({},{},{}) is not primitive", t.a, t.b, t.c);
    }
}

#[test]
fn test_triple_graph_sharing() {
    let triples = PythagoreanTriple::primitive(50);
    let adj = PythagoreanTriple::triple_adjacency(&triples);
    // (3,4,5) and (5,12,13) share 5
    let idx_345 = triples.iter().position(|t| t.a == 3 && t.b == 4 && t.c == 5).unwrap();
    let idx_51213 = triples.iter().position(|t| t.a == 5 && t.b == 12 && t.c == 13).unwrap();
    assert_eq!(adj[idx_345][idx_51213], true);
}

#[test]
fn gcd_values() {
    assert_eq!(PythagoreanTriple::gcd(12, 18), 6);
    assert_eq!(PythagoreanTriple::gcd(18, 12), 6);
    assert_eq!(PythagoreanTriple::gcd(0, 5), 5);
    assert_eq!(PythagoreanTriple::gcd(7, 0), 7);
    assert_eq!(PythagoreanTriple::gcd(0, 0), 0);
    assert_eq!(PythagoreanTriple::gcd(17, 5), 1);
    assert_eq!(PythagoreanTriple::gcd(u64::MAX, u64::MAX), u64::MAX);
}

#[test]
fn new_orders_legs() {
    assert_eq!(abc(&PythagoreanTriple::new(4, 3, 5)), (3, 4, 5));
    assert_eq!(abc(&PythagoreanTriple::new(3, 4, 5)), (3, 4, 5));
}

#[test]
fn primitive_exact_list() {
    let got: Vec<_> = PythagoreanTriple::primitive(30).iter().map(abc).collect();
    assert_eq!(got, vec![(3, 4, 5), (5, 12, 13), (8, 15, 17), (7, 24, 25), (20, 21, 29)]);
}

#[test]
fn primitive_small_bounds() {
    assert!(PythagoreanTriple::primitive(0).is_empty());
    assert!(PythagoreanTriple::primitive(4).is_empty());
    let got: Vec<_> = PythagoreanTriple::primitive(5).iter().map(abc).collect();
    assert_eq!(got, vec![(3, 4, 5)]);
}

#[test]
fn primitive_same_hypotenuse_ordered_by_odd_leg() {
    let got: Vec<_> = PythagoreanTriple::primitive(65).iter().map(abc).collect();
    let n = got.len();
    assert_eq!(got[n - 2], (33, 56, 65));
    assert_eq!(got[n - 1], (16, 63, 65));
}

#[test]
fn primitive_are_pythagorean_and_sorted() {
    let triples = PythagoreanTriple::primitive(1000);
    for t in &triples {
        assert!(t.a <= t.b);
        assert_eq!(t.a * t.a + t.b * t.b, t.c * t.c);
        assert!(t.c <= 1000);
    }
    for w in triples.windows(2) {
        assert!(w[0].c <= w[1].c);
    }
}

#[test]
fn all_exact_list() {
    let got: Vec<_> = PythagoreanTriple::all(30).iter().map(abc).collect();
    assert_eq!(
        got,
        vec![
            (3, 4, 5),
            (6, 8, 10),
            (5, 12, 13),
            (9, 12, 15),
            (8, 15, 17),
            (12, 16, 20),
            (15, 20, 25),
            (7, 24, 25),
            (10, 24, 26),
            (20, 21, 29),
            (18, 24, 30),
        ]
    );
}

#[test]
fn all_contains_primitive() {
    let prim = PythagoreanTriple::primitive(200);
    let all: Vec<_> = PythagoreanTriple::all(200).iter().map(abc).collect();
    for p in &prim {
        assert!(all.contains(&abc(p)));
    }
    for t in &all {
        assert_eq!(t.0 * t.0 + t.1 * t.1, t.2 * t.2);
    }
}

#[test]
fn is_pythagorean_values() {
    assert!(PythagoreanTriple::is_pythagorean(3, 4, 5));
    assert!(PythagoreanTriple::is_pythagorean(4, 3, 5));
    assert!(!PythagoreanTriple::is_pythagorean(3, 4, 6));
    assert!(PythagoreanTriple::is_pythagorean(0, 0, 0));
    assert!(!PythagoreanTriple::is_pythagorean(u64::MAX, u64::MAX, u64::MAX));
}

#[test]
fn shares_number_values() {
    let a = PythagoreanTriple::new(3, 4, 5);
    let b = PythagoreanTriple::new(5, 12, 13);
    let c = PythagoreanTriple::new(8, 15, 17);
    assert!(a.shares_number(&b));
    assert!(b.shares_number(&a));
    assert!(!a.shares_number(&c));
    let adj = PythagoreanTriple::triple_adjacency(&vec![a, b, c]);
    assert_eq!(adj, vec![vec![false, true, false], vec![true, false, false], vec![false, false, false]]);
}

fn brute_force(max_c: u64, primitive_only: bool) -> Vec<(u64, u64, u64)> {
    let mut found = Vec::new();
    for c in 1..=max_c {
        for a in 1..c {
            for b in a..c {
                if a * a + b * b == c * c {
                    let g = PythagoreanTriple::gcd(PythagoreanTriple::gcd(a, b), c);
                    if !primitive_only || g == 1 {
                        found.push((a, b, c));
                    }
                }
            }
        }
    }
    found
}

#[test]
fn primitive_finds_every_primitive_triple() {
    let got: Vec<_> = PythagoreanTriple::primitive(150).iter().map(abc).collect();
    let expected = brute_force(150, true);
    assert_eq!(got.len(), expected.len());
    for t in &expected {
        assert!(got.contains(t), "missing {:?}", t);
    }
}

#[test]
fn all_finds_every_triple() {
    let got: Vec<_> = PythagoreanTriple::all(120).iter().map(abc).collect();
    let expected = brute_force(120, false);
    assert_eq!(got.len(), expected.len());
    for t in &expected {
        assert!(got.contains(t), "missing {:?}", t);
    }
    assert!(got.contains(&(30, 40, 50)));
}

#[test]
fn all_coprime_legs_are_primitive_in_order() {
    for max_c in [0u64, 5, 30, 65, 200] {
        let prim: Vec<_> = PythagoreanTriple::primitive(max_c).iter().map(abc).collect();
        let filtered: Vec<_> = PythagoreanTriple::all(max_c)
            .iter()
            .filter(|t| PythagoreanTriple::gcd(t.a, t.b) == 1)
            .map(abc)
            .collect();
        assert_eq!(filtered, prim);
    }
}

#[test]
fn all_len_is_sum_of_multiples() {
    for max_c in [0u64, 5, 30, 65, 200] {
        let prim = PythagoreanTriple::primitive(max_c);
        let expected: u64 = prim.iter().map(|p| max_c / p.c).sum();
        assert_eq!(PythagoreanTriple::all(max_c).len() as u64, expected);
    }
    assert_eq!(PythagoreanTriple::all(30).len(), 11);
}
