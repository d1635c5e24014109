# pythagorean_quantize

Discrete spectra from integer lattices: Pythagorean triples, Eisenstein
integers, lattice graphs and the pseudo-random integer graphs whose Laplacian
spectra snap to algebraic numbers.

Layout:

- `src/` — the verified library (Verus). Every executable function has a
  contract proved by Verus:
  - `pythagorean_triples`: `gcd`, Euclid's formula (`primitive`, `all`), the
    "shares a number" graph; proofs that the lists hold exactly the primitive
    (resp. all) Pythagorean triples up to a bound, in a fixed order, including
    Euclid's theorem that every primitive triple comes from the formula.
  - `eisenstein`: the norm `a² - ab + b²`, the lattice points up to a norm,
    the hexagonal adjacency and the square-lattice disc.
  - `lattice`: grid and chain points, neighbour steps, the adjacency that
    steps induce on points, the Fibonacci chain and Fibonacci numbers.
  - `eigenvalue`, `snap`: the 64-bit linear congruential generator and the
    symmetric weight matrices it fills.
  - `number_theory`, `sorted`: gcd, Bezout, integer square roots, and the
    uniqueness of strictly sorted lists.
- `app/` — the floating-point part (power iteration, conservation ratios,
  eigenvalue snapping, lattice comparisons) and `main`, built on the library.
- `tests/` — tests of the library.
