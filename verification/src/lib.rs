pub mod eigenvalue;
pub mod eisenstein;
pub mod lattice;
pub mod number_theory;
pub mod pythagorean_triples;
pub mod snap;
pub mod sorted;
