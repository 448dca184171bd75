//! A small library of classic contest data structures and algorithms:
//! an implicit-key treap with a split/merge algebra, one- and
//! two-dimensional prefix sums, Manacher's palindrome radii, rolling
//! hashes, bipartite matching, and heavy-light decomposition.

pub mod bipartite_matching;
pub mod cumsum;
pub mod hl_decomposition;
pub mod manacher;
pub mod rolling_hash;
pub mod treap;
pub mod xorshift;
