//! Memory-less pseudo-random permutations of a power-of-two index domain.
//!
//! A Feistel network, driven by a PCG-style mixing hash, maps the
//! indices `[0, 2^bits)` onto themselves without ever building a table.
//! [`stateless_shuffle::ShuffleIter`] exposes the permutation and its inverse;
//! [`stateless_grouping::GroupIter`] uses it to split the domain into
//! pseudo-random groups of a fixed size.
pub mod feistel;
pub mod pcg;
pub mod stateless_grouping;
pub mod stateless_shuffle;
