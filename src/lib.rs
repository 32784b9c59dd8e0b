//! Rank-based gene co-expression networks.
//!
//! Correlation coefficients are held as integers: a coefficient `x` is the
//! signed integer `±m`, where `m` is the IEEE-754 bit pattern of `|x|` and the
//! sign is that of `x`. For finite doubles this image keeps both the order
//! of the values and their absolute value, so every comparison the network
//! construction makes on coefficients is made exactly on their images.

pub mod codon;
pub mod construct_network;
pub mod graph;
pub mod query;
pub mod rank;
pub mod record;
pub mod similarity;
