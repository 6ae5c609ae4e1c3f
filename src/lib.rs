//! Monte Carlo estimation of the weight of a minimum spanning tree of a random
//! complete graph, by simulating Kruskal's algorithm on lazily drawn edges.
//!
//! - `union_find`: disjoint sets with component sizes and pair counters.
//! - `sampler`: the adaptive edge sampler that yields the accepted edges.
//! - `fat_component`: a union-find that tracks the dominating component itself.
//! - `partition`: the labelled partitions that the structures are proved against.
//! - `random`: where random choices come from.
//! - `bitvector`: a packed set of small integers.
//! - `morton`: Morton codes of small integer coordinates.

pub mod bitvector;
pub mod fat_component;
pub mod morton;
pub mod partition;
pub mod random;
pub mod sampler;
pub mod union_find;
