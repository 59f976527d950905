//! Engine for the alternating naming game played over two participant pools
//! linked by shared-membership events.
//!
//! The library builds the weighted bipartite adjacency induced by the events,
//! decides the forced-win side through a Hopcroft–Karp maximum matching, and
//! recommends moves during live play with a greedy weighted policy.

pub mod adjacency;
pub mod builder;
pub mod input;
pub mod matching;
pub mod pools;
pub mod recommend;
pub mod session;
