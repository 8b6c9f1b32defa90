//! Routing over a token-swap pool graph.
//!
//! The library builds a directed graph of exchangeable tokens from a batch of
//! liquidity-pool records and answers route queries between tokens, ranking
//! routes by the compounded exchange rate. A companion module plans the
//! batched, retried fetch of the pool records from an upstream provider.

use vstd::prelude::*;

pub mod bignum;
pub mod client;
pub mod get_pools;
pub mod graph;
pub mod queries;
pub mod rate;

verus! {

/// Errors that the pool-fetch coordinator can report for a single page.
#[derive(Debug, Clone, Copy, PartialEq, Eq, Structural)]
pub enum Error {
    /// The retry budget for a page was exhausted while the upstream kept
    /// answering with an empty payload.
    GetPoolsMaxRetries,
    /// A transport-level failure while talking to the upstream provider.
    Transport,
}


/// The read operations the serving layer exposes over the pool graph.
pub struct QueryRoot;

impl QueryRoot {
    /// The supported tokens for swaps: every node symbol of the graph.
    pub fn tokens(&self, graph: &graph::PoolGraph) -> (r: Vec<String>)
        ensures
            r@.len() == graph.symbols@.len(),
            forall|i: int| 0 <= i < r@.len() ==> (#[trigger] r@[i])@ == graph.sym(i),
    {
        graph.tokens()
    }

    /// The best swap route for a pair of tokens as its token list, or an
    /// empty list when no route within the default depth bound exists.
    pub fn optimal_route(&self, graph: &graph::PoolGraph, token0: &str, token1: &str) -> (r: Vec<
        String,
    >)
        requires
            graph.wf(),
        ensures
            (exists|route: Seq<Seq<char>>|
                #[trigger] graph::valid_route(*graph, route, token0@, token1@, 3)) ==> {
                &&& graph::valid_route(*graph, graph::strings_view(r@), token0@, token1@, 3)
                &&& forall|route: Seq<Seq<char>>|
                    #[trigger] graph::valid_route(*graph, route, token0@, token1@, 3)
                        ==> crate::rate::rat_le(
                        graph::route_score(*graph, route),
                        graph::route_score(*graph, graph::strings_view(r@)),
                    )
            },
            !(exists|route: Seq<Seq<char>>|
                #[trigger] graph::valid_route(*graph, route, token0@, token1@, 3)) ==> r@.len()
                == 0,
    {
        match graph.optiomal_route(token0, token1) {
            Some(rr) => {
                proof {
                    assert(graph::strings_view(rr.route@) == rr.route_view());
                }
                rr.route
            },
            None => Vec::new(),
        }
    }
}

} // verus!
