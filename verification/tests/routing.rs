//! Route queries over graphs built from small record batches.

use uniswap_routing::graph::PoolGraph;
use uniswap_routing::queries::{GetPoolsPools, GetPoolsPoolsToken0, GetPoolsPoolsToken1, Pool};
use uniswap_routing::rate::{Decimal, Rate};
use uniswap_routing::QueryRoot;

fn pool(t0: &str, t1: &str, fee_ppm: u32, p0: (u128, u32), p1: (u128, u32)) -> Pool {
    GetPoolsPools {
        token0: GetPoolsPoolsToken0 { symbol: t0.to_string() },
        token1: GetPoolsPoolsToken1 { symbol: t1.to_string() },
        fee_ppm,
        token0_price: Decimal { mantissa: p0.0, scale: p0.1 },
        token1_price: Decimal { mantissa: p1.0, scale: p1.1 },
    }
}

fn sorted_tokens(g: &PoolGraph) -> Vec<String> {
    let mut t = g.tokens();
    t.sort();
    t
}

#[test]
fn merge_keeps_maximum_rate() {
    // Two pools for the same ordered pair; zero fee for round numbers.
    // First offers WETH->USDC at 1/2, second at 1/1: the edge keeps 1/1.
    let records = vec![
        pool("WETH", "USDC", 0, (2, 0), (2, 0)),
        pool("WETH", "USDC", 0, (1, 0), (1, 0)),
    ];
    let g = PoolGraph::from_records(&records);
    let routes = g.routes("WETH", "USDC", 0);
    assert_eq!(routes.len(), 1);
    let expected = Rate::from_fraction(1_000_000, 1_000_000);
    assert!(routes[0].score.eq_rate(&expected));
}

#[test]
fn merge_does_not_average() {
    // The lower offer must not drag the stored rate down.
    let records = vec![
        pool("WETH", "USDC", 0, (1, 0), (1, 0)),
        pool("WETH", "USDC", 0, (4, 0), (4, 0)),
    ];
    let g = PoolGraph::from_records(&records);
    let routes = g.routes("WETH", "USDC", 0);
    assert_eq!(routes.len(), 1);
    let expected = Rate::from_fraction(1, 1);
    assert!(routes[0].score.eq_rate(&expected));
}

#[test]
fn build_order_independent() {
    let g1 = PoolGraph::from_records(&vec![
        pool("WETH", "USDC", 3000, (2000, 0), (5, 4)),
        pool("USDC", "LINK", 3000, (10, 0), (1, 1)),
    ]);
    let g2 = PoolGraph::from_records(&vec![
        pool("USDC", "LINK", 3000, (10, 0), (1, 1)),
        pool("WETH", "USDC", 3000, (2000, 0), (5, 4)),
    ]);
    assert_eq!(sorted_tokens(&g1), sorted_tokens(&g2));
    for (x, y) in [
        ("WETH", "USDC"),
        ("USDC", "WETH"),
        ("USDC", "LINK"),
        ("LINK", "USDC"),
    ] {
        let r1 = g1.routes(x, y, 0);
        let r2 = g2.routes(x, y, 0);
        assert_eq!(r1.len(), 1);
        assert_eq!(r2.len(), 1);
        assert_eq!(r1[0].route, r2[0].route);
        assert!(r1[0].score.eq_rate(&r2[0].score));
    }
}

#[test]
fn depth_bound_respected() {
    // A chain A -> B -> C -> D needs two intermediate tokens.
    let records = vec![
        pool("A", "B", 0, (1, 0), (1, 0)),
        pool("B", "C", 0, (1, 0), (1, 0)),
        pool("C", "D", 0, (1, 0), (1, 0)),
    ];
    let g = PoolGraph::from_records(&records);
    assert_eq!(g.routes("A", "D", 1).len(), 0);
    let found = g.routes("A", "D", 2);
    assert_eq!(found.len(), 1);
    assert_eq!(found[0].route, vec!["A", "B", "C", "D"]);
    for k in 0..5 {
        for r in g.routes("A", "D", k) {
            assert!(r.route.len() <= k + 2);
        }
    }
}

#[test]
fn score_is_product_of_hop_rates() {
    // WETH->USDC at 1/2 and USDC->LINK at 1/4: the two-hop score is 1/8.
    let records = vec![
        pool("WETH", "USDC", 0, (2, 0), (2, 0)),
        pool("USDC", "LINK", 0, (4, 0), (4, 0)),
    ];
    let g = PoolGraph::from_records(&records);
    let found = g.routes("WETH", "LINK", 1);
    assert_eq!(found.len(), 1);
    assert_eq!(found[0].route, vec!["WETH", "USDC", "LINK"]);
    let hop0 = Rate::from_fraction(1, 2);
    let hop1 = Rate::from_fraction(1, 4);
    let expected = hop0.times(&hop1);
    assert!(found[0].score.eq_rate(&expected));
    assert!(found[0].score.eq_rate(&Rate::from_fraction(1, 8)));
}

#[test]
fn scores_descend() {
    // Three ways from A to Z with different compounded rates.
    let records = vec![
        pool("A", "Z", 0, (10, 0), (10, 0)),
        pool("A", "B", 0, (1, 0), (1, 0)),
        pool("B", "Z", 0, (2, 0), (2, 0)),
        pool("A", "C", 0, (1, 0), (1, 0)),
        pool("C", "Z", 0, (5, 0), (5, 0)),
    ];
    let g = PoolGraph::from_records(&records);
    let found = g.routes("A", "Z", 3);
    assert_eq!(found.len(), 3);
    for w in found.windows(2) {
        // Non-increasing: the later score never exceeds the earlier.
        assert!(w[1].score.le(&w[0].score));
    }
    assert_eq!(found[0].route, vec!["A", "B", "Z"]);
}

#[test]
fn unknown_token_yields_empty() {
    let records = vec![pool("WETH", "USDC", 3000, (2000, 0), (5, 4))];
    let g = PoolGraph::from_records(&records);
    assert_eq!(g.routes("NOPE", "WETH", 3).len(), 0);
    assert_eq!(g.routes("WETH", "NOPE", 3).len(), 0);
    assert!(g.optiomal_route("NOPE", "WETH").is_none());
}

#[test]
fn no_path_yields_empty() {
    let records = vec![
        pool("A", "B", 0, (1, 0), (1, 0)),
        pool("C", "D", 0, (1, 0), (1, 0)),
    ];
    let g = PoolGraph::from_records(&records);
    assert_eq!(g.routes("A", "D", 3).len(), 0);
    assert!(g.optiomal_route("A", "D").is_none());
}

#[test]
fn same_token_route_is_cycle_or_nothing() {
    // A zero-length route never counts; a cycle through another token does.
    let records = vec![pool("WETH", "USDC", 0, (2, 0), (2, 0))];
    let g = PoolGraph::from_records(&records);
    let found = g.routes("WETH", "WETH", 3);
    assert_eq!(found.len(), 1);
    assert_eq!(found[0].route, vec!["WETH", "USDC", "WETH"]);
}

#[test]
fn self_pair_record_gives_no_one_hop_self_route() {
    // A record listing the same token on both sides makes a self-edge,
    // but the bare one-hop route back to the start is no route.
    let records = vec![pool("X", "X", 0, (1, 0), (1, 0))];
    let g = PoolGraph::from_records(&records);
    assert_eq!(g.tokens(), vec!["X"]);
    assert_eq!(g.routes("X", "X", 3).len(), 0);
    assert!(g.optiomal_route("X", "X").is_none());
}

#[test]
fn self_edge_never_shortcuts_a_cycle() {
    // With both a self-edge on X and a two-hop cycle through Y, only the
    // cycle through the distinct other token is a route.
    let records = vec![
        pool("X", "X", 0, (1, 0), (1, 0)),
        pool("X", "Y", 0, (2, 0), (2, 0)),
    ];
    let g = PoolGraph::from_records(&records);
    let found = g.routes("X", "X", 3);
    assert_eq!(found.len(), 1);
    assert_eq!(found[0].route, vec!["X", "Y", "X"]);
    assert!(found[0].score.eq_rate(&Rate::from_fraction(1, 4)));
}

#[test]
fn end_to_end_concrete() {
    let records = vec![
        pool("WETH", "USDC", 3000, (2000, 0), (5, 4)),
        pool("USDC", "LINK", 3000, (10, 0), (1, 1)),
    ];
    let g = PoolGraph::from_records(&records);
    let tokens = sorted_tokens(&g);
    assert_eq!(tokens, vec!["LINK", "USDC", "WETH"]);
    let best = g.optiomal_route("WETH", "LINK").unwrap();
    assert_eq!(best.route, vec!["WETH", "USDC", "LINK"]);
    // (0.997 / 2000) * (0.997 / 10), exactly.
    let expected = Rate::from_fraction(997_000u128 * 997_000u128, 20_000_000_000_000_000u128);
    assert!(best.score.eq_rate(&expected));
}

#[test]
fn query_root_operations() {
    let records = vec![
        pool("WETH", "USDC", 3000, (2000, 0), (5, 4)),
        pool("USDC", "LINK", 3000, (10, 0), (1, 1)),
    ];
    let g = PoolGraph::from_records(&records);
    let root = QueryRoot;
    let mut tokens = root.tokens(&g);
    tokens.sort();
    assert_eq!(tokens, vec!["LINK", "USDC", "WETH"]);
    assert_eq!(root.optimal_route(&g, "WETH", "LINK"), vec!["WETH", "USDC", "LINK"]);
    assert_eq!(root.optimal_route(&g, "WETH", "NOPE"), Vec::<String>::new());
}

#[test]
fn empty_batch_builds_empty_graph() {
    let g = PoolGraph::from_records(&Vec::new());
    assert_eq!(g.tokens().len(), 0);
    assert_eq!(g.routes("WETH", "USDC", 3).len(), 0);
}
