//! The batched-fetch coordinator's planning, retry and aggregation logic.

use uniswap_routing::client::{
    aggregate_pages, plan_pages, retry_next, retry_start, PageEvent, PageStep, N_RETRIES,
};
use uniswap_routing::queries::{
    parse_digits, GetPools, GetPoolsPools, GetPoolsPoolsToken0, GetPoolsPoolsToken1, Pool,
    Variables, OPERATION_NAME, QUERY,
};
use uniswap_routing::rate::Decimal;
use uniswap_routing::Error;

fn pool(t0: &str, t1: &str) -> Pool {
    GetPoolsPools {
        token0: GetPoolsPoolsToken0 { symbol: t0.to_string() },
        token1: GetPoolsPoolsToken1 { symbol: t1.to_string() },
        fee_ppm: 3000,
        token0_price: Decimal { mantissa: 1, scale: 0 },
        token1_price: Decimal { mantissa: 1, scale: 0 },
    }
}

fn page_of(n: usize, tag: &str) -> Vec<Pool> {
    (0..n).map(|i| pool(&format!("{tag}{i}"), "WETH")).collect()
}

/// Drive one page through the retry state machine with a scripted
/// provider, as the I/O layer would.
fn run_page(mut events: Vec<PageEvent>) -> Result<Vec<Pool>, Error> {
    let mut state = retry_start();
    loop {
        assert!(!events.is_empty(), "the provider script ran out of events");
        match retry_next(state, events.remove(0)) {
            PageStep::RequestAgain(next) => state = next,
            PageStep::Done(pools) => return Ok(pools),
            PageStep::Failed(e) => return Err(e),
        }
    }
}

#[test]
fn plan_pages_defaults() {
    let windows = plan_pages(None, None);
    assert_eq!(windows.len(), 20);
    for (i, w) in windows.iter().enumerate() {
        assert_eq!(w.first, 100);
        assert_eq!(w.skip, (i as i64) * 100);
    }
}

#[test]
fn plan_pages_covers_a_ragged_total() {
    let windows = plan_pages(Some(250), Some(100));
    assert_eq!(windows.len(), 3);
    assert_eq!(windows[2].skip, 200);
    assert_eq!(plan_pages(Some(0), Some(100)).len(), 0);
    assert_eq!(plan_pages(Some(1), Some(100)).len(), 1);
}

#[test]
fn retry_steps() {
    let start = retry_start();
    assert_eq!(start.attempts_left, N_RETRIES);
    match retry_next(start, PageEvent::Data(page_of(2, "T"))) {
        PageStep::Done(pools) => assert_eq!(pools.len(), 2),
        _ => panic!("data must resolve the page"),
    }
    match retry_next(start, PageEvent::TransportError) {
        PageStep::Failed(e) => assert_eq!(e, Error::Transport),
        _ => panic!("a transport error must fail the page at once"),
    }
    match retry_next(start, PageEvent::NoData) {
        PageStep::RequestAgain(s) => assert_eq!(s.attempts_left, N_RETRIES - 1),
        _ => panic!("an empty payload must spend one attempt"),
    }
    let last = uniswap_routing::client::RetryState { attempts_left: 1 };
    match retry_next(last, PageEvent::NoData) {
        PageStep::Failed(e) => assert_eq!(e, Error::GetPoolsMaxRetries),
        _ => panic!("an exhausted budget must fail the page"),
    }
}

#[test]
fn empty_payloads_exhaust_the_budget() {
    let out = run_page(vec![PageEvent::NoData, PageEvent::NoData, PageEvent::NoData]);
    assert!(matches!(out, Err(Error::GetPoolsMaxRetries)));
    let out = run_page(vec![
        PageEvent::NoData,
        PageEvent::NoData,
        PageEvent::Data(page_of(1, "T")),
    ]);
    assert_eq!(out.unwrap().len(), 1);
}

#[test]
fn fetch_partial_failure() {
    // Three pages of a 300-pool fetch; page 2 only ever answers with empty
    // payloads and is silently dropped after its three attempts.
    let windows = plan_pages(Some(300), Some(100));
    assert_eq!(windows.len(), 3);
    let scripts = vec![
        vec![PageEvent::Data(page_of(100, "A"))],
        vec![PageEvent::NoData, PageEvent::NoData, PageEvent::NoData],
        vec![PageEvent::Data(page_of(100, "C"))],
    ];
    let results: Vec<Result<Vec<Pool>, Error>> = scripts.into_iter().map(run_page).collect();
    assert!(matches!(results[1], Err(Error::GetPoolsMaxRetries)));
    let pools = aggregate_pages(results);
    assert_eq!(pools.len(), 200);
    assert_eq!(pools[0].token0.symbol, "A0");
    assert_eq!(pools[100].token0.symbol, "C0");
}

#[test]
fn aggregation_keeps_successes_in_arrival_order() {
    let results = vec![
        Ok(page_of(2, "A")),
        Err(Error::Transport),
        Ok(Vec::new()),
        Ok(page_of(1, "D")),
    ];
    let pools = aggregate_pages(results);
    assert_eq!(pools.len(), 3);
    assert_eq!(pools[0].token0.symbol, "A0");
    assert_eq!(pools[1].token0.symbol, "A1");
    assert_eq!(pools[2].token0.symbol, "D0");
}

#[test]
fn build_query_carries_the_window() {
    let body = GetPools::build_query(Variables { first: 100, skip: 300 });
    assert_eq!(body.variables.first, 100);
    assert_eq!(body.variables.skip, 300);
    assert_eq!(body.query, QUERY);
    assert_eq!(body.operation_name, OPERATION_NAME);
    assert!(body.query.contains("orderBy: txCount"));
}

#[test]
fn parse_digits_exact() {
    assert_eq!(parse_digits(b"3000"), Some(3000));
    assert_eq!(parse_digits(b"0"), Some(0));
    assert_eq!(parse_digits(b"007"), Some(7));
    assert_eq!(parse_digits(b""), None);
    assert_eq!(parse_digits(b"12a"), None);
    assert_eq!(parse_digits(b"-5"), None);
    assert_eq!(parse_digits(b"18446744073709551615"), Some(u64::MAX));
    assert_eq!(parse_digits(b"18446744073709551616"), None);
    assert_eq!(parse_digits(b"999999999999999999999999"), None);
}
