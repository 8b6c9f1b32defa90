//! Decision logic of the batched pool-fetch coordinator.
//!
//! The coordinator covers `[0, n_pools)` with one page request per
//! `[skip, skip + batch_size)` window, retries a page while the upstream
//! answers with an empty payload, fails a page at once on a transport error,
//! and aggregates the successful pages, silently dropping the failed ones.
//! The I/O layer drives these functions: it performs one request per
//! [`PageStep::RequestAgain`], reports what came back as a [`PageEvent`],
//! and joins the pages' results for [`aggregate_pages`].

use vstd::prelude::*;

use crate::queries::{Pool, Variables};
use crate::Error;

verus! {

/// Number of attempts for one page before its retry budget is exhausted.
pub const N_RETRIES: u8 = 3;

/// The default batch size of pools to fetch per page.
pub const POOL_BATCH_SIZE: u16 = 100;

/// The default total number of pools to fetch.
pub const N_POOLS: u16 = 2000;

/// What one attempt at fetching a page came back with.
pub enum PageEvent {
    /// A structurally valid response carrying this page's records.
    Data(Vec<Pool>),
    /// A structurally valid but data-less response; the page is retried.
    NoData,
    /// A transport-level failure; the page fails at once, without retry.
    TransportError,
}

/// Retry bookkeeping for one in-flight page.
#[derive(Clone, Copy, PartialEq, Eq, Structural, Debug)]
pub struct RetryState {
    /// Attempts that may still be made, counting this one.
    pub attempts_left: u8,
}

/// What the coordinator decides after one attempt at a page.
pub enum PageStep {
    /// Ask the upstream for the same page once more.
    RequestAgain(RetryState),
    /// The page resolved with these records.
    Done(Vec<Pool>),
    /// The page failed, terminally.
    Failed(Error),
}

/// The retry bookkeeping a page starts with: the full budget.
pub fn retry_start() -> (r: RetryState)
    ensures
        r.attempts_left == N_RETRIES,
{
    RetryState { attempts_left: N_RETRIES }
}

/// Decide how a page proceeds after one attempt: data resolves the page,
/// a transport error fails it at once, and an empty payload either spends
/// one attempt of the budget or, with the budget exhausted, fails the page.
pub fn retry_next(state: RetryState, event: PageEvent) -> (r: PageStep)
    requires
        state.attempts_left >= 1,
    ensures
        match event {
            PageEvent::Data(pools) => r == PageStep::Done(pools),
            PageEvent::TransportError => r == PageStep::Failed(Error::Transport),
            PageEvent::NoData => if state.attempts_left > 1 {
                r == PageStep::RequestAgain(
                    RetryState { attempts_left: (state.attempts_left - 1) as u8 },
                )
            } else {
                r == PageStep::Failed(Error::GetPoolsMaxRetries)
            },
        },
{
    match event {
        PageEvent::Data(pools) => PageStep::Done(pools),
        PageEvent::TransportError => PageStep::Failed(Error::Transport),
        PageEvent::NoData => {
            if state.attempts_left > 1 {
                PageStep::RequestAgain(RetryState { attempts_left: state.attempts_left - 1 })
            } else {
                PageStep::Failed(Error::GetPoolsMaxRetries)
            }
        },
    }
}

/// The total pool count a caller asked for, with the default filled in.
pub open spec fn effective_total(n_pools: Option<u16>) -> u16 {
    match n_pools {
        Some(n) => n,
        None => N_POOLS,
    }
}

/// The batch size a caller asked for, with the default filled in.
pub open spec fn effective_batch(batch_size: Option<u16>) -> u16 {
    match batch_size {
        Some(b) => b,
        None => POOL_BATCH_SIZE,
    }
}

/// Plan the page windows that together cover `[0, n_pools)`: one request per
/// `[skip, skip + batch_size)` window, every window of the full batch size.
/// The windows are dispatched concurrently by the I/O layer; their order
/// here carries no meaning.
pub fn plan_pages(n_pools: Option<u16>, batch_size: Option<u16>) -> (r: Vec<Variables>)
    requires
        effective_batch(batch_size) > 0,
    ensures
        effective_total(n_pools) == 0 ==> r@.len() == 0,
        effective_total(n_pools) > 0 ==> {
            &&& r@.len() >= 1
            &&& (r@.len() - 1) * effective_batch(batch_size) < effective_total(n_pools)
            &&& effective_total(n_pools) <= r@.len() * effective_batch(batch_size)
        },
        forall|i: int| 0 <= i < r@.len() ==> (#[trigger] r@[i]).first == effective_batch(
            batch_size,
        ) as i64,
        forall|i: int| 0 <= i < r@.len() ==> (#[trigger] r@[i]).skip == i * effective_batch(
            batch_size,
        ),
{
    let n: u16 = match n_pools {
        Some(n) => n,
        None => N_POOLS,
    };
    let batch: u16 = match batch_size {
        Some(b) => b,
        None => POOL_BATCH_SIZE,
    };
    let mut requests: Vec<Variables> = Vec::new();
    let mut count: u32 = 0;
    while count < n as u32
        invariant
            batch == effective_batch(batch_size),
            n == effective_total(n_pools),
            batch > 0,
            count == requests@.len() * batch,
            count < n as u32 + batch as u32,
            requests@.len() == 0 || (requests@.len() - 1) * batch < n,
            forall|i: int| 0 <= i < requests@.len() ==> (#[trigger] requests@[i]).first
                == batch as i64,
            forall|i: int| 0 <= i < requests@.len() ==> (#[trigger] requests@[i]).skip == i
                * batch,
        decreases n as int + batch as int - count,
    {
        requests.push(Variables { first: batch as i64, skip: count as i64 });
        proof {
            assert(requests@.len() * batch == (requests@.len() - 1) * batch + batch)
                by (nonlinear_arith);
        }
        count = count + batch as u32;
    }
    requests
}

/// The concatenation, in arrival order, of the records of the pages that
/// succeeded; failed pages contribute nothing.
pub open spec fn flatten_ok(s: Seq<Result<Vec<Pool>, Error>>) -> Seq<Pool>
    decreases s.len(),
{
    if s.len() == 0 {
        Seq::empty()
    } else {
        (match s[0] {
            Ok(pools) => pools@,
            Err(_) => Seq::empty(),
        }) + flatten_ok(s.drop_first())
    }
}

/// Aggregate the resolved pages: keep every successful page's records and
/// silently drop each failed page, so one failed page never fails the whole
/// fetch — the result may then hold fewer records than were asked for.
pub fn aggregate_pages(results: Vec<Result<Vec<Pool>, Error>>) -> (r: Vec<Pool>)
    ensures
        r@ == flatten_ok(results@),
{
    let ghost all = results@;
    let mut rest = results;
    let mut pools: Vec<Pool> = Vec::new();
    proof {
        assert(pools@ + flatten_ok(rest@) =~= flatten_ok(all));
    }
    while rest.len() > 0
        invariant
            pools@ + flatten_ok(rest@) =~= flatten_ok(all),
        decreases rest@.len(),
    {
        let ghost rest0 = rest@;
        let page = rest.remove(0);
        proof {
            assert(rest@ =~= rest0.drop_first());
        }
        match page {
            Ok(mut fetched) => {
                pools.append(&mut fetched);
            },
            Err(_) => {},
        }
        proof {
            assert(pools@ + flatten_ok(rest@) =~= flatten_ok(all));
        }
    }
    proof {
        assert(pools@ =~= flatten_ok(all));
    }
    pools
}

} // verus!
