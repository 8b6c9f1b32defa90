//! Pool records and the query that fetches them.
//!
//! The upstream provider answers a paginated query with batches of pool
//! records. Here the records carry plain values only: a fee in parts per
//! million and prices as positive decimals; the surrounding I/O layer
//! converts the wire form into these values.

use vstd::prelude::*;

use crate::rate::{Decimal, FEE_DENOMINATOR};

verus! {

/// Marker for the batched pool query.
pub struct GetPools;

pub const OPERATION_NAME: &'static str = "GetPools";

/// Query for a batch of pools that have liquidity greater than 0,
/// ordered by total transaction count in reverse order, so that when a page
/// is dropped the most active pools are still preferentially represented.
pub const QUERY: &'static str = "query GetPool($first: Int! $skip: Int!) {\n    pools(\n      skip: $skip\n      first: $first\n      orderBy: txCount\n      orderDirection: desc\n where: {liquidity_gt: 0}\n ) {\n      token0 {\n        symbol\n      }\n      token1 {\n        symbol\n      }\n      feeTier\n      token0Price\n      token1Price\n    }\n  }\n";

/// Variables of one page request: the window `[skip, skip + first)`.
#[derive(Clone, Copy, PartialEq, Eq, Structural, Debug)]
pub struct Variables {
    pub first: i64,
    pub skip: i64,
}

/// A complete request body for one page.
pub struct QueryBody {
    pub variables: Variables,
    pub query: &'static str,
    pub operation_name: &'static str,
}

impl GetPools {
    /// Assemble the request body for one page of the pool query.
    pub fn build_query(variables: Variables) -> (r: QueryBody)
        ensures
            r.variables == variables,
            r.query@ == QUERY@,
            r.operation_name@ == OPERATION_NAME@,
    {
        QueryBody { variables, query: QUERY, operation_name: OPERATION_NAME }
    }
}

/// The payload of a structurally valid response.
pub struct ResponseData {
    pub pools: Vec<GetPoolsPools>,
}

/// The first token of a pool.
pub struct GetPoolsPoolsToken0 {
    pub symbol: String,
}

/// The second token of a pool.
pub struct GetPoolsPoolsToken1 {
    pub symbol: String,
}

/// One pool record: two token symbols, the fee tier in parts per million,
/// and the two directional prices as positive decimals.
pub struct GetPoolsPools {
    pub token0: GetPoolsPoolsToken0,
    pub token1: GetPoolsPoolsToken1,
    pub fee_ppm: u32,
    pub token0_price: Decimal,
    pub token1_price: Decimal,
}

pub type Pool = GetPoolsPools;

impl GetPoolsPools {
    /// Record invariant: both prices are positive and the fee is below the
    /// whole of the traded amount.
    pub open spec fn wf(&self) -> bool {
        &&& self.fee_ppm < FEE_DENOMINATOR
        &&& self.token0_price.wf()
        &&& self.token1_price.wf()
    }
}

/// Whether every byte is an ASCII decimal digit.
pub open spec fn all_digits(s: Seq<u8>) -> bool {
    forall|i: int| 0 <= i < s.len() ==> 48 <= #[trigger] s[i] <= 57
}

/// The number a sequence of ASCII decimal digits denotes, most significant
/// digit first.
pub open spec fn digits_number(s: Seq<u8>) -> nat
    decreases s.len(),
{
    if s.len() == 0 {
        0
    } else {
        10 * digits_number(s.subrange(0, s.len() - 1)) + (s[s.len() - 1] - 48) as nat
    }
}

/// Parse an unsigned decimal integer from ASCII bytes, as the fee tier
/// arrives from the upstream provider. Returns `None` when the input is
/// empty, holds a byte that is no digit, or denotes a number that does not
/// fit in `u64`.
pub fn parse_digits(s: &[u8]) -> (r: Option<u64>)
    ensures
        match r {
            Some(n) => all_digits(s@) && s@.len() > 0 && n as nat == digits_number(s@),
            None => s@.len() == 0 || !all_digits(s@) || digits_number(s@) > u64::MAX,
        },
{
    if s.len() == 0 {
        return None;
    }
    let mut acc: u64 = 0;
    let mut i: usize = 0;
    while i < s.len()
        invariant
            0 <= i <= s@.len(),
            all_digits(s@.subrange(0, i as int)),
            acc as nat == digits_number(s@.subrange(0, i as int)),
        decreases s@.len() - i,
    {
        let b = s[i];
        if b < 48 || b > 57 {
            proof {
                assert(s@[i as int] == b);
                assert(!all_digits(s@));
            }
            return None;
        }
        let d = (b - 48) as u64;
        if acc > (u64::MAX - d) / 10 {
            proof {
                assert(s@.subrange(0, i as int + 1).subrange(0, i as int) =~= s@.subrange(
                    0,
                    i as int,
                ));
                assert(digits_number(s@.subrange(0, i as int + 1)) == 10 * (acc as nat) + d);
                if all_digits(s@) {
                    lemma_digits_number_monotonic(s@, i as int + 1);
                }
            }
            return None;
        }
        proof {
            assert(s@.subrange(0, i as int + 1).subrange(0, i as int) =~= s@.subrange(0, i as int));
            assert(digits_number(s@.subrange(0, i as int + 1)) == 10 * (acc as nat) + d);
        }
        acc = acc * 10 + d;
        i = i + 1;
    }
    proof {
        assert(s@.subrange(0, s@.len() as int) =~= s@);
    }
    Some(acc)
}

/// Extending a digit string never shrinks the number it denotes.
proof fn lemma_digits_number_monotonic(s: Seq<u8>, k: int)
    requires
        0 <= k <= s.len(),
        all_digits(s),
    ensures
        digits_number(s.subrange(0, k)) <= digits_number(s),
    decreases s.len() - k,
{
    if k < s.len() {
        lemma_digits_number_monotonic(s, k + 1);
        let t = s.subrange(0, k + 1);
        assert(t.subrange(0, t.len() - 1) =~= s.subrange(0, k));
        assert(digits_number(s.subrange(0, k)) <= digits_number(t));
    } else {
        assert(s.subrange(0, k) =~= s);
    }
}

} // verus!
