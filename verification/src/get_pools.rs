//! The single-pair pool query: a batch of pools filtered to those touching
//! either of two tokens, ordered by liquidity.
//!
//! Only the record shapes and the request construction live here; the
//! batched fetch itself goes through [`crate::queries`].

use vstd::prelude::*;

use crate::rate::Decimal;

verus! {

/// Marker for the pair-filtered pool query.
pub struct GetPools;

pub const OPERATION_NAME: &'static str = "GetPools";

/// Query for a batch of pools with liquidity that touch either of two
/// tokens, ordered by liquidity.
pub const QUERY: &'static str = "query GetPool($fromToken: String! $toToken: String! $first: Int! $skip: Int!) {\n    pools(\n      first: 5\n      orderBy:liquidity\n      where: {\n        and: [\n          { liquidity_gt: 0 },\n        \n        {or: [\n          { token0_: { symbol:$fromToken } }\n          { token1_: { symbol:$fromToken } }\n          { token0_: { symbol:$toToken } }\n          { token1_: { symbol:$toToken } }\n        ]}\n        ]\n      }\n    ) {\n      token0 {\n        symbol\n      }\n      token1 {\n        symbol\n      }\n      feeTier\n      liquidity\n      token0Price\n      token1Price\n    }\n  }\n";

/// Variables of one pair-filtered page request.
pub struct Variables {
    pub from_token: String,
    pub to_token: String,
    pub first: i64,
    pub skip: i64,
}

/// A complete request body for the pair-filtered query.
pub struct QueryBody {
    pub variables: Variables,
    pub query: &'static str,
    pub operation_name: &'static str,
}

impl GetPools {
    /// Assemble the request body for one page of the pair-filtered query.
    pub fn build_query(variables: Variables) -> (r: QueryBody)
        ensures
            r.variables == variables,
            r.query@ == QUERY@,
            r.operation_name@ == OPERATION_NAME@,
    {
        QueryBody { variables, query: QUERY, operation_name: OPERATION_NAME }
    }
}

/// The payload of a structurally valid response.
pub struct ResponseData {
    pub pools: Vec<GetPoolsPools>,
}

/// The first token of a pool.
pub struct GetPoolsPoolsToken0 {
    pub symbol: String,
}

/// The second token of a pool.
pub struct GetPoolsPoolsToken1 {
    pub symbol: String,
}

/// One pool record of the pair-filtered query, with its liquidity.
pub struct GetPoolsPools {
    pub token0: GetPoolsPoolsToken0,
    pub token1: GetPoolsPoolsToken1,
    pub fee_ppm: u32,
    pub liquidity: u128,
    pub token0_price: Decimal,
    pub token1_price: Decimal,
}

} // verus!
