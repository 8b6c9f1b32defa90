//! Collect pool records into a directed graph of exchangeable tokens.
//!
//! Nodes are token symbols; an edge `(a, b)` carries the swap with the best
//! effective rate any record offers for the ordered pair. Route queries
//! enumerate bounded-depth simple paths and rank them by the exact product
//! of the rates along the way.

use vstd::prelude::*;
use vstd::multiset::Multiset;

use crate::queries::Pool;
use crate::rate::{
    lemma_rat_le_trans, rat_eq, rat_le, rat_lt, rat_mul, rat_one, rat_wf, effective_rate, Rate,
    RatV,
};

verus! {

/// A directed single-hop exchange: the target token symbol and the
/// effective rate, net of the pool fee.
pub struct Swap {
    /// Symbol of the token this swap yields.
    pub token: String,
    /// Units of the target token obtained per unit of the source token.
    pub rate: Rate,
}

/// The two directional swaps one pool record gives rise to.
pub struct SwapPair {
    /// The swap along `token0 -> token1`, priced by `token0_price`.
    pub swap0: Swap,
    /// The swap along `token1 -> token0`, priced by `token1_price`.
    pub swap1: Swap,
}

/// The rate a record offers along `token0 -> token1`.
pub open spec fn rate0(p: Pool) -> RatV {
    effective_rate(p.fee_ppm, p.token0_price)
}

/// The rate a record offers along `token1 -> token0`.
pub open spec fn rate1(p: Pool) -> RatV {
    effective_rate(p.fee_ppm, p.token1_price)
}

impl SwapPair {
    /// Derive the two directional swaps of a pool record, each net of the
    /// shared fee tier.
    pub fn from_pool(pool: &Pool) -> (r: SwapPair)
        requires
            pool.wf(),
        ensures
            r.swap0.token@ == pool.token1.symbol@,
            r.swap0.rate@ == rate0(*pool),
            rat_wf(r.swap0.rate@),
            r.swap1.token@ == pool.token0.symbol@,
            r.swap1.rate@ == rate1(*pool),
            rat_wf(r.swap1.rate@),
    {
        let swap0 = Swap {
            token: pool.token1.symbol.clone(),
            rate: crate::rate::rate_from_price(pool.fee_ppm, &pool.token0_price),
        };
        let swap1 = Swap {
            token: pool.token0.symbol.clone(),
            rate: crate::rate::rate_from_price(pool.fee_ppm, &pool.token1_price),
        };
        SwapPair { swap0, swap1 }
    }
}

/// A directed edge of the pool graph.
pub struct Edge {
    /// Index of the source token.
    pub from: usize,
    /// Index of the target token.
    pub to: usize,
    /// The best swap known for this ordered pair.
    pub swap: Swap,
}

/// The graph of pools: token symbols as nodes, swaps as directed edges,
/// at most one edge per ordered pair of nodes.
pub struct PoolGraph {
    /// The known token symbols; positions serve as node indices.
    pub symbols: Vec<String>,
    /// The directed edges, one per ordered pair at most.
    pub edges: Vec<Edge>,
}

impl PoolGraph {
    /// Number of nodes.
    pub open spec fn n(&self) -> int {
        self.symbols@.len() as int
    }

    /// The symbol at node index `i`.
    pub open spec fn sym(&self, i: int) -> Seq<char> {
        self.symbols@[i]@
    }

    /// Node symbols are pairwise distinct.
    pub open spec fn syms_ok(&self) -> bool {
        forall|i: int, j: int| 0 <= i < j < self.n() ==> self.sym(i) != self.sym(j)
    }

    /// An edge joins existing nodes, names its target's symbol, and its
    /// rate has a positive denominator.
    pub open spec fn edge_ok(&self, e: Edge) -> bool {
        &&& e.from < self.n()
        &&& e.to < self.n()
        &&& e.swap.token@ == self.sym(e.to as int)
        &&& rat_wf(e.swap.rate@)
    }

    /// All edges are well formed and no ordered pair occurs twice.
    pub open spec fn edges_ok(&self) -> bool {
        &&& forall|k: int| 0 <= k < self.edges@.len() ==> self.edge_ok(#[trigger] self.edges@[k])
        &&& forall|k1: int, k2: int|
            0 <= k1 < k2 < self.edges@.len() ==> !((#[trigger] self.edges@[k1]).from
                == (#[trigger] self.edges@[k2]).from && self.edges@[k1].to == self.edges@[k2].to)
    }

    /// Well-formedness of the whole graph.
    pub open spec fn wf(&self) -> bool {
        self.syms_ok() && self.edges_ok()
    }

    /// Whether an edge from node `a` to node `b` exists.
    pub open spec fn has_edge(&self, a: int, b: int) -> bool {
        exists|k: int|
            0 <= k < self.edges@.len() && (#[trigger] self.edges@[k]).from == a
                && self.edges@[k].to == b
    }

    /// The position of the edge from `a` to `b` (unique when `edges_ok`).
    pub open spec fn edge_index(&self, a: int, b: int) -> int {
        choose|k: int|
            0 <= k < self.edges@.len() && (#[trigger] self.edges@[k]).from == a
                && self.edges@[k].to == b
    }

    /// The stored rate of the edge from `a` to `b`.
    pub open spec fn edge_rate(&self, a: int, b: int) -> RatV {
        self.edges@[self.edge_index(a, b)].swap.rate@
    }

    /// Whether some node carries the symbol `s`.
    pub open spec fn has_sym(&self, s: Seq<char>) -> bool {
        exists|i: int| 0 <= i < self.n() && self.sym(i) == s
    }

    /// The node index of symbol `s` (unique when `syms_ok`).
    pub open spec fn sym_index(&self, s: Seq<char>) -> int {
        choose|i: int| 0 <= i < self.n() && self.sym(i) == s
    }

    /// Whether an edge joins the nodes of symbols `a` and `b`.
    pub open spec fn has_edge_sym(&self, a: Seq<char>, b: Seq<char>) -> bool {
        self.has_sym(a) && self.has_sym(b) && self.has_edge(self.sym_index(a), self.sym_index(b))
    }

    /// The stored rate of the edge joining the nodes of `a` and `b`.
    pub open spec fn edge_rate_sym(&self, a: Seq<char>, b: Seq<char>) -> RatV {
        self.edge_rate(self.sym_index(a), self.sym_index(b))
    }

    /// With distinct symbols, a node index is pinned by its symbol.
    pub proof fn lemma_sym_index_of(&self, i: int)
        requires
            self.syms_ok(),
            0 <= i < self.n(),
        ensures
            self.sym_index(self.sym(i)) == i,
            self.has_sym(self.sym(i)),
    {
        let s = self.sym(i);
        assert(self.has_sym(s));
        let j = self.sym_index(s);
        if i < j {
            assert(self.sym(i) != self.sym(j));
        } else if j < i {
            assert(self.sym(j) != self.sym(i));
        }
    }

    /// With no pair stored twice, an edge's position is pinned by its pair.
    pub proof fn lemma_edge_index_of(&self, k: int)
        requires
            self.edges_ok(),
            0 <= k < self.edges@.len(),
        ensures
            self.edge_index(self.edges@[k].from as int, self.edges@[k].to as int) == k,
            self.has_edge(self.edges@[k].from as int, self.edges@[k].to as int),
    {
        let a = self.edges@[k].from as int;
        let b = self.edges@[k].to as int;
        assert(self.has_edge(a, b));
        let k2 = self.edge_index(a, b);
        if k < k2 {
            assert(!(self.edges@[k].from == self.edges@[k2].from && self.edges@[k].to
                == self.edges@[k2].to));
        } else if k2 < k {
            assert(!(self.edges@[k2].from == self.edges@[k].from && self.edges@[k2].to
                == self.edges@[k].to));
        }
    }

    /// An empty graph: no tokens, no edges.
    pub fn new() -> (g: PoolGraph)
        ensures
            g.wf(),
            g.symbols@.len() == 0,
            g.edges@.len() == 0,
    {
        PoolGraph { symbols: Vec::new(), edges: Vec::new() }
    }

    /// Find the node index of a symbol, if the token is known.
    fn find_symbol(&self, sym: &String) -> (r: Option<usize>)
        ensures
            match r {
                Some(i) => 0 <= i < self.n() && self.sym(i as int) == sym@,
                None => !self.has_sym(sym@),
            },
    {
        let mut i: usize = 0;
        while i < self.symbols.len()
            invariant
                0 <= i <= self.symbols@.len(),
                forall|j: int| 0 <= j < i ==> self.sym(j) != sym@,
            decreases self.symbols@.len() - i,
        {
            if self.symbols[i] == *sym {
                return Some(i);
            }
            i = i + 1;
        }
        None
    }

    /// Find the position of the edge from `a` to `b`, if present.
    fn find_edge(&self, a: usize, b: usize) -> (r: Option<usize>)
        ensures
            match r {
                Some(k) => 0 <= k < self.edges@.len() && self.edges@[k as int].from == a
                    && self.edges@[k as int].to == b,
                None => !self.has_edge(a as int, b as int),
            },
    {
        let mut k: usize = 0;
        while k < self.edges.len()
            invariant
                0 <= k <= self.edges@.len(),
                forall|j: int|
                    0 <= j < k ==> !((#[trigger] self.edges@[j]).from == a && self.edges@[j].to
                        == b),
            decreases self.edges@.len() - k,
        {
            if self.edges[k].from == a && self.edges[k].to == b {
                return Some(k);
            }
            k = k + 1;
        }
        None
    }

    /// Add the node for a symbol unless it is already present; either way
    /// return its index. Nodes are created on first sight and never removed.
    fn ensure_node(&mut self, sym: &String) -> (ix: usize)
        requires
            old(self).wf(),
        ensures
            final(self).wf(),
            final(self).edges@ == old(self).edges@,
            ix < final(self).n(),
            final(self).sym(ix as int) == sym@,
            final(self).sym_index(sym@) == ix,
            old(self).has_sym(sym@) ==> final(self).symbols@ == old(self).symbols@,
            !old(self).has_sym(sym@) ==> final(self).n() == old(self).n() + 1 && ix as int == old(
                self,
            ).n(),
            forall|j: int| 0 <= j < old(self).n() ==> final(self).sym(j) == old(self).sym(j),
            forall|s: Seq<char>|
                #[trigger] final(self).has_sym(s) == (old(self).has_sym(s) || s == sym@),
            forall|s: Seq<char>|
                old(self).has_sym(s) ==> #[trigger] final(self).sym_index(s) == old(
                    self,
                ).sym_index(s),
            forall|x: int, y: int|
                #[trigger] final(self).has_edge(x, y) == old(self).has_edge(x, y),
            forall|x: int, y: int|
                old(self).has_edge(x, y) ==> #[trigger] final(self).edge_rate(x, y) == old(
                    self,
                ).edge_rate(x, y),
    {
        let ghost g0 = *self;
        let found = self.find_symbol(sym);
        match found {
            Some(i) => {
                proof {
                    self.lemma_sym_index_of(i as int);
                    assert(forall|s: Seq<char>| self.has_sym(s) ==> (self.has_sym(s) || s == sym@));
                    assert(*self == g0);
                }
                i
            },
            None => {
                let ix = self.symbols.len();
                let ghost prev = *self;
                self.symbols.push(sym.clone());
                proof {
                    assert(forall|j: int| 0 <= j < prev.n() ==> self.sym(j) == prev.sym(j));
                    assert(self.sym(ix as int) == sym@);
                    assert forall|i: int, j: int| 0 <= i < j < self.n() implies self.sym(i)
                        != self.sym(j) by {
                        if j < self.n() - 1 {
                            assert(prev.sym(i) != prev.sym(j));
                        } else {
                            assert(self.sym(j) == sym@);
                            if self.sym(i) == sym@ {
                                assert(prev.sym(i) == sym@);
                                assert(prev.has_sym(sym@));
                            }
                        }
                    }
                    assert(forall|k: int|
                        0 <= k < self.edges@.len() ==> self.edge_ok(#[trigger] self.edges@[k]));
                    self.lemma_sym_index_of(ix as int);
                    assert forall|s: Seq<char>| #[trigger]
                        self.has_sym(s) == (prev.has_sym(s) || s == sym@) by {
                        if prev.has_sym(s) {
                            let w = choose|i: int| 0 <= i < prev.n() && prev.sym(i) == s;
                            assert(self.sym(w) == s);
                            assert(self.has_sym(s));
                        }
                        if s == sym@ {
                            assert(self.sym(ix as int) == s);
                            assert(self.has_sym(s));
                        }
                        if self.has_sym(s) {
                            let w = choose|i: int| 0 <= i < self.n() && self.sym(i) == s;
                            if w < prev.n() {
                                assert(prev.sym(w) == s);
                                assert(prev.has_sym(s));
                            } else {
                                assert(s == sym@);
                            }
                        }
                    }
                    assert forall|s: Seq<char>| prev.has_sym(s) implies #[trigger] self.sym_index(
                        s,
                    ) == prev.sym_index(s) by {
                        let w = prev.sym_index(s);
                        assert(0 <= w < prev.n() && prev.sym(w) == s);
                        assert(self.sym(w) == s);
                        self.lemma_sym_index_of(w);
                    }
                    assert forall|x: int, y: int| #[trigger]
                        self.has_edge(x, y) == prev.has_edge(x, y) by {
                        if prev.has_edge(x, y) {
                            let w = prev.edge_index(x, y);
                            assert(self.edges@[w].from == x && self.edges@[w].to == y);
                        }
                        if self.has_edge(x, y) {
                            let w = self.edge_index(x, y);
                            assert(prev.edges@[w].from == x && prev.edges@[w].to == y);
                        }
                    }
                    assert forall|x: int, y: int| prev.has_edge(x, y) implies #[trigger]
                        self.edge_rate(x, y) == prev.edge_rate(x, y) by {
                        let w = prev.edge_index(x, y);
                        prev.lemma_edge_index_of(w);
                        self.lemma_edge_index_of(w);
                    }
                }
                ix
            },
        }
    }

    /// Insert the swap for the ordered pair `(a, b)`, or, when the pair
    /// already has an edge, keep whichever rate is higher — a new rate
    /// overwrites the stored one only when strictly greater.
    fn upsert_edge(&mut self, a: usize, b: usize, swap: Swap)
        requires
            old(self).wf(),
            a < old(self).n(),
            b < old(self).n(),
            swap.token@ == old(self).sym(b as int),
            rat_wf(swap.rate@),
        ensures
            final(self).wf(),
            final(self).symbols@ == old(self).symbols@,
            forall|x: int, y: int|
                #[trigger] final(self).has_edge(x, y) == (old(self).has_edge(x, y) || (x == a && y
                    == b)),
            final(self).edge_rate(a as int, b as int) == (if old(self).has_edge(a as int, b as int)
                && !rat_lt(old(self).edge_rate(a as int, b as int), swap.rate@) {
                old(self).edge_rate(a as int, b as int)
            } else {
                swap.rate@
            }),
            forall|x: int, y: int|
                old(self).has_edge(x, y) && !(x == a && y == b)
                    ==> #[trigger] final(self).edge_rate(x, y) == old(self).edge_rate(x, y),
            forall|s: Seq<char>| #[trigger] final(self).has_sym(s) == old(self).has_sym(s),
            forall|s: Seq<char>|
                old(self).has_sym(s) ==> #[trigger] final(self).sym_index(s) == old(
                    self,
                ).sym_index(s),
    {
        let found = self.find_edge(a, b);
        let ghost prev = *self;
        match found {
            Some(k) => {
                proof {
                    self.lemma_edge_index_of(k as int);
                }
                if self.edges[k].swap.rate.lt(&swap.rate) {
                    self.edges[k] = Edge { from: a, to: b, swap };
                    proof {
                        lemma_upsert_replaced(prev, *self, a, b, k as int);
                    }
                } else {
                    proof {
                        assert(*self == prev);
                        assert forall|x: int, y: int| #[trigger]
                            self.has_edge(x, y) == (prev.has_edge(x, y) || (x == a && y == b)) by {
                            if x == a && y == b {
                                assert(prev.has_edge(a as int, b as int));
                            }
                        }
                    }
                }
            },
            None => {
                self.edges.push(Edge { from: a, to: b, swap });
                proof {
                    lemma_upsert_pushed(prev, *self, a, b);
                }
            },
        }
        proof {
            lemma_same_symbols(prev, *self);
        }
    }
}

/// Two graphs with the same symbol vector agree on every symbol-level
/// node question.
proof fn lemma_same_symbols(g1: PoolGraph, g2: PoolGraph)
    requires
        g1.syms_ok(),
        g2.symbols@ == g1.symbols@,
    ensures
        forall|s: Seq<char>| #[trigger] g2.has_sym(s) == g1.has_sym(s),
        forall|s: Seq<char>| g1.has_sym(s) ==> #[trigger] g2.sym_index(s) == g1.sym_index(s),
{
    assert(g2.n() == g1.n());
    assert(forall|i: int| 0 <= i < g1.n() ==> g2.sym(i) == g1.sym(i));
    assert forall|s: Seq<char>| #[trigger] g2.has_sym(s) == g1.has_sym(s) by {
        if g1.has_sym(s) {
            let w = g1.sym_index(s);
            assert(g2.sym(w) == s);
        }
        if g2.has_sym(s) {
            let w = g2.sym_index(s);
            assert(g1.sym(w) == s);
        }
    }
    assert forall|s: Seq<char>| g1.has_sym(s) implies #[trigger] g2.sym_index(s) == g1.sym_index(
        s,
    ) by {
        let w = g1.sym_index(s);
        assert(0 <= w < g1.n() && g1.sym(w) == s);
        assert(g2.sym(w) == s);
        g2.lemma_sym_index_of(w);
    }
}

/// After replacing the edge at position `k` with a higher-rate swap for the
/// same ordered pair, the graph stays well formed, that pair's rate is the
/// new one, and every other pair is untouched.
proof fn lemma_upsert_replaced(prev: PoolGraph, cur: PoolGraph, a: usize, b: usize, k: int)
    requires
        prev.wf(),
        0 <= k < prev.edges@.len(),
        prev.edges@[k].from == a,
        prev.edges@[k].to == b,
        cur.symbols@ == prev.symbols@,
        cur.edges@ == prev.edges@.update(
            k,
            Edge { from: a, to: b, swap: cur.edges@[k].swap },
        ),
        cur.edges@[k].from == a,
        cur.edges@[k].to == b,
        a < prev.n(),
        b < prev.n(),
        cur.edges@[k].swap.token@ == prev.sym(b as int),
        rat_wf(cur.edges@[k].swap.rate@),
    ensures
        cur.wf(),
        forall|x: int, y: int|
            #[trigger] cur.has_edge(x, y) == (prev.has_edge(x, y) || (x == a && y == b)),
        cur.edge_rate(a as int, b as int) == cur.edges@[k].swap.rate@,
        forall|x: int, y: int|
            prev.has_edge(x, y) && !(x == a && y == b) ==> #[trigger] cur.edge_rate(x, y)
                == prev.edge_rate(x, y),
{
    assert(cur.n() == prev.n());
    assert(forall|i: int| 0 <= i < cur.n() ==> cur.sym(i) == prev.sym(i));
    assert(cur.syms_ok());
    assert(cur.edges@.len() == prev.edges@.len());
    assert(forall|j: int|
        0 <= j < cur.edges@.len() && j != k ==> cur.edges@[j] == prev.edges@[j]);
    assert forall|j: int| 0 <= j < cur.edges@.len() implies cur.edge_ok(
        #[trigger] cur.edges@[j],
    ) by {
        if j != k {
            assert(prev.edge_ok(prev.edges@[j]));
        }
    }
    assert forall|k1: int, k2: int| 0 <= k1 < k2 < cur.edges@.len() implies !((
    #[trigger] cur.edges@[k1]).from == (#[trigger] cur.edges@[k2]).from && cur.edges@[k1].to
        == cur.edges@[k2].to) by {
        assert(prev.edges@[k1].from == cur.edges@[k1].from && prev.edges@[k1].to
            == cur.edges@[k1].to);
        assert(prev.edges@[k2].from == cur.edges@[k2].from && prev.edges@[k2].to
            == cur.edges@[k2].to);
    }
    assert forall|x: int, y: int| #[trigger]
        cur.has_edge(x, y) == (prev.has_edge(x, y) || (x == a && y == b)) by {
        if prev.has_edge(x, y) {
            let w = prev.edge_index(x, y);
            assert(cur.edges@[w].from == x && cur.edges@[w].to == y);
            assert(cur.has_edge(x, y));
        }
        if x == a && y == b {
            assert(cur.edges@[k].from == x && cur.edges@[k].to == y);
            assert(cur.has_edge(x, y));
        }
        if cur.has_edge(x, y) {
            let w = cur.edge_index(x, y);
            assert(prev.edges@[w].from == x && prev.edges@[w].to == y);
            assert(prev.has_edge(x, y));
        }
    }
    cur.lemma_edge_index_of(k);
    assert(cur.edge_rate(a as int, b as int) == cur.edges@[k].swap.rate@);
    assert forall|x: int, y: int|
        prev.has_edge(x, y) && !(x == a && y == b) implies #[trigger] cur.edge_rate(x, y)
        == prev.edge_rate(x, y) by {
        let w = prev.edge_index(x, y);
        prev.lemma_edge_index_of(w);
        assert(w != k);
        assert(cur.edges@[w] == prev.edges@[w]);
        cur.lemma_edge_index_of(w);
    }
}

/// After appending an edge for a pair that had none, the graph stays well
/// formed, the new pair's rate is the pushed one, and every other pair is
/// untouched.
proof fn lemma_upsert_pushed(prev: PoolGraph, cur: PoolGraph, a: usize, b: usize)
    requires
        prev.wf(),
        !prev.has_edge(a as int, b as int),
        cur.symbols@ == prev.symbols@,
        cur.edges@ == prev.edges@.push(cur.edges@[cur.edges@.len() - 1]),
        cur.edges@[cur.edges@.len() - 1].from == a,
        cur.edges@[cur.edges@.len() - 1].to == b,
        a < prev.n(),
        b < prev.n(),
        cur.edges@[cur.edges@.len() - 1].swap.token@ == prev.sym(b as int),
        rat_wf(cur.edges@[cur.edges@.len() - 1].swap.rate@),
    ensures
        cur.wf(),
        forall|x: int, y: int|
            #[trigger] cur.has_edge(x, y) == (prev.has_edge(x, y) || (x == a && y == b)),
        cur.edge_rate(a as int, b as int) == cur.edges@[cur.edges@.len() - 1].swap.rate@,
        forall|x: int, y: int|
            prev.has_edge(x, y) && !(x == a && y == b) ==> #[trigger] cur.edge_rate(x, y)
                == prev.edge_rate(x, y),
{
    let m = cur.edges@.len() - 1;
    assert(cur.n() == prev.n());
    assert(forall|i: int| 0 <= i < cur.n() ==> cur.sym(i) == prev.sym(i));
    assert(cur.syms_ok());
    assert(cur.edges@.len() == prev.edges@.len() + 1);
    assert(forall|j: int| 0 <= j < m ==> cur.edges@[j] == prev.edges@[j]);
    assert forall|j: int| 0 <= j < cur.edges@.len() implies cur.edge_ok(
        #[trigger] cur.edges@[j],
    ) by {
        if j < m {
            assert(prev.edge_ok(prev.edges@[j]));
        }
    }
    assert forall|k1: int, k2: int| 0 <= k1 < k2 < cur.edges@.len() implies !((
    #[trigger] cur.edges@[k1]).from == (#[trigger] cur.edges@[k2]).from && cur.edges@[k1].to
        == cur.edges@[k2].to) by {
        if k2 < m {
            assert(prev.edges@[k1].from == cur.edges@[k1].from);
        } else {
            if cur.edges@[k1].from == a && cur.edges@[k1].to == b {
                assert(prev.edges@[k1].from == a && prev.edges@[k1].to == b);
                assert(prev.has_edge(a as int, b as int));
            }
        }
    }
    assert forall|x: int, y: int| #[trigger]
        cur.has_edge(x, y) == (prev.has_edge(x, y) || (x == a && y == b)) by {
        if prev.has_edge(x, y) {
            let w = prev.edge_index(x, y);
            assert(cur.edges@[w].from == x && cur.edges@[w].to == y);
            assert(cur.has_edge(x, y));
        }
        if x == a && y == b {
            assert(cur.edges@[m].from == x && cur.edges@[m].to == y);
            assert(cur.has_edge(x, y));
        }
        if cur.has_edge(x, y) {
            let w = cur.edge_index(x, y);
            if w < m {
                assert(prev.edges@[w].from == x && prev.edges@[w].to == y);
                assert(prev.has_edge(x, y));
            }
        }
    }
    cur.lemma_edge_index_of(m);
    assert forall|x: int, y: int|
        prev.has_edge(x, y) && !(x == a && y == b) implies #[trigger] cur.edge_rate(x, y)
        == prev.edge_rate(x, y) by {
        let w = prev.edge_index(x, y);
        prev.lemma_edge_index_of(w);
        assert(cur.edges@[w] == prev.edges@[w]);
        cur.lemma_edge_index_of(w);
    }
}

/// Whether record `p` has symbol `s` as either endpoint.
pub open spec fn mentions(p: Pool, s: Seq<char>) -> bool {
    p.token0.symbol@ == s || p.token1.symbol@ == s
}

/// Whether record `p` offers rate `r` along the ordered pair `(a, b)`.
pub open spec fn offers(p: Pool, a: Seq<char>, b: Seq<char>, r: RatV) -> bool {
    (p.token0.symbol@ == a && p.token1.symbol@ == b && r == rate0(p)) || (p.token1.symbol@ == a
        && p.token0.symbol@ == b && r == rate1(p))
}

/// `best` is one of the rates the records offer along `(a, b)` and no
/// record offers a higher one.
pub open spec fn best_rate(records: Seq<Pool>, a: Seq<char>, b: Seq<char>, best: RatV) -> bool {
    &&& exists|i: int, r: RatV|
        0 <= i < records.len() && #[trigger] offers(records[i], a, b, r) && r == best
    &&& forall|i: int, r: RatV|
        0 <= i < records.len() && #[trigger] offers(records[i], a, b, r) ==> rat_le(r, best)
}

/// The graph a batch of records describes: a node for exactly the symbols
/// the records mention, an edge for exactly the ordered pairs some record
/// offers, and on each edge one of the offered rates with no offer above
/// it. This pins the graph up to node order and rate representation — in
/// particular independently of the order of the records.
pub open spec fn models(g: PoolGraph, records: Seq<Pool>) -> bool {
    &&& g.wf()
    &&& forall|s: Seq<char>|
        #[trigger] g.has_sym(s) <==> exists|i: int|
            0 <= i < records.len() && mentions(#[trigger] records[i], s)
    &&& forall|a: Seq<char>, b: Seq<char>|
        #[trigger] g.has_edge_sym(a, b) <==> exists|i: int, r: RatV|
            0 <= i < records.len() && #[trigger] offers(records[i], a, b, r)
    &&& forall|a: Seq<char>, b: Seq<char>|
        #[trigger] g.has_edge_sym(a, b) ==> best_rate(records, a, b, g.edge_rate_sym(a, b))
}

/// The effective rate of a well-formed record is well formed.
proof fn lemma_effective_wf(fee_ppm: u32, d: crate::rate::Decimal)
    requires
        d.wf(),
    ensures
        rat_wf(effective_rate(fee_ppm, d)),
{
    assert((crate::rate::FEE_DENOMINATOR as nat) * d.mantissa > 0) by (nonlinear_arith)
        requires
            d.mantissa > 0,
    ;
}

/// Every rate a well-formed record offers is well formed.
proof fn lemma_offer_wf(p: Pool, a: Seq<char>, b: Seq<char>, r: RatV)
    requires
        p.wf(),
        offers(p, a, b, r),
    ensures
        rat_wf(r),
{
    lemma_effective_wf(p.fee_ppm, p.token0_price);
    lemma_effective_wf(p.fee_ppm, p.token1_price);
}

impl PoolGraph {
    /// Build the pool graph from a batch of records: derive both
    /// directional swaps of every record, create endpoint nodes on first
    /// sight, and merge parallel offers for an ordered pair by keeping the
    /// swap with the strictly higher rate. The resulting node set, edge set
    /// and rates do not depend on the order of the records.
    pub fn from_records(records: &Vec<Pool>) -> (g: PoolGraph)
        requires
            forall|i: int| 0 <= i < records@.len() ==> (#[trigger] records@[i]).wf(),
        ensures
            models(g, records@),
    {
        let mut g = PoolGraph::new();
        proof {
            assert(forall|s: Seq<char>| !g.has_sym(s));
            assert(forall|x: Seq<char>, y: Seq<char>| !g.has_edge_sym(x, y));
            assert(records@.subrange(0, 0).len() == 0);
        }
        let mut idx: usize = 0;
        while idx < records.len()
            invariant
                forall|i: int| 0 <= i < records@.len() ==> (#[trigger] records@[i]).wf(),
                idx <= records@.len(),
                models(g, records@.subrange(0, idx as int)),
            decreases records@.len() - idx,
        {
            let ghost rs0 = records@.subrange(0, idx as int);
            let ghost rs1 = records@.subrange(0, idx as int + 1);
            let ghost g0 = g;
            let p = &records[idx];
            let ghost pp = records@[idx as int];
            let ghost s0 = pp.token0.symbol@;
            let ghost s1 = pp.token1.symbol@;
            let ghost r0 = rate0(pp);
            let ghost r1 = rate1(pp);
            let pair = SwapPair::from_pool(p);
            let a = g.ensure_node(&p.token0.symbol);
            let ghost g_a = g;
            let b = g.ensure_node(&p.token1.symbol);
            let ghost g_b = g;
            g.upsert_edge(a, b, pair.swap0);
            let ghost g_c = g;
            g.upsert_edge(b, a, pair.swap1);
            proof {
                lemma_build_step(g0, g_a, g_b, g_c, g, rs0, rs1, pp, a, b);
            }
            idx = idx + 1;
        }
        proof {
            assert(records@.subrange(0, records@.len() as int) =~= records@);
        }
        g
    }
}

/// One fold step of the construction: after deriving the two directional
/// swaps of record `pp`, ensuring both endpoint nodes and upserting both
/// edges, a graph that modelled the records seen so far models them with
/// `pp` appended.
proof fn lemma_build_step(
    g0: PoolGraph,
    g_a: PoolGraph,
    g_b: PoolGraph,
    g_c: PoolGraph,
    g: PoolGraph,
    rs0: Seq<Pool>,
    rs1: Seq<Pool>,
    pp: Pool,
    a: usize,
    b: usize,
)
    requires
        pp.wf(),
        forall|i: int| 0 <= i < rs0.len() ==> (#[trigger] rs0[i]).wf(),
        models(g0, rs0),
        rs1.len() == rs0.len() + 1,
        rs1[rs1.len() - 1] == pp,
        forall|i: int| 0 <= i < rs0.len() ==> rs1[i] == rs0[i],
        // ensure_node(token0) took g0 to g_a
        g_a.wf(),
        g_a.edges@ == g0.edges@,
        a < g_a.n(),
        g_a.sym(a as int) == pp.token0.symbol@,
        g_a.sym_index(pp.token0.symbol@) == a,
        !g0.has_sym(pp.token0.symbol@) ==> a as int == g0.n(),
        forall|j: int| 0 <= j < g0.n() ==> g_a.sym(j) == g0.sym(j),
        forall|s: Seq<char>| #[trigger] g_a.has_sym(s) == (g0.has_sym(s) || s == pp.token0.symbol@),
        forall|s: Seq<char>| g0.has_sym(s) ==> #[trigger] g_a.sym_index(s) == g0.sym_index(s),
        forall|x: int, y: int| #[trigger] g_a.has_edge(x, y) == g0.has_edge(x, y),
        forall|x: int, y: int|
            g0.has_edge(x, y) ==> #[trigger] g_a.edge_rate(x, y) == g0.edge_rate(x, y),
        // ensure_node(token1) took g_a to g_b
        g_b.wf(),
        g_b.edges@ == g_a.edges@,
        b < g_b.n(),
        g_b.sym(b as int) == pp.token1.symbol@,
        g_b.sym_index(pp.token1.symbol@) == b,
        !g_a.has_sym(pp.token1.symbol@) ==> b as int == g_a.n(),
        forall|j: int| 0 <= j < g_a.n() ==> g_b.sym(j) == g_a.sym(j),
        forall|s: Seq<char>| #[trigger] g_b.has_sym(s) == (g_a.has_sym(s) || s == pp.token1.symbol@),
        forall|s: Seq<char>| g_a.has_sym(s) ==> #[trigger] g_b.sym_index(s) == g_a.sym_index(s),
        forall|x: int, y: int| #[trigger] g_b.has_edge(x, y) == g_a.has_edge(x, y),
        forall|x: int, y: int|
            g_a.has_edge(x, y) ==> #[trigger] g_b.edge_rate(x, y) == g_a.edge_rate(x, y),
        // upsert_edge(a, b, swap0) took g_b to g_c
        g_c.wf(),
        g_c.symbols@ == g_b.symbols@,
        forall|x: int, y: int|
            #[trigger] g_c.has_edge(x, y) == (g_b.has_edge(x, y) || (x == a && y == b)),
        g_c.edge_rate(a as int, b as int) == (if g_b.has_edge(a as int, b as int) && !rat_lt(
            g_b.edge_rate(a as int, b as int),
            rate0(pp),
        ) {
            g_b.edge_rate(a as int, b as int)
        } else {
            rate0(pp)
        }),
        forall|x: int, y: int|
            g_b.has_edge(x, y) && !(x == a && y == b) ==> #[trigger] g_c.edge_rate(x, y)
                == g_b.edge_rate(x, y),
        forall|s: Seq<char>| #[trigger] g_c.has_sym(s) == g_b.has_sym(s),
        forall|s: Seq<char>|
            g_b.has_sym(s) ==> #[trigger] g_c.sym_index(s) == g_b.sym_index(s),
        // upsert_edge(b, a, swap1) took g_c to g
        g.wf(),
        g.symbols@ == g_c.symbols@,
        forall|x: int, y: int|
            #[trigger] g.has_edge(x, y) == (g_c.has_edge(x, y) || (x == b && y == a)),
        g.edge_rate(b as int, a as int) == (if g_c.has_edge(b as int, a as int) && !rat_lt(
            g_c.edge_rate(b as int, a as int),
            rate1(pp),
        ) {
            g_c.edge_rate(b as int, a as int)
        } else {
            rate1(pp)
        }),
        forall|x: int, y: int|
            g_c.has_edge(x, y) && !(x == b && y == a) ==> #[trigger] g.edge_rate(x, y)
                == g_c.edge_rate(x, y),
        forall|s: Seq<char>| #[trigger] g.has_sym(s) == g_c.has_sym(s),
        forall|s: Seq<char>| g_c.has_sym(s) ==> #[trigger] g.sym_index(s) == g_c.sym_index(s),
    ensures
        models(g, rs1),
{
    let s0 = pp.token0.symbol@;
    let s1 = pp.token1.symbol@;
    let r0 = rate0(pp);
    let r1 = rate1(pp);
    let idx = rs0.len() as int;
    lemma_effective_wf(pp.fee_ppm, pp.token0_price);
    lemma_effective_wf(pp.fee_ppm, pp.token1_price);
    assert(rat_wf(r0) && rat_wf(r1));

    // Symbol-index bookkeeping across the four steps.
    assert(g_b.sym_index(s0) == a);
    assert(g_c.sym_index(s0) == a && g_c.sym_index(s1) == b);
    assert(g.sym_index(s0) == a && g.sym_index(s1) == b);
    assert(g.has_sym(s0) && g.has_sym(s1));
    assert(g.sym(a as int) == s0 && g.sym(b as int) == s1);
    assert(a == b <==> s0 == s1);

    // The symbols are exactly those the records mention.
    assert forall|s: Seq<char>| #[trigger]
        g.has_sym(s) <==> exists|i: int| 0 <= i < rs1.len() && mentions(#[trigger] rs1[i], s) by {
        assert(g.has_sym(s) == (g0.has_sym(s) || s == s0 || s == s1));
        if g.has_sym(s) {
            if g0.has_sym(s) {
                let i = choose|i: int| 0 <= i < rs0.len() && mentions(#[trigger] rs0[i], s);
                assert(mentions(rs1[i], s));
            } else {
                assert(mentions(rs1[idx], s));
            }
        }
        if exists|i: int| 0 <= i < rs1.len() && mentions(#[trigger] rs1[i], s) {
            let i = choose|i: int| 0 <= i < rs1.len() && mentions(#[trigger] rs1[i], s);
            if i < idx {
                assert(mentions(rs0[i], s));
                assert(g0.has_sym(s));
            } else {
                assert(mentions(pp, s));
            }
        }
    }

    // Edges exist exactly for the offered ordered pairs.
    assert forall|x: Seq<char>, y: Seq<char>| #[trigger]
        g.has_edge_sym(x, y) <==> exists|i: int, r: RatV|
            0 <= i < rs1.len() && #[trigger] offers(rs1[i], x, y, r) by {
        if exists|i: int, r: RatV| 0 <= i < rs1.len() && #[trigger] offers(rs1[i], x, y, r) {
            let (i, r) = choose|i: int, r: RatV|
                0 <= i < rs1.len() && #[trigger] offers(rs1[i], x, y, r);
            if i < idx {
                assert(offers(rs0[i], x, y, r));
                assert(g0.has_edge_sym(x, y));
                let ix = g0.sym_index(x);
                let iy = g0.sym_index(y);
                assert(g0.has_edge(ix, iy));
                assert(g.has_edge(ix, iy));
                assert(g.sym_index(x) == ix && g.sym_index(y) == iy);
                assert(g.has_edge_sym(x, y));
            } else {
                assert(offers(pp, x, y, r));
                if x == s0 && y == s1 && r == r0 {
                    assert(g_c.has_edge(a as int, b as int));
                    assert(g.has_edge(a as int, b as int));
                    assert(g.has_edge_sym(x, y));
                } else {
                    assert(x == s1 && y == s0 && r == r1);
                    assert(g.has_edge(b as int, a as int));
                    assert(g.has_edge_sym(x, y));
                }
            }
        }
        if g.has_edge_sym(x, y) {
            let ix = g.sym_index(x);
            let iy = g.sym_index(y);
            assert(g.has_edge(ix, iy));
            assert(g.sym(ix) == x && g.sym(iy) == y);
            if ix == a && iy == b {
                assert(x == s0 && y == s1);
                assert(offers(rs1[idx], x, y, r0));
            } else if ix == b && iy == a {
                assert(x == s1 && y == s0);
                assert(offers(rs1[idx], x, y, r1));
            } else {
                assert(g_b.has_edge(ix, iy));
                assert(g0.has_edge(ix, iy));
                let k = g0.edge_index(ix, iy);
                g0.lemma_edge_index_of(k);
                assert(g0.edge_ok(g0.edges@[k]));
                assert(ix < g0.n() && iy < g0.n());
                assert(g0.sym(ix) == x && g0.sym(iy) == y);
                assert(g0.has_sym(x) && g0.has_sym(y));
                g0.lemma_sym_index_of(ix);
                g0.lemma_sym_index_of(iy);
                assert(g0.has_edge_sym(x, y));
                let (i, r) = choose|i: int, r: RatV|
                    0 <= i < rs0.len() && #[trigger] offers(rs0[i], x, y, r);
                assert(offers(rs1[i], x, y, r));
            }
        }
    }

    // Each stored rate is one of the offered rates, with no offer above it.
    assert forall|x: Seq<char>, y: Seq<char>| #[trigger] g.has_edge_sym(x, y) implies best_rate(
        rs1,
        x,
        y,
        g.edge_rate_sym(x, y),
    ) by {
        let ix = g.sym_index(x);
        let iy = g.sym_index(y);
        assert(g.has_edge(ix, iy));
        assert(g.sym(ix) == x && g.sym(iy) == y);
        let stored = g.edge_rate_sym(x, y);
        assert(stored == g.edge_rate(ix, iy));
        if ix == a as int && iy == b as int && a != b {
            assert(x == s0 && y == s1 && s0 != s1);
            assert(g_c.has_edge(a as int, b as int));
            assert(g.edge_rate(a as int, b as int) == g_c.edge_rate(a as int, b as int));
            let had = g_b.has_edge(a as int, b as int);
            let old_rate = g_b.edge_rate(a as int, b as int);
            lemma_old_pair_facts(g0, g_a, g_b, rs0, x, y, a, b);
            assert(forall|r: RatV| offers(pp, x, y, r) ==> r == r0);
            assert(stored == (if had && !rat_lt(old_rate, r0) {
                old_rate
            } else {
                r0
            }));
            lemma_best_extend_one(rs0, rs1, pp, x, y, r0, had, old_rate, stored);
        } else if ix == b as int && iy == a as int && a != b {
            assert(x == s1 && y == s0 && s0 != s1);
            let had = g_b.has_edge(b as int, a as int);
            let old_rate = g_b.edge_rate(b as int, a as int);
            assert(g_c.has_edge(b as int, a as int) == had);
            assert(had ==> g_c.edge_rate(b as int, a as int) == old_rate);
            lemma_old_pair_facts(g0, g_a, g_b, rs0, x, y, b, a);
            assert(forall|r: RatV| offers(pp, x, y, r) ==> r == r1);
            assert(stored == (if had && !rat_lt(old_rate, r1) {
                old_rate
            } else {
                r1
            }));
            lemma_best_extend_one(rs0, rs1, pp, x, y, r1, had, old_rate, stored);
        } else if ix == a as int && iy == a as int && a == b {
            assert(x == s0 && y == s1 && s0 == s1);
            let had = g_b.has_edge(a as int, a as int);
            let old_rate = g_b.edge_rate(a as int, a as int);
            let mid = g_c.edge_rate(a as int, a as int);
            assert(g_c.has_edge(a as int, a as int));
            assert(mid == (if had && !rat_lt(old_rate, r0) {
                old_rate
            } else {
                r0
            }));
            assert(stored == (if !rat_lt(mid, r1) {
                mid
            } else {
                r1
            }));
            lemma_old_pair_facts(g0, g_a, g_b, rs0, x, y, a, a);
            assert(forall|r: RatV| offers(pp, x, x, r) ==> r == r0 || r == r1);
            lemma_best_extend_two(rs0, rs1, pp, x, r0, r1, had, old_rate, mid, stored);
        } else {
            assert(!(ix == a && iy == b) && !(ix == b && iy == a));
            assert(g.edge_rate(ix, iy) == g_c.edge_rate(ix, iy));
            assert(g_c.has_edge(ix, iy) && g_b.has_edge(ix, iy));
            assert(g_c.edge_rate(ix, iy) == g_b.edge_rate(ix, iy));
            assert(g0.has_edge(ix, iy));
            assert(g_b.edge_rate(ix, iy) == g0.edge_rate(ix, iy));
            let k = g0.edge_index(ix, iy);
            g0.lemma_edge_index_of(k);
            assert(ix < g0.n() && iy < g0.n());
            assert(g0.sym(ix) == x && g0.sym(iy) == y);
            g0.lemma_sym_index_of(ix);
            g0.lemma_sym_index_of(iy);
            assert(g0.has_edge_sym(x, y));
            assert(g0.edge_rate_sym(x, y) == stored);
            assert(best_rate(rs0, x, y, stored));
            let (i, r) = choose|i: int, r: RatV|
                0 <= i < rs0.len() && #[trigger] offers(rs0[i], x, y, r) && r == stored;
            assert(offers(rs1[i], x, y, r) && r == stored);
            assert forall|i2: int, r2: RatV|
                0 <= i2 < rs1.len() && #[trigger] offers(rs1[i2], x, y, r2) implies rat_le(
                r2,
                stored,
            ) by {
                if i2 < idx {
                    assert(offers(rs0[i2], x, y, r2));
                } else {
                    assert(offers(pp, x, y, r2));
                    if x == s0 && y == s1 {
                        assert(g.sym_index(s0) == a && g.sym_index(s1) == b);
                        assert(false);
                    } else {
                        assert(x == s1 && y == s0);
                        assert(false);
                    }
                }
            }
        }
    }
}

/// Relate a pair's edge in the graph before a record is folded in to the
/// model of the records seen so far: if the edge exists its rate is the
/// best of the old offers, and if not, there were no old offers.
proof fn lemma_old_pair_facts(
    g0: PoolGraph,
    g_a: PoolGraph,
    g_b: PoolGraph,
    rs0: Seq<Pool>,
    x: Seq<char>,
    y: Seq<char>,
    ia: usize,
    ib: usize,
)
    requires
        models(g0, rs0),
        g_a.wf(),
        g_b.wf(),
        g_a.edges@ == g0.edges@,
        g_b.edges@ == g_a.edges@,
        forall|j: int| 0 <= j < g0.n() ==> g_a.sym(j) == g0.sym(j),
        forall|j: int| 0 <= j < g_a.n() ==> g_b.sym(j) == g_a.sym(j),
        forall|s: Seq<char>| g0.has_sym(s) ==> #[trigger] g_a.sym_index(s) == g0.sym_index(s),
        forall|s: Seq<char>| g_a.has_sym(s) ==> #[trigger] g_b.sym_index(s) == g_a.sym_index(s),
        forall|x2: int, y2: int| #[trigger] g_a.has_edge(x2, y2) == g0.has_edge(x2, y2),
        forall|x2: int, y2: int| #[trigger] g_b.has_edge(x2, y2) == g_a.has_edge(x2, y2),
        forall|x2: int, y2: int|
            g0.has_edge(x2, y2) ==> #[trigger] g_a.edge_rate(x2, y2) == g0.edge_rate(x2, y2),
        forall|x2: int, y2: int|
            g_a.has_edge(x2, y2) ==> #[trigger] g_b.edge_rate(x2, y2) == g_a.edge_rate(x2, y2),
        ia < g_b.n(),
        ib < g_b.n(),
        g_b.sym(ia as int) == x,
        g_b.sym(ib as int) == y,
        g_b.sym_index(x) == ia,
        g_b.sym_index(y) == ib,
    ensures
        g_b.has_edge(ia as int, ib as int) ==> best_rate(
            rs0,
            x,
            y,
            g_b.edge_rate(ia as int, ib as int),
        ) && rat_wf(g_b.edge_rate(ia as int, ib as int)),
        !g_b.has_edge(ia as int, ib as int) ==> (forall|i: int, r: RatV|
            0 <= i < rs0.len() ==> !(#[trigger] offers(rs0[i], x, y, r))),
{
    if g_b.has_edge(ia as int, ib as int) {
        assert(g0.has_edge(ia as int, ib as int));
        let k = g0.edge_index(ia as int, ib as int);
        g0.lemma_edge_index_of(k);
        assert(g0.edge_ok(g0.edges@[k]));
        assert(ia < g0.n() && ib < g0.n());
        assert(g0.sym(ia as int) == x && g0.sym(ib as int) == y);
        assert(g0.has_sym(x) && g0.has_sym(y));
        g0.lemma_sym_index_of(ia as int);
        g0.lemma_sym_index_of(ib as int);
        assert(g0.has_edge_sym(x, y));
        assert(g0.edge_rate_sym(x, y) == g0.edge_rate(ia as int, ib as int));
        assert(g_b.edge_rate(ia as int, ib as int) == g0.edge_rate(ia as int, ib as int));
        assert(rat_wf(g0.edges@[k].swap.rate@));
        assert(best_rate(rs0, x, y, g_b.edge_rate(ia as int, ib as int)));
    } else {
        assert forall|i: int, r: RatV| 0 <= i < rs0.len() implies !(#[trigger] offers(
            rs0[i],
            x,
            y,
            r,
        )) by {
            if offers(rs0[i], x, y, r) {
                assert(g0.has_edge_sym(x, y));
                assert(g0.has_sym(x) && g0.has_sym(y));
                let jx = g0.sym_index(x);
                let jy = g0.sym_index(y);
                assert(0 <= jx < g0.n() && g0.sym(jx) == x);
                assert(0 <= jy < g0.n() && g0.sym(jy) == y);
                assert(g_b.sym(jx) == x && g_b.sym(jy) == y);
                g_b.lemma_sym_index_of(jx);
                g_b.lemma_sym_index_of(jy);
                assert(jx == ia as int && jy == ib as int);
                assert(g0.has_edge(ia as int, ib as int));
                assert(g_b.has_edge(ia as int, ib as int));
            }
        }
    }
}

/// Folding one more record into a batch keeps the best-rate property of an
/// ordered pair the record offers exactly one rate for: the stored rate
/// becomes the higher of the old best and the new offer.
proof fn lemma_best_extend_one(
    rs0: Seq<Pool>,
    rs1: Seq<Pool>,
    pp: Pool,
    x: Seq<char>,
    y: Seq<char>,
    offered: RatV,
    had: bool,
    old_rate: RatV,
    stored: RatV,
)
    requires
        rs1.len() == rs0.len() + 1,
        rs1[rs1.len() - 1] == pp,
        forall|i: int| 0 <= i < rs0.len() ==> rs1[i] == rs0[i],
        forall|i: int| 0 <= i < rs0.len() ==> (#[trigger] rs0[i]).wf(),
        offers(pp, x, y, offered),
        forall|r: RatV| offers(pp, x, y, r) ==> r == offered,
        rat_wf(offered),
        had ==> best_rate(rs0, x, y, old_rate) && rat_wf(old_rate),
        !had ==> (forall|i: int, r: RatV|
            0 <= i < rs0.len() ==> !(#[trigger] offers(rs0[i], x, y, r))),
        stored == (if had && !rat_lt(old_rate, offered) {
            old_rate
        } else {
            offered
        }),
    ensures
        best_rate(rs1, x, y, stored),
{
    let idx = rs0.len() as int;
    if had && !rat_lt(old_rate, offered) {
        let (i, r) = choose|i: int, r: RatV|
            0 <= i < rs0.len() && #[trigger] offers(rs0[i], x, y, r) && r == old_rate;
        assert(offers(rs1[i], x, y, r) && r == stored);
    } else {
        assert(offers(rs1[idx], x, y, offered) && offered == stored);
    }
    assert forall|i: int, r: RatV|
        0 <= i < rs1.len() && #[trigger] offers(rs1[i], x, y, r) implies rat_le(r, stored) by {
        if i < idx {
            assert(offers(rs0[i], x, y, r));
            assert(had);
            assert(rat_le(r, old_rate));
            lemma_offer_wf(rs0[i], x, y, r);
            if rat_lt(old_rate, offered) {
                assert(rat_le(old_rate, offered));
                lemma_rat_le_trans(r, old_rate, offered);
                assert(stored == offered);
            } else {
                assert(stored == old_rate);
            }
        } else {
            assert(offers(pp, x, y, r));
            assert(r == offered);
            if had && !rat_lt(old_rate, offered) {
                assert(rat_le(offered, old_rate));
            }
        }
    }
}

/// Folding one more record into a batch keeps the best-rate property of an
/// ordered pair the record offers two rates for (a pool whose two symbols
/// coincide): both offers are merged in turn.
proof fn lemma_best_extend_two(
    rs0: Seq<Pool>,
    rs1: Seq<Pool>,
    pp: Pool,
    x: Seq<char>,
    r_first: RatV,
    r_second: RatV,
    had: bool,
    old_rate: RatV,
    mid: RatV,
    stored: RatV,
)
    requires
        rs1.len() == rs0.len() + 1,
        rs1[rs1.len() - 1] == pp,
        forall|i: int| 0 <= i < rs0.len() ==> rs1[i] == rs0[i],
        forall|i: int| 0 <= i < rs0.len() ==> (#[trigger] rs0[i]).wf(),
        offers(pp, x, x, r_first),
        offers(pp, x, x, r_second),
        forall|r: RatV| offers(pp, x, x, r) ==> r == r_first || r == r_second,
        rat_wf(r_first),
        rat_wf(r_second),
        had ==> best_rate(rs0, x, x, old_rate) && rat_wf(old_rate),
        !had ==> (forall|i: int, r: RatV|
            0 <= i < rs0.len() ==> !(#[trigger] offers(rs0[i], x, x, r))),
        mid == (if had && !rat_lt(old_rate, r_first) {
            old_rate
        } else {
            r_first
        }),
        stored == (if !rat_lt(mid, r_second) {
            mid
        } else {
            r_second
        }),
    ensures
        best_rate(rs1, x, x, stored),
{
    let idx = rs0.len() as int;
    assert(rat_wf(mid));
    // The stored rate is one of the offers.
    if !rat_lt(mid, r_second) {
        if had && !rat_lt(old_rate, r_first) {
            let (i, r) = choose|i: int, r: RatV|
                0 <= i < rs0.len() && #[trigger] offers(rs0[i], x, x, r) && r == old_rate;
            assert(offers(rs1[i], x, x, r) && r == stored);
        } else {
            assert(offers(rs1[idx], x, x, r_first) && r_first == stored);
        }
    } else {
        assert(offers(rs1[idx], x, x, r_second) && r_second == stored);
    }
    // No offer exceeds it.
    assert(rat_le(mid, stored));
    assert(rat_le(r_first, mid));
    assert forall|i: int, r: RatV|
        0 <= i < rs1.len() && #[trigger] offers(rs1[i], x, x, r) implies rat_le(r, stored) by {
        if i < idx {
            assert(offers(rs0[i], x, x, r));
            assert(had);
            assert(rat_le(r, old_rate));
            lemma_offer_wf(rs0[i], x, x, r);
            assert(rat_le(old_rate, mid));
            lemma_rat_le_trans(r, old_rate, mid);
            lemma_rat_le_trans(r, mid, stored);
        } else {
            assert(offers(pp, x, x, r));
            if r == r_first {
                lemma_rat_le_trans(r_first, mid, stored);
            } else {
                assert(r == r_second);
                assert(rat_le(r_second, stored));
            }
        }
    }
}

/// A node-index path that may still be extended: at least the source node,
/// all indices in range, consecutive edges present, no node repeated, and
/// the target nowhere but possibly at the front (the source and the target
/// may coincide, in which case only cycles back to it count as routes).
spec fn prefix_ok(g: PoolGraph, p: Seq<usize>, target: usize) -> bool {
    &&& p.len() >= 1
    &&& forall|j: int| 0 <= j < p.len() ==> (#[trigger] p[j]) < g.symbols@.len()
    &&& forall|j: int|
        0 <= j < p.len() - 1 ==> #[trigger] g.has_edge(p[j] as int, p[j + 1] as int)
    &&& forall|i: int, j: int| 0 <= i < j < p.len() ==> p[i] != p[j]
    &&& forall|j: int| 1 <= j < p.len() ==> (#[trigger] p[j]) != target
}

/// `q` completes the path `prefix` into a route to `target` using at most
/// `room` further nodes: the appended nodes hop along edges, are fresh and
/// avoid the target until the last one, which is the target. A search that
/// starts at the target itself only accepts cycles through at least one
/// other node, never the bare self-edge hop.
spec fn is_completion(
    g: PoolGraph,
    prefix: Seq<usize>,
    target: usize,
    room: int,
    q: Seq<usize>,
) -> bool {
    &&& q.len() > prefix.len()
    &&& q.len() <= prefix.len() + room
    &&& q.subrange(0, prefix.len() as int) == prefix
    &&& q[q.len() - 1] == target
    &&& forall|j: int| prefix.len() <= j < q.len() ==> (#[trigger] q[j]) < g.symbols@.len()
    &&& forall|j: int|
        prefix.len() - 1 <= j < q.len() - 1 ==> #[trigger] g.has_edge(q[j] as int, q[j + 1] as int)
    &&& forall|j: int| prefix.len() <= j < q.len() - 1 ==> (#[trigger] q[j]) != target
    &&& forall|i: int, j: int| 0 <= i < j < q.len() - 1 && prefix.len() <= j ==> q[i] != q[j]
    &&& (prefix.len() == 1 && prefix[0] == target ==> q.len() >= 3)
}

/// A completion whose first appended node is the target is the one-hop
/// completion `prefix + [target]`.
proof fn lemma_completion_at_target(
    g: PoolGraph,
    prefix: Seq<usize>,
    target: usize,
    room: int,
    q: Seq<usize>,
)
    requires
        is_completion(g, prefix, target, room, q),
        q[prefix.len() as int] == target,
    ensures
        q == prefix.push(target),
{
    let plen = prefix.len() as int;
    if q.len() - 1 > plen {
        assert(q[plen] != target);
        assert(false);
    }
    assert(q.len() == plen + 1);
    assert forall|i: int| 0 <= i < q.len() implies q[i] == prefix.push(target)[i] by {
        if i < plen {
            assert(q.subrange(0, plen)[i] == q[i]);
        }
    }
    assert(q =~= prefix.push(target));
}

/// Completions of `prefix + [v]` with one node of room less are exactly the
/// completions of `prefix` whose first appended node is `v`, for a fresh,
/// reachable `v` other than the target.
proof fn lemma_completion_push(
    g: PoolGraph,
    prefix: Seq<usize>,
    v: usize,
    target: usize,
    room: int,
    q: Seq<usize>,
)
    requires
        prefix.len() >= 1,
        room >= 2,
        v != target,
        v < g.symbols@.len(),
        g.has_edge(prefix[prefix.len() - 1] as int, v as int),
        !prefix.contains(v),
    ensures
        is_completion(g, prefix.push(v), target, room - 1, q) <==> (is_completion(
            g,
            prefix,
            target,
            room,
            q,
        ) && q[prefix.len() as int] == v),
{
    let plen = prefix.len() as int;
    let p2 = prefix.push(v);
    assert(p2.len() == plen + 1);
    assert(forall|i: int| 0 <= i < plen ==> p2[i] == prefix[i]);
    assert(p2[plen] == v);
    if is_completion(g, p2, target, room - 1, q) {
        assert(q.subrange(0, plen + 1) == p2);
        assert forall|i: int| 0 <= i < plen implies q.subrange(0, plen)[i] == prefix[i] by {
            assert(q.subrange(0, plen + 1)[i] == q[i]);
            assert(q.subrange(0, plen)[i] == q[i]);
        }
        assert(q.subrange(0, plen) =~= prefix);
        assert(q[plen] == q.subrange(0, plen + 1)[plen]);
        assert(q[plen] == v);
        assert(q.len() > plen);
        assert(q.len() <= plen + room);
        assert forall|j: int| plen <= j < q.len() implies (#[trigger] q[j]) < g.symbols@.len() by {
            if j > plen {
                assert(q[j] < g.symbols@.len());
            }
        }
        assert forall|j: int|
            plen - 1 <= j < q.len() - 1 implies #[trigger] g.has_edge(
            q[j] as int,
            q[j + 1] as int,
        ) by {
            if j == plen - 1 {
                if q.len() - 1 == plen {
                    assert(g.has_edge(p2[plen - 1] as int, p2[plen] as int)) by {
                        assert(prefix[plen - 1] == p2[plen - 1]);
                    }
                    assert(q[plen - 1] == prefix[plen - 1]);
                } else {
                    assert(q[plen - 1] == prefix[plen - 1]);
                    assert(g.has_edge(prefix[plen - 1] as int, v as int));
                }
            }
        }
        assert forall|j: int| plen <= j < q.len() - 1 implies (#[trigger] q[j]) != target by {
            if j == plen {
                assert(q[j] == v);
            }
        }
        assert forall|i: int, j: int|
            0 <= i < j < q.len() - 1 && plen <= j implies q[i] != q[j] by {
            if j == plen {
                assert(q[j] == v);
                assert(q[i] == prefix[i]);
                assert(prefix.contains(prefix[i]));
            }
        }
        assert(q.len() >= plen + 2);
        assert(is_completion(g, prefix, target, room, q) && q[plen] == v);
    }
    if is_completion(g, prefix, target, room, q) && q[plen] == v {
        assert(q.len() - 1 != plen) by {
            assert(q[q.len() - 1] == target);
        }
        assert(q.len() > plen + 1);
        assert(q.len() <= plen + 1 + (room - 1));
        assert forall|i: int| 0 <= i < plen + 1 implies q.subrange(0, plen + 1)[i] == p2[i] by {
            if i < plen {
                assert(q.subrange(0, plen)[i] == q[i]);
            }
        }
        assert(q.subrange(0, plen + 1) =~= p2);
        assert(is_completion(g, p2, target, room - 1, q));
    }
}

/// Whether some edge among the first `e` has source `last` and the target
/// that `q` appends first.
spec fn first_hop_scanned(
    g: PoolGraph,
    q: Seq<usize>,
    plen: int,
    last: usize,
    e: int,
) -> bool {
    exists|m: int|
        0 <= m < e && (#[trigger] g.edges@[m]).from == last && g.edges@[m].to == q[plen]
}

/// An exact copy of a vector of node indices.
fn copy_indices(v: &Vec<usize>) -> (r: Vec<usize>)
    ensures
        r@ == v@,
{
    let mut r: Vec<usize> = Vec::new();
    let mut i: usize = 0;
    while i < v.len()
        invariant
            i <= v@.len(),
            r@ == v@.subrange(0, i as int),
        decreases v@.len() - i,
    {
        r.push(v[i]);
        proof {
            assert(r@ =~= v@.subrange(0, i as int + 1));
        }
        i = i + 1;
    }
    proof {
        assert(v@.subrange(0, v@.len() as int) =~= v@);
    }
    r
}

/// Whether a vector of node indices holds `x`.
fn contains_ix(v: &Vec<usize>, x: usize) -> (r: bool)
    ensures
        r == v@.contains(x),
{
    let mut i: usize = 0;
    while i < v.len()
        invariant
            i <= v@.len(),
            forall|j: int| 0 <= j < i ==> v@[j] != x,
        decreases v@.len() - i,
    {
        if v[i] == x {
            return true;
        }
        i = i + 1;
    }
    false
}

impl PoolGraph {
    /// Depth-first enumeration of every completion of `path` into a simple
    /// route to `target` that appends at most `room` nodes: whenever a
    /// neighbor of the last node is the target the completed route is
    /// emitted, and each fresh non-target neighbor is explored with one
    /// node of room less. Exactly the completions are appended to `out`.
    fn dfs_routes(&self, target: usize, room: usize, path: &mut Vec<usize>, out: &mut Vec<Vec<usize>>)
        requires
            self.wf(),
            target < self.symbols@.len(),
            room >= 1,
            prefix_ok(*self, old(path)@, target),
        ensures
            final(path)@ == old(path)@,
            final(out)@.len() >= old(out)@.len(),
            forall|k: int| 0 <= k < old(out)@.len() ==> final(out)@[k] == old(out)@[k],
            forall|k: int|
                old(out)@.len() <= k < final(out)@.len() ==> is_completion(
                    *self,
                    old(path)@,
                    target,
                    room as int,
                    (#[trigger] final(out)@[k])@,
                ),
            forall|q: Seq<usize>|
                is_completion(*self, old(path)@, target, room as int, q) ==> exists|k: int|
                    old(out)@.len() <= k < final(out)@.len() && (#[trigger] final(out)@[k])@ == q,
            forall|k1: int, k2: int|
                old(out)@.len() <= k1 < k2 < final(out)@.len()
                    ==> (#[trigger] final(out)@[k1])@ != (#[trigger] final(out)@[k2])@,
        decreases room,
    {
        let last = path[path.len() - 1];
        let ghost prefix = path@;
        let ghost out0 = out@;
        let ghost plen = prefix.len() as int;
        let mut e: usize = 0;
        while e < self.edges.len()
            invariant
                self.wf(),
                target < self.symbols@.len(),
                room >= 1,
                prefix_ok(*self, prefix, target),
                path@ == prefix,
                plen == prefix.len() as int,
                last == prefix[plen - 1],
                e <= self.edges@.len(),
                out@.len() >= out0.len(),
                forall|k: int| 0 <= k < out0.len() ==> out@[k] == out0[k],
                forall|k: int|
                    out0.len() <= k < out@.len() ==> is_completion(
                        *self,
                        prefix,
                        target,
                        room as int,
                        (#[trigger] out@[k])@,
                    ),
                forall|q: Seq<usize>|
                    is_completion(*self, prefix, target, room as int, q) && first_hop_scanned(
                        *self,
                        q,
                        plen,
                        last,
                        e as int,
                    ) ==> exists|k: int|
                        out0.len() <= k < out@.len() && (#[trigger] out@[k])@ == q,
                forall|k: int|
                    out0.len() <= k < out@.len() ==> first_hop_scanned(
                        *self,
                        (#[trigger] out@[k])@,
                        plen,
                        last,
                        e as int,
                    ),
                forall|k1: int, k2: int|
                    out0.len() <= k1 < k2 < out@.len() ==> (#[trigger] out@[k1])@ != (
                    #[trigger] out@[k2])@,
            decreases self.edges@.len() - e,
        {
            let ghost out_before = out@;
            if self.edges[e].from == last {
                let v = self.edges[e].to;
                proof {
                    self.lemma_edge_index_of(e as int);
                    assert(self.edge_ok(self.edges@[e as int]));
                    assert(self.has_edge(last as int, v as int));
                }
                if v == target {
                    if path.len() == 1 && last == target {
                        // The bare self-edge hop back to the start is no
                        // route; only cycles through other tokens count.
                        proof {
                            assert forall|q2: Seq<usize>|
                                is_completion(*self, prefix, target, room as int, q2)
                                    && first_hop_scanned(*self, q2, plen, last, e as int + 1) implies
                                exists|k: int|
                                    out0.len() <= k < out@.len() && (#[trigger] out@[k])@ == q2 by {
                                if first_hop_scanned(*self, q2, plen, last, e as int) {
                                } else {
                                    let m = choose|m: int|
                                        0 <= m < e as int + 1 && (#[trigger] self.edges@[m]).from
                                            == last && self.edges@[m].to == q2[plen];
                                    assert(m == e as int);
                                    assert(q2[plen] == target);
                                    lemma_completion_at_target(
                                        *self,
                                        prefix,
                                        target,
                                        room as int,
                                        q2,
                                    );
                                    assert(q2.len() == 2);
                                    assert(prefix.len() == 1 && prefix[0] == target);
                                    assert(false);
                                }
                            }
                            assert forall|k: int|
                                out0.len() <= k < out@.len() implies first_hop_scanned(
                                *self,
                                (#[trigger] out@[k])@,
                                plen,
                                last,
                                e as int + 1,
                            ) by {
                                let m = choose|m: int|
                                    0 <= m < e as int && (#[trigger] self.edges@[m]).from == last
                                        && self.edges@[m].to == (out@[k]@)[plen];
                                assert(0 <= m < e as int + 1);
                            }
                        }
                    } else {
                    let mut q = copy_indices(path);
                    q.push(v);
                    let ghost qv = q@;
                    out.push(q);
                    proof {
                        assert(qv =~= prefix.push(target));
                        assert(qv.subrange(0, plen) =~= prefix);
                        assert(is_completion(*self, prefix, target, room as int, qv));
                        assert forall|q2: Seq<usize>|
                            is_completion(*self, prefix, target, room as int, q2)
                                && first_hop_scanned(*self, q2, plen, last, e as int + 1) implies
                            exists|k: int|
                                out0.len() <= k < out@.len() && (#[trigger] out@[k])@ == q2 by {
                            if first_hop_scanned(*self, q2, plen, last, e as int) {
                                let k = choose|k: int|
                                    out0.len() <= k < out_before.len() && (#[trigger] out_before[k])@
                                        == q2;
                                assert(out@[k]@ == q2);
                            } else {
                                let m = choose|m: int|
                                    0 <= m < e as int + 1 && (#[trigger] self.edges@[m]).from == last
                                        && self.edges@[m].to == q2[plen];
                                assert(m == e as int);
                                assert(q2[plen] == target);
                                lemma_completion_at_target(
                                    *self,
                                    prefix,
                                    target,
                                    room as int,
                                    q2,
                                );
                                assert(q2 =~= qv);
                                assert(out@[out@.len() - 1]@ == q2);
                            }
                        }
                        assert(qv[plen] == target);
                        assert forall|k: int|
                            out0.len() <= k < out@.len() implies first_hop_scanned(
                            *self,
                            (#[trigger] out@[k])@,
                            plen,
                            last,
                            e as int + 1,
                        ) by {
                            if k < out@.len() - 1 {
                                let m = choose|m: int|
                                    0 <= m < e as int && (#[trigger] self.edges@[m]).from == last
                                        && self.edges@[m].to == (out_before[k]@)[plen];
                                assert((out@[k])@ == out_before[k]@);
                                assert(0 <= m < e as int + 1 && self.edges@[m].from == last
                                    && self.edges@[m].to == (out@[k]@)[plen]);
                            } else {
                                assert((out@[k])@ == qv);
                                assert(self.edges@[e as int].from == last
                                    && self.edges@[e as int].to == qv[plen]);
                            }
                        }
                        assert forall|k1: int, k2: int|
                            out0.len() <= k1 < k2 < out@.len() implies (#[trigger] out@[k1])@ != (
                        #[trigger] out@[k2])@ by {
                            if k2 == out@.len() - 1 {
                                let m = choose|m: int|
                                    0 <= m < e as int && (#[trigger] self.edges@[m]).from == last
                                        && self.edges@[m].to == (out_before[k1]@)[plen];
                                assert(!(self.edges@[m].from == self.edges@[e as int].from
                                    && self.edges@[m].to == self.edges@[e as int].to));
                                assert((out@[k1]@)[plen] != qv[plen]);
                            }
                        }
                    }
                    }
                } else {
                    let may = room >= 2 && !contains_ix(path, v);
                    if may {
                        path.push(v);
                        proof {
                            assert(path@ =~= prefix.push(v));
                            assert forall|j: int|
                                0 <= j < path@.len() implies (#[trigger] path@[j])
                                < self.symbols@.len() by {
                                if j < plen {
                                    assert(path@[j] == prefix[j]);
                                }
                            }
                            assert forall|j: int|
                                0 <= j < path@.len() - 1 implies #[trigger] self.has_edge(
                                path@[j] as int,
                                path@[j + 1] as int,
                            ) by {
                                if j < plen - 1 {
                                    assert(path@[j] == prefix[j] && path@[j + 1] == prefix[j + 1]);
                                } else {
                                    assert(path@[j] == last && path@[j + 1] == v);
                                }
                            }
                            assert forall|i: int, j: int|
                                0 <= i < j < path@.len() implies path@[i] != path@[j] by {
                                if j < plen {
                                } else {
                                    assert(path@[j] == v);
                                    if i < plen {
                                        assert(path@[i] == prefix[i]);
                                        assert(prefix.contains(prefix[i]));
                                    }
                                }
                            }
                            assert forall|j: int|
                                1 <= j < path@.len() implies (#[trigger] path@[j]) != target by {
                                if j < plen {
                                    assert(path@[j] == prefix[j]);
                                }
                            }
                            assert(prefix_ok(*self, path@, target));
                        }
                        let ghost mid_out = out@;
                        self.dfs_routes(target, room - 1, path, out);
                        path.pop();
                        proof {
                            assert(path@ =~= prefix);
                            assert forall|k: int|
                                out0.len() <= k < out@.len() implies is_completion(
                                *self,
                                prefix,
                                target,
                                room as int,
                                (#[trigger] out@[k])@,
                            ) by {
                                if k < mid_out.len() {
                                    assert(out@[k] == out_before[k]);
                                } else {
                                    assert(is_completion(
                                        *self,
                                        prefix.push(v),
                                        target,
                                        room as int - 1,
                                        out@[k]@,
                                    ));
                                    lemma_completion_push(
                                        *self,
                                        prefix,
                                        v,
                                        target,
                                        room as int,
                                        out@[k]@,
                                    );
                                }
                            }
                            assert forall|q2: Seq<usize>|
                                is_completion(*self, prefix, target, room as int, q2)
                                    && first_hop_scanned(*self, q2, plen, last, e as int + 1) implies
                                exists|k: int|
                                    out0.len() <= k < out@.len() && (#[trigger] out@[k])@ == q2 by {
                                if first_hop_scanned(*self, q2, plen, last, e as int) {
                                    let k = choose|k: int|
                                        out0.len() <= k < out_before.len() && (
                                        #[trigger] out_before[k])@ == q2;
                                    assert(out@[k]@ == q2);
                                } else {
                                    let m = choose|m: int|
                                        0 <= m < e as int + 1 && (#[trigger] self.edges@[m]).from
                                            == last && self.edges@[m].to == q2[plen];
                                    assert(m == e as int);
                                    assert(q2[plen] == v);
                                    lemma_completion_push(
                                        *self,
                                        prefix,
                                        v,
                                        target,
                                        room as int,
                                        q2,
                                    );
                                    assert(is_completion(
                                        *self,
                                        prefix.push(v),
                                        target,
                                        room as int - 1,
                                        q2,
                                    ));
                                    let k = choose|k: int|
                                        mid_out.len() <= k < out@.len() && (#[trigger] out@[k])@
                                            == q2;
                                    assert(out@[k]@ == q2);
                                }
                            }
                            assert forall|k: int|
                                mid_out.len() <= k < out@.len() implies ((#[trigger] out@[k])@)[plen]
                                == v by {
                                let q3 = out@[k]@;
                                assert(is_completion(
                                    *self,
                                    prefix.push(v),
                                    target,
                                    room as int - 1,
                                    q3,
                                ));
                                assert(q3[plen] == q3.subrange(0, plen + 1)[plen]);
                                assert(q3.subrange(0, plen + 1) == prefix.push(v));
                                assert(prefix.push(v)[plen] == v);
                            }
                            assert forall|k: int|
                                out0.len() <= k < out@.len() implies first_hop_scanned(
                                *self,
                                (#[trigger] out@[k])@,
                                plen,
                                last,
                                e as int + 1,
                            ) by {
                                if k < mid_out.len() {
                                    let m = choose|m: int|
                                        0 <= m < e as int && (#[trigger] self.edges@[m]).from
                                            == last && self.edges@[m].to == (out_before[k]@)[plen];
                                    assert((out@[k])@ == out_before[k]@);
                                    assert(0 <= m < e as int + 1 && self.edges@[m].from == last
                                        && self.edges@[m].to == (out@[k]@)[plen]);
                                } else {
                                    assert((out@[k]@)[plen] == v);
                                    assert(self.edges@[e as int].from == last
                                        && self.edges@[e as int].to == v);
                                }
                            }
                            assert forall|k1: int, k2: int|
                                out0.len() <= k1 < k2 < out@.len() implies (#[trigger] out@[k1])@
                                != (#[trigger] out@[k2])@ by {
                                if k2 < mid_out.len() {
                                } else if k1 >= mid_out.len() {
                                } else {
                                    let m = choose|m: int|
                                        0 <= m < e as int && (#[trigger] self.edges@[m]).from
                                            == last && self.edges@[m].to == (out_before[k1]@)[plen];
                                    assert(!(self.edges@[m].from == self.edges@[e as int].from
                                        && self.edges@[m].to == self.edges@[e as int].to));
                                    assert((out@[k1]@)[plen] != v);
                                    assert((out@[k2]@)[plen] == v);
                                }
                            }
                        }
                    } else {
                        proof {
                            assert forall|q2: Seq<usize>|
                                is_completion(*self, prefix, target, room as int, q2)
                                    && first_hop_scanned(*self, q2, plen, last, e as int + 1) implies
                                exists|k: int|
                                    out0.len() <= k < out@.len() && (#[trigger] out@[k])@ == q2 by {
                                if first_hop_scanned(*self, q2, plen, last, e as int) {
                                } else {
                                    let m = choose|m: int|
                                        0 <= m < e as int + 1 && (#[trigger] self.edges@[m]).from
                                            == last && self.edges@[m].to == q2[plen];
                                    assert(m == e as int);
                                    assert(q2[plen] == v);
                                    if q2.len() - 1 == plen {
                                        assert(q2[q2.len() - 1] == target);
                                        assert(false);
                                    }
                                    assert(q2[plen] != target);
                                    if room < 2 {
                                        assert(q2.len() <= plen + 1);
                                        assert(false);
                                    }
                                    assert(path@.contains(v));
                                    let i = choose|i: int| 0 <= i < plen && prefix[i] == v;
                                    assert(q2.subrange(0, plen)[i] == prefix[i]);
                                    assert(q2[i] == v);
                                    assert(q2[i] == q2[plen]);
                                    assert(false);
                                }
                            }
                            assert forall|k: int|
                                out0.len() <= k < out@.len() implies first_hop_scanned(
                                *self,
                                (#[trigger] out@[k])@,
                                plen,
                                last,
                                e as int + 1,
                            ) by {
                                let m = choose|m: int|
                                    0 <= m < e as int && (#[trigger] self.edges@[m]).from == last
                                        && self.edges@[m].to == (out@[k]@)[plen];
                                assert(0 <= m < e as int + 1);
                            }
                        }
                    }
                }
            } else {
                proof {
                    assert forall|q2: Seq<usize>|
                        is_completion(*self, prefix, target, room as int, q2) && first_hop_scanned(
                            *self,
                            q2,
                            plen,
                            last,
                            e as int + 1,
                        ) implies exists|k: int|
                            out0.len() <= k < out@.len() && (#[trigger] out@[k])@ == q2 by {
                        let m = choose|m: int|
                            0 <= m < e as int + 1 && (#[trigger] self.edges@[m]).from == last
                                && self.edges@[m].to == q2[plen];
                        assert(m < e as int);
                    }
                    assert forall|k: int|
                        out0.len() <= k < out@.len() implies first_hop_scanned(
                        *self,
                        (#[trigger] out@[k])@,
                        plen,
                        last,
                        e as int + 1,
                    ) by {
                        let m = choose|m: int|
                            0 <= m < e as int && (#[trigger] self.edges@[m]).from == last
                                && self.edges@[m].to == (out@[k]@)[plen];
                        assert(0 <= m < e as int + 1);
                    }
                }
            }
            e = e + 1;
        }
        proof {
            assert forall|q: Seq<usize>|
                is_completion(*self, prefix, target, room as int, q) implies exists|k: int|
                    out0.len() <= k < out@.len() && (#[trigger] out@[k])@ == q by {
                assert(self.has_edge(q[plen - 1] as int, q[plen - 1 + 1] as int));
                assert(self.has_edge(q[plen - 1] as int, q[plen] as int));
                assert(q[plen - 1] == q.subrange(0, plen)[plen - 1]);
                assert(q[plen - 1] == last);
                let m = choose|m: int|
                    0 <= m < self.edges@.len() && (#[trigger] self.edges@[m]).from == last as int
                        && self.edges@[m].to == q[plen] as int;
                assert(first_hop_scanned(*self, q, plen, last, e as int));
            }
        }
    }
}

/// The compounded score of an index path: the product of the stored rates
/// of its hops; the empty product is one.
spec fn path_score(g: PoolGraph, p: Seq<usize>) -> RatV
    decreases p.len(),
{
    if p.len() < 2 {
        rat_one()
    } else {
        rat_mul(g.edge_rate(p[0] as int, p[1] as int), path_score(g, p.drop_first()))
    }
}

/// The symbols along an index path.
spec fn path_syms(g: PoolGraph, p: Seq<usize>) -> Seq<Seq<char>> {
    Seq::new(p.len(), |i: int| g.sym(p[i] as int))
}

/// The view of a vector of symbol strings.
pub open spec fn strings_view(v: Seq<String>) -> Seq<Seq<char>> {
    Seq::new(v.len(), |i: int| v[i]@)
}

/// A route at the symbol level: at least one hop, at most `k` intermediate
/// tokens, from `x` to `y` along existing edges, and no token visited
/// twice — except that the endpoints may coincide, which makes the route a
/// cycle through at least one distinct other token; the one-hop route from
/// a token back to itself over a self-edge is no route.
pub open spec fn valid_route(
    g: PoolGraph,
    route: Seq<Seq<char>>,
    x: Seq<char>,
    y: Seq<char>,
    k: nat,
) -> bool {
    &&& route.len() >= 2
    &&& route.len() <= k + 2
    &&& (route[0] == route[route.len() - 1] ==> route.len() >= 3)
    &&& route[0] == x
    &&& route[route.len() - 1] == y
    &&& forall|i: int| 0 <= i < route.len() ==> g.has_sym(#[trigger] route[i])
    &&& forall|i: int|
        0 <= i < route.len() - 1 ==> #[trigger] g.has_edge_sym(route[i], route[i + 1])
    &&& forall|i: int, j: int| 1 <= i < j < route.len() ==> route[i] != route[j]
    &&& forall|j: int| 1 <= j < route.len() - 1 ==> (#[trigger] route[j]) != route[0]
}

/// The compounded score of a symbol route: the product of the stored rates
/// of its hops; the empty product is one.
pub open spec fn route_score(g: PoolGraph, route: Seq<Seq<char>>) -> RatV
    decreases route.len(),
{
    if route.len() < 2 {
        rat_one()
    } else {
        rat_mul(g.edge_rate_sym(route[0], route[1]), route_score(g, route.drop_first()))
    }
}

/// The symbol-level score of an index path equals its index-level score.
proof fn lemma_score_map(g: PoolGraph, p: Seq<usize>)
    requires
        g.wf(),
        forall|j: int| 0 <= j < p.len() ==> (#[trigger] p[j]) < g.symbols@.len(),
        forall|j: int| 0 <= j < p.len() - 1 ==> #[trigger] g.has_edge(p[j] as int, p[j + 1] as int),
    ensures
        route_score(g, path_syms(g, p)) == path_score(g, p),
    decreases p.len(),
{
    let m = path_syms(g, p);
    if p.len() < 2 {
        assert(m.len() < 2);
    } else {
        g.lemma_sym_index_of(p[0] as int);
        g.lemma_sym_index_of(p[1] as int);
        assert(g.edge_rate_sym(m[0], m[1]) == g.edge_rate(p[0] as int, p[1] as int));
        assert(path_syms(g, p.drop_first()) =~= m.drop_first());
        lemma_score_map(g, p.drop_first());
    }
}

/// A completion of the one-node path `[s]` is, at the symbol level, a
/// valid route from `s`'s symbol to the target's symbol, with the same
/// score.
proof fn lemma_completion_route(g: PoolGraph, s: usize, t: usize, k: nat, q: Seq<usize>)
    requires
        g.wf(),
        s < g.symbols@.len(),
        t < g.symbols@.len(),
        is_completion(g, seq![s], t, k as int + 1, q),
    ensures
        valid_route(g, path_syms(g, q), g.sym(s as int), g.sym(t as int), k),
        route_score(g, path_syms(g, q)) == path_score(g, q),
{
    let m = path_syms(g, q);
    assert(q.subrange(0, 1) == seq![s]);
    assert(q[0] == q.subrange(0, 1)[0]);
    assert(q[0] == s);
    assert(q[q.len() - 1] == t);
    assert(m.len() == q.len());
    assert(2 <= m.len() <= k + 2);
    assert(m[0] == g.sym(s as int));
    assert(m[m.len() - 1] == g.sym(t as int));
    assert forall|j: int| 0 <= j < q.len() implies (#[trigger] q[j]) < g.symbols@.len() by {
        if j == 0 {
        }
    }
    assert forall|i: int| 0 <= i < m.len() implies g.has_sym(#[trigger] m[i]) by {
        g.lemma_sym_index_of(q[i] as int);
    }
    assert forall|i: int|
        0 <= i < m.len() - 1 implies #[trigger] g.has_edge_sym(m[i], m[i + 1]) by {
        g.lemma_sym_index_of(q[i] as int);
        g.lemma_sym_index_of(q[i + 1] as int);
        assert(g.has_edge(q[i] as int, q[i + 1] as int));
    }
    assert forall|i: int, j: int| 1 <= i < j < m.len() implies m[i] != m[j] by {
        if j < m.len() - 1 {
            assert(q[i] != q[j]);
        } else {
            assert(q[i] != t) by {
                if i < q.len() - 1 {
                    assert(q[i] != t);
                }
            }
        }
        g.lemma_sym_index_of(q[i] as int);
        g.lemma_sym_index_of(q[j] as int);
    }
    assert forall|j: int| 1 <= j < m.len() - 1 implies (#[trigger] m[j]) != m[0] by {
        assert(q[j] != q[0]);
        g.lemma_sym_index_of(q[j] as int);
        g.lemma_sym_index_of(q[0] as int);
    }
    if m[0] == m[m.len() - 1] {
        assert(g.sym(s as int) == g.sym(t as int));
        if s < t {
            assert(g.sym(s as int) != g.sym(t as int));
        } else if t < s {
            assert(g.sym(t as int) != g.sym(s as int));
        }
        assert(s == t);
        assert(seq![s].len() == 1 && seq![s][0] == t);
        assert(q.len() >= 3);
    }
    lemma_score_map(g, q);
}

/// A valid symbol route corresponds to a completion of the one-node path
/// of its source, namely its node-index form.
proof fn lemma_route_completion(
    g: PoolGraph,
    route: Seq<Seq<char>>,
    x: Seq<char>,
    y: Seq<char>,
    k: nat,
    s: usize,
    t: usize,
)
    requires
        g.wf(),
        valid_route(g, route, x, y, k),
        s < g.symbols@.len(),
        t < g.symbols@.len(),
        g.symbols@.len() <= usize::MAX,
        g.sym(s as int) == x,
        g.sym(t as int) == y,
    ensures
        is_completion(
            g,
            seq![s],
            t,
            k as int + 1,
            Seq::new(route.len(), |i: int| g.sym_index(route[i]) as usize),
        ),
        path_syms(g, Seq::new(route.len(), |i: int| g.sym_index(route[i]) as usize)) == route,
{
    let q = Seq::new(route.len(), |i: int| g.sym_index(route[i]) as usize);
    g.lemma_sym_index_of(s as int);
    g.lemma_sym_index_of(t as int);
    assert forall|i: int| 0 <= i < q.len() implies 0 <= (#[trigger] q[i]) < g.symbols@.len()
        && g.sym(q[i] as int) == route[i] by {
        assert(g.has_sym(route[i]));
        let w = g.sym_index(route[i]);
        assert(0 <= w < g.n() && g.sym(w) == route[i]);
        assert(q[i] == w as usize);
    }
    assert(q[0] == s);
    assert(q[q.len() - 1] == t);
    assert(q.subrange(0, 1) =~= seq![s]);
    assert forall|j: int|
        0 <= j < q.len() - 1 implies #[trigger] g.has_edge(q[j] as int, q[j + 1] as int) by {
        assert(g.has_edge_sym(route[j], route[j + 1]));
        assert(g.sym_index(route[j]) == q[j] as int);
        assert(g.sym_index(route[j + 1]) == q[j + 1] as int);
    }
    assert forall|j: int| 1 <= j < q.len() - 1 implies (#[trigger] q[j]) != t by {
        assert(route[j] != route[0] && route[j] != route[route.len() - 1]) by {
            assert(1 <= j < route.len());
        }
        assert(g.sym(q[j] as int) == route[j]);
        assert(g.sym(t as int) == route[route.len() - 1]);
    }
    assert forall|i: int, j: int| 0 <= i < j < q.len() - 1 && 1 <= j implies q[i] != q[j] by {
        if i == 0 {
            assert(route[j] != route[0]);
        } else {
            assert(route[i] != route[j]);
        }
        assert(g.sym(q[i] as int) == route[i] && g.sym(q[j] as int) == route[j]);
    }
    if s == t {
        assert(route[0] == x && route[route.len() - 1] == y);
        assert(x == y);
        assert(route.len() >= 3);
        assert(q.len() >= 3);
    }
    assert(is_completion(g, seq![s], t, k as int + 1, q));
    assert(path_syms(g, q) =~= route);
}


/// With distinct node symbols, the symbols along a path pin the path.
proof fn lemma_path_syms_inj(g: PoolGraph, q1: Seq<usize>, q2: Seq<usize>)
    requires
        g.syms_ok(),
        forall|j: int| 0 <= j < q1.len() ==> (#[trigger] q1[j]) < g.symbols@.len(),
        forall|j: int| 0 <= j < q2.len() ==> (#[trigger] q2[j]) < g.symbols@.len(),
        path_syms(g, q1) == path_syms(g, q2),
    ensures
        q1 == q2,
{
    assert(path_syms(g, q1).len() == q1.len());
    assert(path_syms(g, q2).len() == q2.len());
    assert(q1.len() == q2.len());
    assert forall|j: int| 0 <= j < q1.len() implies q1[j] == q2[j] by {
        assert(path_syms(g, q1)[j] == path_syms(g, q2)[j]);
        assert(g.sym(q1[j] as int) == g.sym(q2[j] as int));
        if q1[j] != q2[j] {
            if q1[j] < q2[j] {
                assert(g.sym(q1[j] as int) != g.sym(q2[j] as int));
            } else {
                assert(g.sym(q2[j] as int) != g.sym(q1[j] as int));
            }
        }
    }
    assert(q1 =~= q2);
}

/// A ranked route: the token symbols along the way and the compounded
/// exchange rate of taking every hop in turn.
pub struct RankedRoute {
    /// The tokens of the route, source first, destination last.
    pub route: Vec<String>,
    /// The product of the hop rates.
    pub score: Rate,
}

impl RankedRoute {
    /// The route as a sequence of symbol views.
    pub open spec fn route_view(&self) -> Seq<Seq<char>> {
        strings_view(self.route@)
    }
}

/// The product of two well-formed rationals is well formed.
proof fn lemma_rat_mul_wf(a: RatV, b: RatV)
    requires
        rat_wf(a),
        rat_wf(b),
    ensures
        rat_wf(rat_mul(a, b)),
{
    assert(a.den * b.den > 0) by (nonlinear_arith)
        requires
            a.den > 0,
            b.den > 0,
    ;
}

/// Every hop product along a path of well-formed edges is well formed.
proof fn lemma_path_score_wf(g: PoolGraph, p: Seq<usize>)
    requires
        g.wf(),
        forall|j: int| 0 <= j < p.len() - 1 ==> #[trigger] g.has_edge(p[j] as int, p[j + 1] as int),
    ensures
        rat_wf(path_score(g, p)),
    decreases p.len(),
{
    if p.len() < 2 {
    } else {
        let z: int = 0;
        assert(g.has_edge(p[z] as int, p[z + 1] as int));
        let k = g.edge_index(p[0] as int, p[1] as int);
        g.lemma_edge_index_of(k);
        assert(g.edge_ok(g.edges@[k]));
        assert(rat_wf(g.edge_rate(p[0] as int, p[1] as int)));
        lemma_path_score_wf(g, p.drop_first());
        lemma_rat_mul_wf(g.edge_rate(p[0] as int, p[1] as int), path_score(g, p.drop_first()));
    }
}

impl PoolGraph {
    /// The total exchange rate of a route: the exact product of the stored
    /// rate of each hop along the index path.
    fn route_exchange_rate(&self, nodes: &Vec<usize>) -> (r: Rate)
        requires
            self.wf(),
            nodes@.len() >= 1,
            forall|j: int| 0 <= j < nodes@.len() ==> (#[trigger] nodes@[j]) < self.symbols@.len(),
            forall|j: int|
                0 <= j < nodes@.len() - 1 ==> #[trigger] self.has_edge(
                    nodes@[j] as int,
                    nodes@[j + 1] as int,
                ),
        ensures
            r@ == path_score(*self, nodes@),
            rat_wf(r@),
    {
        let mut acc = Rate::from_fraction(1, 1);
        let mut i: usize = nodes.len();
        proof {
            assert(nodes@.subrange(i as int - 1, nodes@.len() as int).len() == 1);
        }
        while i >= 2
            invariant
                self.wf(),
                1 <= i <= nodes@.len(),
                forall|j: int|
                    0 <= j < nodes@.len() ==> (#[trigger] nodes@[j]) < self.symbols@.len(),
                forall|j: int|
                    0 <= j < nodes@.len() - 1 ==> #[trigger] self.has_edge(
                        nodes@[j] as int,
                        nodes@[j + 1] as int,
                    ),
                acc@ == path_score(*self, nodes@.subrange(i as int - 1, nodes@.len() as int)),
            decreases i,
        {
            let a = nodes[i - 2];
            let b = nodes[i - 1];
            proof {
                assert(self.has_edge(nodes@[i as int - 2] as int, nodes@[i as int - 2 + 1] as int));
                assert(self.has_edge(a as int, b as int));
            }
            let k = match self.find_edge(a, b) {
                Some(k) => k,
                None => {
                    proof {
                        assert(false);
                    }
                    0
                },
            };
            proof {
                self.lemma_edge_index_of(k as int);
                assert(self.edge_rate(a as int, b as int) == self.edges@[k as int].swap.rate@);
            }
            let ghost prev_tail = nodes@.subrange(i as int - 1, nodes@.len() as int);
            acc = self.edges[k].swap.rate.times(&acc);
            proof {
                let sub = nodes@.subrange(i as int - 2, nodes@.len() as int);
                assert(sub.len() >= 2);
                assert(sub[0] == nodes@[i as int - 2]);
                assert(sub[1] == nodes@[i as int - 1]);
                assert(sub.drop_first() =~= prev_tail);
                assert(path_score(*self, sub) == rat_mul(
                    self.edge_rate(sub[0] as int, sub[1] as int),
                    path_score(*self, prev_tail),
                ));
            }
            i = i - 1;
        }
        proof {
            assert(i == 1);
            assert(nodes@.subrange(0, nodes@.len() as int) =~= nodes@);
            lemma_path_score_wf(*self, nodes@);
        }
        acc
    }

    /// The symbols along an index path, as owned strings.
    fn route_symbols(&self, nodes: &Vec<usize>) -> (r: Vec<String>)
        requires
            forall|j: int| 0 <= j < nodes@.len() ==> (#[trigger] nodes@[j]) < self.symbols@.len(),
        ensures
            r@.len() == nodes@.len(),
            forall|j: int| 0 <= j < r@.len() ==> (#[trigger] r@[j])@ == self.sym(nodes@[j] as int),
            strings_view(r@) == path_syms(*self, nodes@),
    {
        let mut r: Vec<String> = Vec::new();
        let mut i: usize = 0;
        while i < nodes.len()
            invariant
                i <= nodes@.len(),
                r@.len() == i,
                forall|j: int|
                    0 <= j < nodes@.len() ==> (#[trigger] nodes@[j]) < self.symbols@.len(),
                forall|j: int|
                    0 <= j < r@.len() ==> (#[trigger] r@[j])@ == self.sym(nodes@[j] as int),
            decreases nodes@.len() - i,
        {
            r.push(self.symbols[nodes[i]].clone());
            i = i + 1;
        }
        proof {
            assert(strings_view(r@) =~= path_syms(*self, nodes@));
        }
        r
    }
}

/// Sort ranked routes by score, highest first, by repeatedly extracting a
/// maximum. The result holds exactly the given routes.
fn sort_routes_desc(input: Vec<RankedRoute>) -> (r: Vec<RankedRoute>)
    requires
        forall|i: int| 0 <= i < input@.len() ==> rat_wf((#[trigger] input@[i]).score@),
    ensures
        r@.len() == input@.len(),
        forall|i: int, j: int|
            0 <= i <= j < r@.len() ==> rat_le(r@[j].score@, r@[i].score@),
        r@.to_multiset() == input@.to_multiset(),
        forall|i: int| 0 <= i < r@.len() ==> rat_wf((#[trigger] r@[i]).score@),
{
    broadcast use vstd::seq_lib::group_to_multiset_ensures;

    let mut rest = input;
    let mut out: Vec<RankedRoute> = Vec::new();
    while rest.len() > 0
        invariant
            out@.to_multiset().add(rest@.to_multiset()) == input@.to_multiset(),
            forall|i: int| 0 <= i < rest@.len() ==> rat_wf((#[trigger] rest@[i]).score@),
            forall|i: int| 0 <= i < out@.len() ==> rat_wf((#[trigger] out@[i]).score@),
            forall|i: int, j: int|
                0 <= i <= j < out@.len() ==> rat_le(out@[j].score@, out@[i].score@),
            forall|oi: int, rj: int|
                0 <= oi < out@.len() && 0 <= rj < rest@.len() ==> rat_le(
                    rest@[rj].score@,
                    out@[oi].score@,
                ),
        decreases rest@.len(),
    {
        let mut m: usize = 0;
        let mut j: usize = 1;
        while j < rest.len()
            invariant
                rest@.len() > 0,
                0 <= m < j,
                1 <= j <= rest@.len(),
                forall|i: int| 0 <= i < rest@.len() ==> rat_wf((#[trigger] rest@[i]).score@),
                forall|t: int| 0 <= t < j ==> rat_le(rest@[t].score@, rest@[m as int].score@),
            decreases rest@.len() - j,
        {
            if rest[m].score.lt(&rest[j].score) {
                proof {
                    assert forall|t: int|
                        0 <= t < j + 1 implies rat_le(rest@[t].score@, rest@[j as int].score@) by {
                        if t < j {
                            lemma_rat_le_trans(
                                rest@[t].score@,
                                rest@[m as int].score@,
                                rest@[j as int].score@,
                            );
                        }
                    }
                }
                m = j;
            }
            j = j + 1;
        }
        let ghost rest0 = rest@;
        let x = rest.remove(m);
        let ghost out0 = out@;
        out.push(x);
        proof {
            rest0.to_multiset_ensures();
            out0.to_multiset_ensures();
            assert(rest@ == rest0.remove(m as int));
            assert(rest0.remove(m as int).to_multiset() =~= rest0.to_multiset().remove(
                rest0[m as int],
            ));
            assert(out@ == out0.push(x));
            assert(out0.push(x).to_multiset() =~= out0.to_multiset().insert(x));
            assert(out@.to_multiset().add(rest@.to_multiset()) =~= input@.to_multiset());
            assert forall|i: int, j2: int|
                0 <= i <= j2 < out@.len() implies rat_le(out@[j2].score@, out@[i].score@) by {
                if j2 < out@.len() - 1 {
                    assert(rat_le(out0[j2].score@, out0[i].score@));
                } else if i < j2 {
                    assert(rat_le(rest0[m as int].score@, out0[i].score@));
                }
            }
            assert forall|oi: int, rj: int|
                0 <= oi < out@.len() && 0 <= rj < rest@.len() implies rat_le(
                rest@[rj].score@,
                out@[oi].score@,
            ) by {
                let orig: int = if rj < m as int {
                    rj
                } else {
                    rj + 1
                };
                assert(rest@[rj] == rest0[orig]);
                assert(rat_le(rest0[orig].score@, rest0[m as int].score@));
                if oi < out@.len() - 1 {
                    assert(rat_le(rest0[orig].score@, out0[oi].score@));
                } else {
                    assert(out@[oi] == rest0[m as int]);
                }
            }
        }
    }
    proof {
        assert(rest@.to_multiset() =~= Multiset::empty());
        assert(out@.to_multiset() =~= input@.to_multiset());
        assert(out@.to_multiset().len() == input@.to_multiset().len());
    }
    out
}

impl PoolGraph {
    /// Default bound on intermediate tokens when looking for the best
    /// route.
    pub const OPTIMAL_ROUTE_DEPTH: usize = 3;

    /// All known token symbols. Positions carry no meaning to callers: the
    /// result is a set of tokens.
    pub fn tokens(&self) -> (r: Vec<String>)
        ensures
            r@.len() == self.symbols@.len(),
            forall|i: int| 0 <= i < r@.len() ==> (#[trigger] r@[i])@ == self.sym(i),
    {
        let mut r: Vec<String> = Vec::new();
        let mut i: usize = 0;
        while i < self.symbols.len()
            invariant
                i <= self.symbols@.len(),
                r@.len() == i,
                forall|j: int| 0 <= j < r@.len() ==> (#[trigger] r@[j])@ == self.sym(j),
            decreases self.symbols@.len() - i,
        {
            r.push(self.symbols[i].clone());
            i = i + 1;
        }
        r
    }

    /// Every swap route from `token0` to `token1` with at most
    /// `max_intermediate_nodes` intermediate tokens, each with its
    /// compounded exchange rate, sorted by rate, best first. Unknown
    /// tokens, and a pair without a route within the bound, give an empty
    /// result, not an error. When the two tokens coincide only cycles back
    /// through other tokens count, never the empty route. The depth bound
    /// must leave room for one more hop in machine arithmetic, so it stays
    /// strictly below `usize::MAX`.
    pub fn routes(&self, token0: &str, token1: &str, max_intermediate_nodes: usize) -> (r: Vec<
        RankedRoute,
    >)
        requires
            self.wf(),
            max_intermediate_nodes < usize::MAX,
        ensures
            forall|i: int|
                0 <= i < r@.len() ==> valid_route(
                    *self,
                    (#[trigger] r@[i]).route_view(),
                    token0@,
                    token1@,
                    max_intermediate_nodes as nat,
                ) && r@[i].score@ == route_score(*self, r@[i].route_view()),
            forall|route: Seq<Seq<char>>|
                valid_route(*self, route, token0@, token1@, max_intermediate_nodes as nat)
                    ==> exists|i: int|
                    0 <= i < r@.len() && (#[trigger] r@[i]).route_view() == route,
            forall|i: int, j: int|
                0 <= i <= j < r@.len() ==> rat_le(r@[j].score@, r@[i].score@),
            forall|i: int, j: int|
                0 <= i < j < r@.len() ==> (#[trigger] r@[i]).route_view() != (
                #[trigger] r@[j]).route_view(),
            !self.has_sym(token0@) || !self.has_sym(token1@) ==> r@.len() == 0,
    {
        let ghost k = max_intermediate_nodes as nat;
        let owned0 = token0.to_owned();
        let owned1 = token1.to_owned();
        let s = match self.find_symbol(&owned0) {
            Some(s) => s,
            None => {
                proof {
                    assert forall|route: Seq<Seq<char>>|
                        !valid_route(*self, route, token0@, token1@, k) by {
                        if valid_route(*self, route, token0@, token1@, k) {
                            assert(self.has_sym(route[0]));
                        }
                    }
                }
                return Vec::new();
            },
        };
        let t = match self.find_symbol(&owned1) {
            Some(t) => t,
            None => {
                proof {
                    assert forall|route: Seq<Seq<char>>|
                        !valid_route(*self, route, token0@, token1@, k) by {
                        if valid_route(*self, route, token0@, token1@, k) {
                            assert(self.has_sym(route[route.len() - 1]));
                        }
                    }
                }
                return Vec::new();
            },
        };
        let nn = self.symbols.len();
        proof {
            assert(nn == self.symbols@.len());
        }
        let mut path: Vec<usize> = Vec::new();
        path.push(s);
        let mut found: Vec<Vec<usize>> = Vec::new();
        let room = max_intermediate_nodes + 1;
        proof {
            assert(path@ =~= seq![s]);
            assert(prefix_ok(*self, path@, t));
        }
        self.dfs_routes(t, room, &mut path, &mut found);
        let mut ranked: Vec<RankedRoute> = Vec::new();
        let mut i: usize = 0;
        while i < found.len()
            invariant
                self.wf(),
                s < self.symbols@.len(),
                t < self.symbols@.len(),
                self.sym(s as int) == token0@,
                self.sym(t as int) == token1@,
                k == max_intermediate_nodes as nat,
                room == max_intermediate_nodes + 1,
                i <= found@.len(),
                ranked@.len() == i,
                forall|j: int|
                    0 <= j < found@.len() ==> is_completion(
                        *self,
                        seq![s],
                        t,
                        room as int,
                        (#[trigger] found@[j])@,
                    ),
                forall|j: int|
                    0 <= j < ranked@.len() ==> (#[trigger] ranked@[j]).route_view() == path_syms(
                        *self,
                        found@[j]@,
                    ) && ranked@[j].score@ == path_score(*self, found@[j]@) && rat_wf(
                        ranked@[j].score@,
                    ),
            decreases found@.len() - i,
        {
            let ixpath = &found[i];
            proof {
                assert(is_completion(*self, seq![s], t, room as int, ixpath@));
                assert(ixpath@[0] == ixpath@.subrange(0, 1)[0]);
                assert forall|j: int|
                    0 <= j < ixpath@.len() implies (#[trigger] ixpath@[j])
                    < self.symbols@.len() by {
                    if j == 0 {
                        assert(ixpath@[0] == s);
                    }
                }
                assert forall|j: int|
                    0 <= j < ixpath@.len() - 1 implies #[trigger] self.has_edge(
                    ixpath@[j] as int,
                    ixpath@[j + 1] as int,
                ) by {}
            }
            let score = self.route_exchange_rate(ixpath);
            let syms = self.route_symbols(ixpath);
            ranked.push(RankedRoute { route: syms, score });
            i = i + 1;
        }
        let sorted = sort_routes_desc(ranked);
        proof {
            broadcast use vstd::seq_lib::group_to_multiset_ensures;

            assert forall|i2: int| 0 <= i2 < sorted@.len() implies valid_route(
                *self,
                (#[trigger] sorted@[i2]).route_view(),
                token0@,
                token1@,
                k,
            ) && sorted@[i2].score@ == route_score(*self, sorted@[i2].route_view()) by {
                assert(sorted@.to_multiset().count(sorted@[i2]) > 0);
                assert(ranked@.contains(sorted@[i2]));
                let j = choose|j: int| 0 <= j < ranked@.len() && ranked@[j] == sorted@[i2];
                lemma_completion_route(*self, s, t, k, found@[j]@);
            }
            assert forall|route: Seq<Seq<char>>|
                valid_route(*self, route, token0@, token1@, k) implies exists|i2: int|
                    0 <= i2 < sorted@.len() && (#[trigger] sorted@[i2]).route_view() == route by {
                assert(self.symbols@.len() <= usize::MAX) by {
                    assert(nn as int == self.symbols@.len());
                }
                lemma_route_completion(*self, route, token0@, token1@, k, s, t);
                let q = Seq::new(route.len(), |i3: int| self.sym_index(route[i3]) as usize);
                let j = choose|j: int| 0 <= j < found@.len() && (#[trigger] found@[j])@ == q;
                assert(ranked@[j].route_view() == route);
                assert(ranked@.to_multiset().count(ranked@[j]) > 0);
                assert(sorted@.contains(ranked@[j]));
                let i2 = choose|i2: int| 0 <= i2 < sorted@.len() && sorted@[i2] == ranked@[j];
                assert(sorted@[i2].route_view() == route);
            }
            assert forall|j: int|
                0 <= j < found@.len() implies forall|j3: int|
                    0 <= j3 < (#[trigger] found@[j])@.len() ==> ((found@[j])@)[j3]
                        < self.symbols@.len() by {
                let q = found@[j]@;
                assert(is_completion(*self, seq![s], t, room as int, q));
                assert forall|j3: int| 0 <= j3 < q.len() implies q[j3] < self.symbols@.len() by {
                    if j3 == 0 {
                        assert(q[0] == q.subrange(0, 1)[0]);
                    }
                }
            }
            assert forall|a: int, b: int|
                0 <= a < b < ranked@.len() implies ranked@[a] != ranked@[b] && (
            #[trigger] ranked@[a]).route_view() != (#[trigger] ranked@[b]).route_view() by {
                if ranked@[a].route_view() == ranked@[b].route_view() {
                    lemma_path_syms_inj(*self, found@[a]@, found@[b]@);
                    assert(found@[a]@ == found@[b]@);
                    assert(false);
                }
            }
            assert(ranked@.no_duplicates());
            ranked@.lemma_multiset_has_no_duplicates();
            sorted@.lemma_multiset_has_no_duplicates_conv();
            assert(sorted@.no_duplicates());
            assert forall|i2: int, j2: int|
                0 <= i2 < j2 < sorted@.len() implies (#[trigger] sorted@[i2]).route_view() != (
            #[trigger] sorted@[j2]).route_view() by {
                if sorted@[i2].route_view() == sorted@[j2].route_view() {
                    assert(sorted@[i2] != sorted@[j2]);
                    assert(sorted@.to_multiset().count(sorted@[i2]) > 0);
                    assert(sorted@.to_multiset().count(sorted@[j2]) > 0);
                    assert(ranked@.contains(sorted@[i2]));
                    assert(ranked@.contains(sorted@[j2]));
                    let a = choose|a: int| 0 <= a < ranked@.len() && ranked@[a] == sorted@[i2];
                    let b = choose|b: int| 0 <= b < ranked@.len() && ranked@[b] == sorted@[j2];
                    assert(a != b);
                    assert(ranked@[a].route_view() != ranked@[b].route_view());
                    assert(false);
                }
            }
        }
        sorted
    }

    /// The best swap route between two tokens within the default depth
    /// bound, with its compounded exchange rate — or nothing when no route
    /// exists within the bound or a token is unknown.
    pub fn optiomal_route(&self, token0: &str, token1: &str) -> (r: Option<RankedRoute>)
        requires
            self.wf(),
        ensures
            match r {
                None => forall|route: Seq<Seq<char>>|
                    !valid_route(*self, route, token0@, token1@, 3),
                Some(rr) => valid_route(*self, rr.route_view(), token0@, token1@, 3)
                    && rr.score@ == route_score(*self, rr.route_view()) && forall|
                    route: Seq<Seq<char>>,
                |
                    valid_route(*self, route, token0@, token1@, 3) ==> rat_le(
                        route_score(*self, route),
                        rr.score@,
                    ),
            },
    {
        let mut v = self.routes(token0, token1, Self::OPTIMAL_ROUTE_DEPTH);
        if v.len() == 0 {
            proof {
                assert forall|route: Seq<Seq<char>>|
                    !valid_route(*self, route, token0@, token1@, 3) by {
                    if valid_route(*self, route, token0@, token1@, 3) {
                        let i = choose|i: int|
                            0 <= i < v@.len() && (#[trigger] v@[i]).route_view() == route;
                        assert(false);
                    }
                }
            }
            None
        } else {
            let ghost v0 = v@;
            let best = v.remove(0);
            proof {
                assert(best == v0[0]);
                assert forall|route: Seq<Seq<char>>|
                    valid_route(*self, route, token0@, token1@, 3) implies rat_le(
                    route_score(*self, route),
                    best.score@,
                ) by {
                    let i = choose|i: int|
                        0 <= i < v0.len() && (#[trigger] v0[i]).route_view() == route;
                    assert(v0[i].score@ == route_score(*self, route));
                    assert(rat_le(v0[i].score@, v0[0].score@));
                }
            }
            Some(best)
        }
    }
}

/// Law: merging keeps the maximum rate. When records offer rates for the
/// same ordered token pair, among them a lower `r_lo` and a higher `r_hi`
/// that no offer exceeds, the built graph's edge for that pair carries a
/// rate equal to `r_hi`.
pub proof fn lemma_merge_keeps_max(
    g: PoolGraph,
    records: Seq<Pool>,
    a: Seq<char>,
    b: Seq<char>,
    i: int,
    j: int,
    r_lo: RatV,
    r_hi: RatV,
)
    requires
        models(g, records),
        0 <= i < records.len(),
        0 <= j < records.len(),
        offers(records[i], a, b, r_lo),
        offers(records[j], a, b, r_hi),
        rat_lt(r_lo, r_hi),
        forall|k2: int, r: RatV|
            0 <= k2 < records.len() && #[trigger] offers(records[k2], a, b, r) ==> rat_le(r, r_hi),
    ensures
        g.has_edge_sym(a, b),
        rat_eq(g.edge_rate_sym(a, b), r_hi),
{
    assert(g.has_edge_sym(a, b));
    let best = g.edge_rate_sym(a, b);
    assert(best_rate(records, a, b, best));
    let (i2, r2) = choose|i2: int, r2: RatV|
        0 <= i2 < records.len() && #[trigger] offers(records[i2], a, b, r2) && r2 == best;
    assert(rat_le(best, r_hi));
    assert(rat_le(r_hi, best));
    assert(rat_eq(best, r_hi));
}

/// Law: graph construction is order-independent. Graphs built from the
/// same records, in whatever order, carry the same token set, the same
/// edges, and rate-equal rates on each edge.
pub proof fn lemma_build_order_independent(
    g1: PoolGraph,
    g2: PoolGraph,
    rs1: Seq<Pool>,
    rs2: Seq<Pool>,
)
    requires
        models(g1, rs1),
        models(g2, rs2),
        rs1.to_multiset() == rs2.to_multiset(),
    ensures
        forall|s: Seq<char>| #[trigger] g1.has_sym(s) == g2.has_sym(s),
        forall|a: Seq<char>, b: Seq<char>|
            #[trigger] g1.has_edge_sym(a, b) == g2.has_edge_sym(a, b),
        forall|a: Seq<char>, b: Seq<char>|
            #[trigger] g1.has_edge_sym(a, b) ==> rat_eq(
                g1.edge_rate_sym(a, b),
                g2.edge_rate_sym(a, b),
            ),
{
    rs1.to_multiset_ensures();
    rs2.to_multiset_ensures();
    assert(rs1.len() == rs2.len());
    assert forall|x: Pool| rs1.contains(x) == rs2.contains(x) by {
        assert(rs1.contains(x) <==> rs1.to_multiset().count(x) > 0);
        assert(rs2.contains(x) <==> rs2.to_multiset().count(x) > 0);
    }
    assert forall|s: Seq<char>| #[trigger] g1.has_sym(s) == g2.has_sym(s) by {
        if g1.has_sym(s) {
            let i = choose|i: int| 0 <= i < rs1.len() && mentions(#[trigger] rs1[i], s);
            assert(rs1.contains(rs1[i]));
            let j = choose|j: int| 0 <= j < rs2.len() && rs2[j] == rs1[i];
            assert(mentions(rs2[j], s));
        }
        if g2.has_sym(s) {
            let i = choose|i: int| 0 <= i < rs2.len() && mentions(#[trigger] rs2[i], s);
            assert(rs2.contains(rs2[i]));
            let j = choose|j: int| 0 <= j < rs1.len() && rs1[j] == rs2[i];
            assert(mentions(rs1[j], s));
        }
    }
    assert forall|a: Seq<char>, b: Seq<char>| #[trigger]
        g1.has_edge_sym(a, b) == g2.has_edge_sym(a, b) by {
        if g1.has_edge_sym(a, b) {
            let (i, r) = choose|i: int, r: RatV|
                0 <= i < rs1.len() && #[trigger] offers(rs1[i], a, b, r);
            assert(rs1.contains(rs1[i]));
            let j = choose|j: int| 0 <= j < rs2.len() && rs2[j] == rs1[i];
            assert(offers(rs2[j], a, b, r));
        }
        if g2.has_edge_sym(a, b) {
            let (i, r) = choose|i: int, r: RatV|
                0 <= i < rs2.len() && #[trigger] offers(rs2[i], a, b, r);
            assert(rs2.contains(rs2[i]));
            let j = choose|j: int| 0 <= j < rs1.len() && rs1[j] == rs2[i];
            assert(offers(rs1[j], a, b, r));
        }
    }
    assert forall|a: Seq<char>, b: Seq<char>| #[trigger] g1.has_edge_sym(a, b) implies rat_eq(
        g1.edge_rate_sym(a, b),
        g2.edge_rate_sym(a, b),
    ) by {
        let b1 = g1.edge_rate_sym(a, b);
        let b2 = g2.edge_rate_sym(a, b);
        assert(g2.has_edge_sym(a, b));
        assert(best_rate(rs1, a, b, b1));
        assert(best_rate(rs2, a, b, b2));
        let (i1, r1x) = choose|i1: int, r1x: RatV|
            0 <= i1 < rs1.len() && #[trigger] offers(rs1[i1], a, b, r1x) && r1x == b1;
        assert(rs1.contains(rs1[i1]));
        let j1 = choose|j1: int| 0 <= j1 < rs2.len() && rs2[j1] == rs1[i1];
        assert(offers(rs2[j1], a, b, b1));
        assert(rat_le(b1, b2));
        let (i2, r2x) = choose|i2: int, r2x: RatV|
            0 <= i2 < rs2.len() && #[trigger] offers(rs2[i2], a, b, r2x) && r2x == b2;
        assert(rs2.contains(rs2[i2]));
        let j2 = choose|j2: int| 0 <= j2 < rs1.len() && rs1[j2] == rs2[i2];
        assert(offers(rs1[j2], a, b, b2));
        assert(rat_le(b2, b1));
    }
}

} // verus!
