//! The token graph: tokens are nodes, every trading pair joins its base and quote in
//! both directions, and the triangles stablecoin -> B -> C -> stablecoin are listed and
//! indexed by the symbols of their pairs.

use vstd::prelude::*;
use ahash::{AHashMap, AHashSet};
use petgraph::graph::DiGraph;
use crate::collections::{
    graph_add_edge, graph_add_node, graph_edge_weight, graph_edges, graph_find_edge, graph_new,
    graph_nodes, index_map_clear, index_map_contents, index_map_get, index_map_new, index_map_push,
    latest_edge, name_set_contains, name_set_contents, name_set_insert, name_set_members,
    name_set_new, node_map_contents, node_map_get, node_map_insert, node_map_new,
    token_lists_contents, token_lists_get, token_lists_new, token_lists_push,
};
use crate::exchange::PairInfo;

verus! {

/// A trading pair as an edge of the graph.
#[derive(Debug)]
pub struct TokenPair {
    pub base: String,
    pub quote: String,
    pub symbol: String,
    pub info: PairInfo,
}

impl View for TokenPair {
    type V = (Seq<char>, Seq<char>, Seq<char>, <PairInfo as View>::V);

    open spec fn view(&self) -> Self::V {
        (self.base@, self.quote@, self.symbol@, self.info@)
    }
}

impl TokenPair {
    /// The pair of `pair_info`, with its assets and symbol.
    pub fn new(pair_info: PairInfo) -> (r: TokenPair)
        ensures
            r.base@ == pair_info.base_asset@,
            r.quote@ == pair_info.quote_asset@,
            r.symbol@ == pair_info.symbol@,
            r.info@ == pair_info@,
    {
        TokenPair {
            base: pair_info.base_asset.clone(),
            quote: pair_info.quote_asset.clone(),
            symbol: pair_info.symbol.clone(),
            info: pair_info,
        }
    }

    /// A copy equal to `self` field by field.
    pub fn copy(&self) -> (r: TokenPair)
        ensures
            r@ == self@,
    {
        TokenPair {
            base: self.base.clone(),
            quote: self.quote.clone(),
            symbol: self.symbol.clone(),
            info: self.info.copy(),
        }
    }
}

/// A cycle stablecoin (A) -> intermediate (B) -> target (C) -> stablecoin, with the
/// pairs A/B, B/C and C/A.
#[derive(Debug)]
pub struct Triangle {
    pub stablecoin: String,
    pub intermediate_token: String,
    pub target_token: String,
    pub pairs: [TokenPair; 3],
}

impl View for Triangle {
    type V = (Seq<char>, Seq<char>, Seq<char>, Seq<<TokenPair as View>::V>);

    open spec fn view(&self) -> Self::V {
        (
            self.stablecoin@,
            self.intermediate_token@,
            self.target_token@,
            seq![self.pairs[0]@, self.pairs[1]@, self.pairs[2]@],
        )
    }
}

impl Triangle {
    pub fn new(
        stablecoin: String,
        intermediate: String,
        target: String,
        pair_ab: TokenPair,
        pair_bc: TokenPair,
        pair_ca: TokenPair,
    ) -> (r: Triangle)
        ensures
            r@ == (stablecoin@, intermediate@, target@, seq![pair_ab@, pair_bc@, pair_ca@]),
    {
        Triangle {
            stablecoin,
            intermediate_token: intermediate,
            target_token: target,
            pairs: [pair_ab, pair_bc, pair_ca],
        }
    }
}

/// The view of a trading pair: (base, quote, symbol, pair info).
pub type PairView = <TokenPair as View>::V;

/// The view of a triangle: (stablecoin, intermediate, target, its three pairs).
pub type TriangleView = <Triangle as View>::V;

/// The pair connects the tokens `a` and `b`, in either direction.
pub open spec fn joins(p: PairView, a: Seq<char>, b: Seq<char>) -> bool {
    (p.0 == a && p.1 == b) || (p.0 == b && p.1 == a)
}

/// The views of a list of triangles.
pub open spec fn triangle_views(ts: Seq<Triangle>) -> Seq<TriangleView> {
    ts.map_values(|t: Triangle| t@)
}

/// The stablecoin (0), intermediate (1) or target (2) token of a triangle.
pub open spec fn field_of(t: TriangleView, f: int) -> Seq<char> {
    if f == 0 {
        t.0
    } else if f == 1 {
        t.1
    } else {
        t.2
    }
}

/// The positions of the triangles whose token `f` is `k`, in increasing order.
pub open spec fn positions(ts: Seq<TriangleView>, f: int, k: Seq<char>) -> Seq<usize>
    decreases ts.len(),
{
    if ts.len() == 0 {
        Seq::empty()
    } else {
        let p = positions(ts.drop_last(), f, k);
        if field_of(ts.last(), f) == k {
            p.push((ts.len() - 1) as usize)
        } else {
            p
        }
    }
}

/// The index by token `f`: each token that occurs maps to its positions.
pub open spec fn position_index(ts: Seq<TriangleView>, f: int) -> Map<Seq<char>, Seq<usize>> {
    Map::new(|k: Seq<char>| positions(ts, f, k).len() > 0, |k: Seq<char>| positions(ts, f, k))
}

/// The position of triangle `i` once for each of its pairs whose symbol is `k`.
pub open spec fn symbol_hits(t: TriangleView, i: usize, k: Seq<char>) -> Seq<usize> {
    (if t.3[0].2 == k {
        seq![i]
    } else {
        Seq::empty()
    }) + (if t.3[1].2 == k {
        seq![i]
    } else {
        Seq::empty()
    }) + (if t.3[2].2 == k {
        seq![i]
    } else {
        Seq::empty()
    })
}

/// The positions of the triangles with a pair whose symbol is `k`, a position repeated
/// for each such pair, in increasing order.
pub open spec fn symbol_positions(ts: Seq<TriangleView>, k: Seq<char>) -> Seq<usize>
    decreases ts.len(),
{
    if ts.len() == 0 {
        Seq::empty()
    } else {
        symbol_positions(ts.drop_last(), k) + symbol_hits(ts.last(), (ts.len() - 1) as usize, k)
    }
}

/// The symbol index `old` with the positions of the triangles `ts` appended under each
/// symbol.
pub open spec fn symbol_index_extended(old: Map<Seq<char>, Seq<usize>>, ts: Seq<TriangleView>) -> Map<Seq<char>, Seq<usize>> {
    Map::new(
        |k: Seq<char>| old.contains_key(k) || symbol_positions(ts, k).len() > 0,
        |k: Seq<char>|
            (if old.contains_key(k) {
                old[k]
            } else {
                Seq::empty()
            }) + symbol_positions(ts, k),
    )
}

/// The list under `k`, empty where there is none.
pub open spec fn list_or_empty(m: Map<Seq<char>, Seq<usize>>, k: Seq<char>) -> Seq<usize> {
    if m.contains_key(k) {
        m[k]
    } else {
        Seq::empty()
    }
}

/// Appending `v` under `s` appends it to the list of `s` and changes no other list.
pub proof fn lemma_push_entry(m: Map<Seq<char>, Seq<usize>>, s: Seq<char>, v: usize, k: Seq<char>)
    ensures
        ({
            let m2 = m.insert(s, list_or_empty(m, s).push(v));
            &&& m2.contains_key(k) == (m.contains_key(k) || k == s)
            &&& list_or_empty(m2, k) == list_or_empty(m, k) + (if k == s {
                seq![v]
            } else {
                Seq::empty()
            })
        }),
{
    let m2 = m.insert(s, list_or_empty(m, s).push(v));
    if k == s {
        assert(list_or_empty(m2, k) =~= list_or_empty(m, k) + seq![v]);
    } else {
        assert(list_or_empty(m2, k) =~= list_or_empty(m, k) + Seq::<usize>::empty());
    }
}

/// The map with `v` appended to the list under `s`.
pub open spec fn push_entry(m: Map<Seq<char>, Seq<usize>>, s: Seq<char>, v: usize) -> Map<Seq<char>, Seq<usize>> {
    m.insert(s, list_or_empty(m, s).push(v))
}

proof fn lemma_symbol_index_step_key(
    old: Map<Seq<char>, Seq<usize>>,
    pre: Seq<TriangleView>,
    t: TriangleView,
    idx: usize,
    m0: Map<Seq<char>, Seq<usize>>,
    k: Seq<char>,
)
    requires
        m0 == symbol_index_extended(old, pre),
        pre.len() == idx,
    ensures
        ({
            let m3 = push_entry(push_entry(push_entry(m0, t.3[0].2, idx), t.3[1].2, idx), t.3[2].2, idx);
            let target = symbol_index_extended(old, pre.push(t));
            m3.contains_key(k) == target.contains_key(k) && list_or_empty(m3, k) == list_or_empty(target, k)
        }),
{
    let m1 = push_entry(m0, t.3[0].2, idx);
    let m2 = push_entry(m1, t.3[1].2, idx);
    let m3 = push_entry(m2, t.3[2].2, idx);
    let post = pre.push(t);
    assert(post.drop_last() =~= pre);
    lemma_push_entry(m0, t.3[0].2, idx, k);
    lemma_push_entry(m1, t.3[1].2, idx, k);
    lemma_push_entry(m2, t.3[2].2, idx, k);
    let hits = symbol_hits(t, idx, k);
    assert(symbol_positions(post, k) == symbol_positions(pre, k) + hits);
    assert(list_or_empty(m3, k) =~= list_or_empty(m0, k) + hits);
    assert(list_or_empty(m3, k) =~= list_or_empty(old, k) + symbol_positions(post, k));
    if symbol_positions(post, k).len() == 0 && !old.contains_key(k) {
        assert(list_or_empty(m3, k) =~= Seq::<usize>::empty());
    }
}

/// Indexing one more triangle by its three symbols extends the symbol index by it.
proof fn lemma_symbol_index_step(
    old: Map<Seq<char>, Seq<usize>>,
    pre: Seq<TriangleView>,
    t: TriangleView,
    idx: usize,
    m0: Map<Seq<char>, Seq<usize>>,
)
    requires
        m0 == symbol_index_extended(old, pre),
        pre.len() == idx,
    ensures
        push_entry(push_entry(push_entry(m0, t.3[0].2, idx), t.3[1].2, idx), t.3[2].2, idx)
            == symbol_index_extended(old, pre.push(t)),
{
    let m1 = push_entry(m0, t.3[0].2, idx);
    let m2 = push_entry(m1, t.3[1].2, idx);
    let m3 = push_entry(m2, t.3[2].2, idx);
    let post = pre.push(t);
    let target = symbol_index_extended(old, post);
    assert(post.drop_last() =~= pre);
    assert forall|k: Seq<char>| #[trigger] m3.contains_key(k) == target.contains_key(k)
        && list_or_empty(m3, k) == list_or_empty(target, k) by {
        lemma_symbol_index_step_key(old, pre, t, idx, m0, k);
    }
    assert(m3 =~= target);
}

/// The tokens, the trading pairs between them and the triangles through a stablecoin.
pub struct ArbitrageGraph {
    /// Nodes carry the token name; each edge carries the position of its pair in
    /// `edge_pairs`.
    graph: DiGraph<String, usize>,
    edge_pairs: Vec<TokenPair>,
    token_to_node: AHashMap<String, usize>,
    stablecoins: AHashSet<String>,
    regular_tokens: AHashSet<String>,
    pub triangles: Vec<Triangle>,
    triangles_by_symbol: AHashMap<String, Vec<usize>>,
    triangles_by_stablecoin: AHashMap<String, Vec<usize>>,
    triangles_by_intermediate: AHashMap<String, Vec<usize>>,
    triangles_by_target: AHashMap<String, Vec<usize>>,
    pairs_from_stable: AHashMap<String, Vec<String>>,
    pairs_to_stable: AHashMap<String, Vec<String>>,
}

impl ArbitrageGraph {
    /// Token names by node index.
    pub closed spec fn nodes(&self) -> Seq<Seq<char>> {
        graph_nodes(self.graph)
    }

    /// Edges by index: (source node, target node, position of the pair).
    pub closed spec fn edges(&self) -> Seq<(nat, nat, nat)> {
        graph_edges(self.graph)
    }

    /// The pairs added, in order.
    pub closed spec fn pairs(&self) -> Seq<PairView> {
        self.edge_pairs@.map_values(|p: TokenPair| p@)
    }

    /// The node of each token.
    pub closed spec fn token_nodes(&self) -> Map<Seq<char>, usize> {
        node_map_contents(self.token_to_node)
    }

    /// The search for triangles reads only the tokens, the edges, the pairs and the
    /// stablecoin caches.
    proof fn lemma_same_search(a: &Self, b: &Self, order: Seq<Seq<char>>, n: int)
        requires
            a.token_nodes() == b.token_nodes(),
            a.edges() == b.edges(),
            a.pairs() == b.pairs(),
            a.from_stable() == b.from_stable(),
        ensures
            a.all_triangles(order, n) == b.all_triangles(order, n),
        decreases n,
    {
        if n > 0 {
            Self::lemma_same_search(a, b, order, n - 1);
            let s = order[n - 1];
            if a.from_stable().contains_key(s) {
                let l = a.from_stable()[s];
                Self::lemma_same_rows(a, b, s, l, l.len() as int);
            }
        }
    }

    proof fn lemma_same_rows(a: &Self, b: &Self, s: Seq<char>, l: Seq<Seq<char>>, i: int)
        requires
            a.token_nodes() == b.token_nodes(),
            a.edges() == b.edges(),
            a.pairs() == b.pairs(),
        ensures
            a.rows_triangles(s, l, i) == b.rows_triangles(s, l, i),
        decreases i,
    {
        if i > 0 {
            Self::lemma_same_rows(a, b, s, l, i - 1);
            Self::lemma_same_row(a, b, s, l, i - 1, l.len() as int);
        }
    }

    proof fn lemma_same_row(a: &Self, b: &Self, s: Seq<char>, l: Seq<Seq<char>>, i: int, j: int)
        requires
            a.token_nodes() == b.token_nodes(),
            a.edges() == b.edges(),
            a.pairs() == b.pairs(),
        ensures
            a.row_triangles(s, l, i, j) == b.row_triangles(s, l, i, j),
        decreases j - i,
    {
        if j > i + 1 {
            Self::lemma_same_row(a, b, s, l, i, j - 1);
            assert(a.spec_triangle(s, l[i], l[j - 1]) == b.spec_triangle(s, l[i], l[j - 1]));
        }
    }

    /// The triangles found by the last `build_triangles`.
    pub closed spec fn triangle_list(&self) -> Seq<Triangle> {
        self.triangles@
    }

    /// The stablecoins the graph was made with.
    pub closed spec fn stablecoin_set(&self) -> Set<Seq<char>> {
        name_set_contents(self.stablecoins)
    }

    /// Tokens added that are not stablecoins.
    pub closed spec fn regular_token_set(&self) -> Set<Seq<char>> {
        name_set_contents(self.regular_tokens)
    }

    /// For a stablecoin, the base tokens of the pairs quoted in it, in the order added.
    pub closed spec fn from_stable(&self) -> Map<Seq<char>, Seq<Seq<char>>> {
        token_lists_contents(self.pairs_from_stable)
    }

    /// For a token, the stablecoins it is quoted in, in the order added.
    pub closed spec fn to_stable(&self) -> Map<Seq<char>, Seq<Seq<char>>> {
        token_lists_contents(self.pairs_to_stable)
    }

    /// Positions of triangles by the symbol of one of their pairs.
    pub closed spec fn by_symbol(&self) -> Map<Seq<char>, Seq<usize>> {
        index_map_contents(self.triangles_by_symbol)
    }

    /// Positions of triangles by their stablecoin.
    pub closed spec fn by_stablecoin(&self) -> Map<Seq<char>, Seq<usize>> {
        index_map_contents(self.triangles_by_stablecoin)
    }

    /// Positions of triangles by their intermediate token.
    pub closed spec fn by_intermediate(&self) -> Map<Seq<char>, Seq<usize>> {
        index_map_contents(self.triangles_by_intermediate)
    }

    /// Positions of triangles by their target token.
    pub closed spec fn by_target(&self) -> Map<Seq<char>, Seq<usize>> {
        index_map_contents(self.triangles_by_target)
    }

    /// The graph is consistent: each token has one node and each node one token, and
    /// every edge joins the two tokens of its pair.
    pub closed spec fn wf(&self) -> bool {
        &&& self.nodes().len() <= u32::MAX
        &&& self.edges().len() <= u32::MAX
        &&& forall|t: Seq<char>|
            #[trigger] self.token_nodes().contains_key(t) ==> self.token_nodes()[t] < self.nodes().len()
                && self.nodes()[self.token_nodes()[t] as int] == t
        &&& forall|i: int|
            0 <= i < self.nodes().len() ==> self.token_nodes().contains_key(#[trigger] self.nodes()[i])
                && self.token_nodes()[self.nodes()[i]] == i
        &&& forall|e: int|
            #![trigger self.edges()[e]]
            0 <= e < self.edges().len() ==> {
                let (a, b, w) = self.edges()[e];
                &&& a < self.nodes().len()
                &&& b < self.nodes().len()
                &&& w < self.edge_pairs@.len()
                &&& joins(self.edge_pairs@[w as int]@, self.nodes()[a as int], self.nodes()[b as int])
            }
    }

    /// Every token listed under a stablecoin in `from_stable` is the base of an added pair
    /// quoted in that stablecoin.
    pub open spec fn caches_from_pairs(&self) -> bool {
        forall|s: Seq<char>, b: Seq<char>|
            self.from_stable().contains_key(s) && #[trigger] self.from_stable()[s].contains(b) ==> exists|
                w: int,
            |
                0 <= w < self.pairs().len() && #[trigger] self.pairs()[w].0 == b && self.pairs()[w].1 == s
    }

    /// Every stored position in the symbol index is a position of the triangle list, so
    /// that `get_triangles_by_symbol` can be called with any symbol.
    pub open spec fn symbol_index_in_range(&self) -> bool {
        forall|k: Seq<char>, x: int|
            0 <= x < list_or_empty(self.by_symbol(), k).len() ==> #[trigger] list_or_empty(
                self.by_symbol(),
                k,
            )[x] < self.triangle_list().len()
    }

    /// The token index is one-to-one: each token has the node that carries its name, two
    /// tokens never share a node, and the tokens are exactly the node names, each once, so
    /// that there are as many tokens as nodes.
    pub proof fn lemma_token_index(&self)
        requires
            self.wf(),
        ensures
            forall|t: Seq<char>|
                #[trigger] self.token_nodes().contains_key(t) ==> self.token_nodes()[t] < self.nodes().len()
                    && self.nodes()[self.token_nodes()[t] as int] == t,
            forall|t: Seq<char>, u: Seq<char>|
                #[trigger] self.token_nodes().contains_key(t) && #[trigger] self.token_nodes().contains_key(u)
                    && t != u ==> self.token_nodes()[t] != self.token_nodes()[u],
            self.nodes().no_duplicates(),
            self.token_nodes().dom() == self.nodes().to_set(),
            self.token_nodes().dom().len() == self.nodes().len(),
    {
        let n = self.nodes();
        let tn = self.token_nodes();
        assert forall|i: int, j: int| 0 <= i < n.len() && 0 <= j < n.len() && i != j implies n[i] != n[j] by {
            assert(tn.contains_key(n[i]) && tn[n[i]] == i);
            assert(tn.contains_key(n[j]) && tn[n[j]] == j);
        }
        assert forall|t: Seq<char>| tn.dom().contains(t) <==> #[trigger] n.to_set().contains(t) by {
            if tn.dom().contains(t) {
                assert(n[tn[t] as int] == t);
            }
            if n.to_set().contains(t) {
                let i = choose|i: int| 0 <= i < n.len() && n[i] == t;
                assert(tn.contains_key(n[i]));
            }
        }
        assert(tn.dom() =~= n.to_set());
        n.unique_seq_to_set();
    }

    /// The triangle data (stablecoins, caches, triangles and indices) is the same.
    pub closed spec fn same_triangle_data(&self, other: &Self) -> bool {
        &&& self.stablecoin_set() == other.stablecoin_set()
        &&& self.triangles@ == other.triangles@
        &&& self.by_symbol() == other.by_symbol()
        &&& self.by_stablecoin() == other.by_stablecoin()
        &&& self.by_intermediate() == other.by_intermediate()
        &&& self.by_target() == other.by_target()
    }

    /// A graph without tokens, pairs or triangles, knowing `stablecoins`.
    pub fn new(stablecoins: Vec<&str>) -> (r: ArbitrageGraph)
        ensures
            r.wf(),
            r.stablecoin_set() == stablecoins@.map_values(|s: &str| s@).to_set(),
            r.nodes().len() == 0,
            r.edges().len() == 0,
            r.pairs().len() == 0,
            r.token_nodes().dom().is_empty(),
            r.regular_token_set().is_empty(),
            r.triangle_list().len() == 0,
            r.by_symbol().dom().is_empty(),
            r.by_stablecoin().dom().is_empty(),
            r.by_intermediate().dom().is_empty(),
            r.by_target().dom().is_empty(),
            r.from_stable().dom().is_empty(),
            r.to_stable().dom().is_empty(),
            r.caches_from_pairs(),
    {
        let mut set = name_set_new();
        let mut i: usize = 0;
        while i < stablecoins.len()
            invariant
                i <= stablecoins@.len(),
                name_set_contents(set) == stablecoins@.take(i as int).map_values(|s: &str| s@).to_set(),
            decreases stablecoins.len() - i,
        {
            let name = stablecoins[i].to_string();
            name_set_insert(&mut set, name);
            proof {
                stablecoins@.take(i as int).map_values(|s: &str| s@).lemma_push_to_set_commute(
                    stablecoins@[i as int]@,
                );
            }
            assert(stablecoins@.take(i + 1).map_values(|s: &str| s@) =~= stablecoins@.take(
                i as int,
            ).map_values(|s: &str| s@).push(stablecoins@[i as int]@));
            i = i + 1;
        }
        assert(stablecoins@.take(stablecoins.len() as int) =~= stablecoins@);
        let r = ArbitrageGraph {
            graph: graph_new(),
            edge_pairs: Vec::new(),
            token_to_node: node_map_new(),
            stablecoins: set,
            regular_tokens: name_set_new(),
            triangles: Vec::new(),
            triangles_by_symbol: index_map_new(),
            triangles_by_stablecoin: index_map_new(),
            triangles_by_intermediate: index_map_new(),
            triangles_by_target: index_map_new(),
            pairs_from_stable: token_lists_new(),
            pairs_to_stable: token_lists_new(),
        };
        assert(r.pairs() =~= Seq::<PairView>::empty());
        r
    }

    /// The node of `token`, added (as a regular token unless it is a stablecoin) where it
    /// was not in the graph yet.
    pub fn ensure_token(&mut self, token: &str) -> (r: usize)
        requires
            old(self).wf(),
            old(self).nodes().len() < u32::MAX,
        ensures
            final(self).wf(),
            final(self).same_triangle_data(old(self)),
            final(self).edges() == old(self).edges(),
            final(self).pairs() == old(self).pairs(),
            final(self).from_stable() == old(self).from_stable(),
            final(self).to_stable() == old(self).to_stable(),
            final(self).token_nodes().contains_key(token@),
            final(self).token_nodes()[token@] == r,
            old(self).token_nodes().contains_key(token@) ==> {
                &&& r == old(self).token_nodes()[token@]
                &&& final(self).nodes() == old(self).nodes()
                &&& final(self).token_nodes() == old(self).token_nodes()
                &&& final(self).regular_token_set() == old(self).regular_token_set()
            },
            !old(self).token_nodes().contains_key(token@) ==> {
                &&& r == old(self).nodes().len()
                &&& final(self).nodes() == old(self).nodes().push(token@)
                &&& final(self).token_nodes() == old(self).token_nodes().insert(token@, r)
                &&& final(self).regular_token_set() == if old(self).stablecoin_set().contains(token@) {
                    old(self).regular_token_set()
                } else {
                    old(self).regular_token_set().insert(token@)
                }
            },
    {
        if let Some(node_idx) = node_map_get(&self.token_to_node, token) {
            return node_idx;
        }
        let node_idx = graph_add_node(&mut self.graph, token.to_string());
        node_map_insert(&mut self.token_to_node, token.to_string(), node_idx);
        if name_set_contains(&self.stablecoins, token) {
        } else {
            name_set_insert(&mut self.regular_tokens, token.to_string());
        }
        proof {
            assert forall|t: Seq<char>| #[trigger] self.token_nodes().contains_key(t) implies self.token_nodes()[t]
                < self.nodes().len() && self.nodes()[self.token_nodes()[t] as int] == t by {
                if t != token@ {
                    assert(old(self).token_nodes().contains_key(t));
                }
            }
            assert forall|i: int| 0 <= i < self.nodes().len() implies self.token_nodes().contains_key(
                #[trigger] self.nodes()[i],
            ) && self.token_nodes()[self.nodes()[i]] == i by {
                if i < old(self).nodes().len() {
                    assert(old(self).nodes()[i] != token@);
                }
            }
            assert forall|e: int| 0 <= e < self.edges().len() implies {
                let (a, b, w) = #[trigger] self.edges()[e];
                &&& a < self.nodes().len()
                &&& b < self.nodes().len()
                &&& w < self.edge_pairs@.len()
                &&& joins(self.edge_pairs@[w as int]@, self.nodes()[a as int], self.nodes()[b as int])
            } by {
                assert(old(self).edges()[e] == self.edges()[e]);
            }
        }
        node_idx
    }

    /// `from_stable` and `to_stable` after adding `pair`: where the quote is a stablecoin,
    /// the base is listed under it and it under the base.
    pub open spec fn caches_after(
        from: Map<Seq<char>, Seq<Seq<char>>>,
        to: Map<Seq<char>, Seq<Seq<char>>>,
        stables: Set<Seq<char>>,
        pair: PairView,
    ) -> (Map<Seq<char>, Seq<Seq<char>>>, Map<Seq<char>, Seq<Seq<char>>>) {
        if stables.contains(pair.1) {
            (
                from.insert(
                    pair.1,
                    (if from.contains_key(pair.1) {
                        from[pair.1]
                    } else {
                        Seq::empty()
                    }).push(pair.0),
                ),
                to.insert(
                    pair.0,
                    (if to.contains_key(pair.0) {
                        to[pair.0]
                    } else {
                        Seq::empty()
                    }).push(pair.1),
                ),
            )
        } else {
            (from, to)
        }
    }

    fn update_stablecoin_caches(&mut self, pair: &TokenPair)
        ensures
            final(self).graph == old(self).graph,
            final(self).edge_pairs == old(self).edge_pairs,
            final(self).token_to_node == old(self).token_to_node,
            final(self).regular_tokens == old(self).regular_tokens,
            final(self).same_triangle_data(old(self)),
            (final(self).from_stable(), final(self).to_stable()) == Self::caches_after(
                old(self).from_stable(),
                old(self).to_stable(),
                old(self).stablecoin_set(),
                pair@,
            ),
    {
        if name_set_contains(&self.stablecoins, &pair.quote) {
            token_lists_push(&mut self.pairs_from_stable, &pair.quote, pair.base.clone());
            token_lists_push(&mut self.pairs_to_stable, &pair.base, pair.quote.clone());
        }
    }

    /// Adds the tokens of `pair` and an edge each way between them carrying the pair;
    /// a pair quoted in a stablecoin is recorded in the stablecoin caches.
    pub fn add_token_pair(&mut self, pair: TokenPair)
        requires
            old(self).wf(),
            old(self).nodes().len() + 2 <= u32::MAX,
            old(self).edges().len() + 2 <= u32::MAX,
        ensures
            final(self).wf(),
            final(self).same_triangle_data(old(self)),
            final(self).token_nodes().contains_key(pair.base@),
            final(self).token_nodes().contains_key(pair.quote@),
            final(self).token_nodes().dom() == old(self).token_nodes().dom().insert(pair.base@).insert(
                pair.quote@,
            ),
            forall|t: Seq<char>|
                #[trigger] old(self).token_nodes().contains_key(t) ==> final(self).token_nodes()[t]
                    == old(self).token_nodes()[t],
            final(self).pairs() == old(self).pairs().push(pair@),
            final(self).nodes().len() <= old(self).nodes().len() + 2,
            final(self).edges() == old(self).edges().push(
                (
                    final(self).token_nodes()[pair.base@] as nat,
                    final(self).token_nodes()[pair.quote@] as nat,
                    old(self).pairs().len(),
                ),
            ).push(
                (
                    final(self).token_nodes()[pair.quote@] as nat,
                    final(self).token_nodes()[pair.base@] as nat,
                    old(self).pairs().len(),
                ),
            ),
            (final(self).from_stable(), final(self).to_stable()) == Self::caches_after(
                old(self).from_stable(),
                old(self).to_stable(),
                old(self).stablecoin_set(),
                pair@,
            ),
            old(self).caches_from_pairs() ==> final(self).caches_from_pairs(),
            old(self).stablecoin_set().contains(pair.quote@) ==> final(self).from_stable().contains_key(pair.quote@)
                && final(self).from_stable()[pair.quote@].last() == pair.base@ && final(self).from_stable()[pair.quote@].len()
                >= 1,
            forall|s: Seq<char>, b: Seq<char>|
                old(self).from_stable().contains_key(s) && #[trigger] old(self).from_stable()[s].contains(b)
                    ==> final(self).from_stable().contains_key(s) && final(self).from_stable()[s].contains(b),
            !old(self).stablecoin_set().contains(pair.quote@) ==> final(self).from_stable() == old(
                self,
            ).from_stable(),
    {
        let base_idx = self.ensure_token(&pair.base);
        let quote_idx = self.ensure_token(&pair.quote);
        let weight = self.edge_pairs.len();
        graph_add_edge(&mut self.graph, base_idx, quote_idx, weight);
        graph_add_edge(&mut self.graph, quote_idx, base_idx, weight);
        self.update_stablecoin_caches(&pair);
        let ghost mid = *self;
        self.edge_pairs.push(pair);
        proof {
            assert(self.pairs() =~= old(self).pairs().push(pair@));
            assert forall|e: int| 0 <= e < self.edges().len() implies {
                let (a, b, w) = #[trigger] self.edges()[e];
                &&& a < self.nodes().len()
                &&& b < self.nodes().len()
                &&& w < self.edge_pairs@.len()
                &&& joins(self.edge_pairs@[w as int]@, self.nodes()[a as int], self.nodes()[b as int])
            } by {
                if e < old(self).edges().len() {
                    assert(self.edges()[e] == mid.edges()[e]);
                }
            }
            assert forall|s: Seq<char>, b: Seq<char>|
                old(self).from_stable().contains_key(s) && #[trigger] old(self).from_stable()[s].contains(b)
                    implies self.from_stable().contains_key(s) && self.from_stable()[s].contains(b) by {
                let of = old(self).from_stable();
                if old(self).stablecoin_set().contains(pair@.1) && s == pair@.1 {
                    let k = choose|k: int| 0 <= k < of[s].len() && of[s][k] == b;
                    assert(self.from_stable()[s] == of[s].push(pair@.0));
                    assert(self.from_stable()[s][k] == b);
                }
            }
            if old(self).caches_from_pairs() {
                let ps = self.pairs();
                let last = ps.len() - 1;
                assert(ps[last] == pair@);
                assert forall|s: Seq<char>, b: Seq<char>|
                    self.from_stable().contains_key(s) && #[trigger] self.from_stable()[s].contains(b) implies exists|
                        w: int,
                    | 0 <= w < ps.len() && #[trigger] ps[w].0 == b && ps[w].1 == s by {
                    let of = old(self).from_stable();
                    if old(self).stablecoin_set().contains(pair@.1) && s == pair@.1 {
                        let ol = if of.contains_key(s) { of[s] } else { Seq::empty() };
                        assert(self.from_stable()[s] == ol.push(pair@.0));
                        if b == pair@.0 {
                            assert(ps[last].0 == b && ps[last].1 == s);
                        } else {
                            let k = choose|k: int| 0 <= k < ol.push(pair@.0).len() && ol.push(pair@.0)[k] == b;
                            assert(k < ol.len());
                            assert(ol[k] == b);
                            assert(of.contains_key(s));
                            assert(of[s].contains(b));
                            let w = choose|w: int| 0 <= w < old(self).pairs().len() && #[trigger] old(self).pairs()[w].0 == b
                                && old(self).pairs()[w].1 == s;
                            assert(ps[w] == old(self).pairs()[w]);
                        }
                    } else {
                        assert(self.from_stable()[s] == of[s]);
                        assert(of[s].contains(b));
                        let w = choose|w: int| 0 <= w < old(self).pairs().len() && #[trigger] old(self).pairs()[w].0 == b
                            && old(self).pairs()[w].1 == s;
                        assert(ps[w] == old(self).pairs()[w]);
                    }
                }
            }
        }
    }

    /// The triangle stable -> b -> c -> stable, where the three tokens are nodes and an edge
    /// leads each step; each pair is the one of the most recently added such edge.
    pub open spec fn spec_triangle(&self, stable: Seq<char>, b: Seq<char>, c: Seq<char>) -> Option<TriangleView> {
        let tn = self.token_nodes();
        if tn.contains_key(stable) && tn.contains_key(b) && tn.contains_key(c) {
            let ns = tn[stable] as nat;
            let nb = tn[b] as nat;
            let nc = tn[c] as nat;
            match (
                latest_edge(self.edges(), ns, nb),
                latest_edge(self.edges(), nb, nc),
                latest_edge(self.edges(), nc, ns),
            ) {
                (Some(e1), Some(e2), Some(e3)) => Some(
                    (
                        stable,
                        b,
                        c,
                        seq![
                            self.pairs()[self.edges()[e1 as int].2 as int],
                            self.pairs()[self.edges()[e2 as int].2 as int],
                            self.pairs()[self.edges()[e3 as int].2 as int],
                        ],
                    ),
                ),
                _ => None,
            }
        } else {
            None
        }
    }

    /// The triangles through `stable` with `l[i]` as intermediate token and a target among
    /// `l[i + 1 .. j]`, in that order.
    pub open spec fn row_triangles(&self, stable: Seq<char>, l: Seq<Seq<char>>, i: int, j: int) -> Seq<TriangleView>
        decreases j - i,
    {
        if j <= i + 1 {
            Seq::empty()
        } else {
            let prev = self.row_triangles(stable, l, i, j - 1);
            match self.spec_triangle(stable, l[i], l[j - 1]) {
                Some(t) => prev.push(t),
                None => prev,
            }
        }
    }

    /// The triangles through `stable` with an intermediate among `l[0 .. i]` and a later
    /// target in `l`, row by row.
    pub open spec fn rows_triangles(&self, stable: Seq<char>, l: Seq<Seq<char>>, i: int) -> Seq<TriangleView>
        decreases i,
    {
        if i <= 0 {
            Seq::empty()
        } else {
            self.rows_triangles(stable, l, i - 1) + self.row_triangles(stable, l, i - 1, l.len() as int)
        }
    }

    /// The triangles through `stable`: every two tokens quoted in it, in the order added.
    pub open spec fn stable_triangles(&self, stable: Seq<char>) -> Seq<TriangleView> {
        if self.from_stable().contains_key(stable) {
            let l = self.from_stable()[stable];
            self.rows_triangles(stable, l, l.len() as int)
        } else {
            Seq::empty()
        }
    }

    /// The triangles through the first `n` stablecoins of `order`.
    pub open spec fn all_triangles(&self, order: Seq<Seq<char>>, n: int) -> Seq<TriangleView>
        decreases n,
    {
        if n <= 0 {
            Seq::empty()
        } else {
            self.all_triangles(order, n - 1) + self.stable_triangles(order[n - 1])
        }
    }

    fn try_build_stable_triangle(&self, stable: &String, token_b: &String, token_c: &String) -> (r: Option<Triangle>)
        requires
            self.wf(),
        ensures
            match r {
                Some(t) => self.spec_triangle(stable@, token_b@, token_c@) == Some(t@),
                None => self.spec_triangle(stable@, token_b@, token_c@) is None,
            },
    {
        let stable_node = node_map_get(&self.token_to_node, stable.as_str());
        let node_b = node_map_get(&self.token_to_node, token_b.as_str());
        let node_c = node_map_get(&self.token_to_node, token_c.as_str());
        if let (Some(stable_node), Some(node_b), Some(node_c)) = (stable_node, node_b, node_c) {
            let edge_stable_to_b = graph_find_edge(&self.graph, stable_node, node_b);
            let edge_b_to_c = graph_find_edge(&self.graph, node_b, node_c);
            let edge_c_to_stable = graph_find_edge(&self.graph, node_c, stable_node);
            if let (Some(sb), Some(bc), Some(cs)) = (edge_stable_to_b, edge_b_to_c, edge_c_to_stable) {
                proof {
                    lemma_latest_edge_in_range(self.edges(), stable_node as nat, node_b as nat);
                    lemma_latest_edge_in_range(self.edges(), node_b as nat, node_c as nat);
                    lemma_latest_edge_in_range(self.edges(), node_c as nat, stable_node as nat);
                }
                let pair_sb = self.edge_pairs[graph_edge_weight(&self.graph, sb)].copy();
                let pair_bc = self.edge_pairs[graph_edge_weight(&self.graph, bc)].copy();
                let pair_cs = self.edge_pairs[graph_edge_weight(&self.graph, cs)].copy();
                return Some(
                    Triangle::new(
                        stable.clone(),
                        token_b.clone(),
                        token_c.clone(),
                        pair_sb,
                        pair_bc,
                        pair_cs,
                    ),
                );
            }
        }
        None
    }

    /// The triangles through each stablecoin of `order`, in turn.
    fn collect_triangles(&self, order: &Vec<String>) -> (r: Vec<Triangle>)
        requires
            self.wf(),
        ensures
            triangle_views(r@) == self.all_triangles(
                order@.map_values(|t: String| t@),
                order@.len() as int,
            ),
    {
        let ghost ord = order@.map_values(|t: String| t@);
        let mut result: Vec<Triangle> = Vec::new();
        let mut k: usize = 0;
        assert(triangle_views(result@) =~= Seq::<TriangleView>::empty());
        while k < order.len()
            invariant
                self.wf(),
                k <= order@.len(),
                ord == order@.map_values(|t: String| t@),
                triangle_views(result@) == self.all_triangles(ord, k as int),
            decreases order.len() - k,
        {
            let stablecoin = &order[k];
            let ghost before = triangle_views(result@);
            if let Some(tokens_from_stable) = token_lists_get(&self.pairs_from_stable, stablecoin.as_str()) {
                let ghost l = tokens_from_stable@.map_values(|t: String| t@);
                assert(l == self.from_stable()[stablecoin@]);
                let n = tokens_from_stable.len();
                let mut i: usize = 0;
                while i < n
                    invariant
                        self.wf(),
                        i <= n,
                        n == tokens_from_stable@.len(),
                        l == tokens_from_stable@.map_values(|t: String| t@),
                        triangle_views(result@) == before + self.rows_triangles(stablecoin@, l, i as int),
                    decreases n - i,
                {
                    let mut j: usize = i + 1;
                    while j < n
                        invariant
                            self.wf(),
                            i < n,
                            i + 1 <= j <= n,
                            n == tokens_from_stable@.len(),
                            l == tokens_from_stable@.map_values(|t: String| t@),
                            triangle_views(result@) == before + self.rows_triangles(stablecoin@, l, i as int)
                                + self.row_triangles(stablecoin@, l, i as int, j as int),
                        decreases n - j,
                    {
                        let token_b = &tokens_from_stable[i];
                        let token_c = &tokens_from_stable[j];
                        let ghost prev = result@;
                        if let Some(triangle) = self.try_build_stable_triangle(stablecoin, token_b, token_c) {
                            result.push(triangle);
                            assert(triangle_views(result@) =~= triangle_views(prev).push(triangle@));
                        }
                        j = j + 1;
                    }
                    assert(self.rows_triangles(stablecoin@, l, i + 1) == self.rows_triangles(
                        stablecoin@,
                        l,
                        i as int,
                    ) + self.row_triangles(stablecoin@, l, i as int, l.len() as int));
                    i = i + 1;
                }
                assert(triangle_views(result@) =~= self.all_triangles(ord, k + 1));
            } else {
                assert(self.all_triangles(ord, k + 1) =~= self.all_triangles(ord, k as int));
            }
            k = k + 1;
        }
        result
    }

    fn build_triangle_indices(&mut self)
        requires
            old(self).by_stablecoin().dom().is_empty(),
            old(self).by_intermediate().dom().is_empty(),
            old(self).by_target().dom().is_empty(),
        ensures
            final(self).graph == old(self).graph,
            final(self).edge_pairs == old(self).edge_pairs,
            final(self).token_to_node == old(self).token_to_node,
            final(self).stablecoins == old(self).stablecoins,
            final(self).regular_tokens == old(self).regular_tokens,
            final(self).pairs_from_stable == old(self).pairs_from_stable,
            final(self).pairs_to_stable == old(self).pairs_to_stable,
            final(self).triangles@ == old(self).triangles@,
            final(self).by_stablecoin() == position_index(triangle_views(old(self).triangles@), 0),
            final(self).by_intermediate() == position_index(triangle_views(old(self).triangles@), 1),
            final(self).by_target() == position_index(triangle_views(old(self).triangles@), 2),
            final(self).by_symbol() == symbol_index_extended(
                old(self).by_symbol(),
                triangle_views(old(self).triangles@),
            ),
    {
        let ghost ts = triangle_views(self.triangles@);
        let ghost old_symbols = self.by_symbol();
        let n = self.triangles.len();
        let mut idx: usize = 0;
        proof {
            assert(position_index(ts.take(0), 0) =~= self.by_stablecoin());
            assert(position_index(ts.take(0), 1) =~= self.by_intermediate());
            assert(position_index(ts.take(0), 2) =~= self.by_target());
            assert(symbol_index_extended(old_symbols, ts.take(0)) =~= old_symbols);
        }
        while idx < n
            invariant
                idx <= n,
                n == self.triangles@.len(),
                ts == triangle_views(self.triangles@),
                self.graph == old(self).graph,
                self.edge_pairs == old(self).edge_pairs,
                self.token_to_node == old(self).token_to_node,
                self.stablecoins == old(self).stablecoins,
                self.regular_tokens == old(self).regular_tokens,
                self.pairs_from_stable == old(self).pairs_from_stable,
                self.pairs_to_stable == old(self).pairs_to_stable,
                self.triangles@ == old(self).triangles@,
                old_symbols == old(self).by_symbol(),
                self.by_stablecoin() == position_index(ts.take(idx as int), 0),
                self.by_intermediate() == position_index(ts.take(idx as int), 1),
                self.by_target() == position_index(ts.take(idx as int), 2),
                self.by_symbol() == symbol_index_extended(old_symbols, ts.take(idx as int)),
            decreases n - idx,
        {
            let ghost pre = ts.take(idx as int);
            let ghost post = ts.take(idx + 1);
            proof {
                assert(post.drop_last() =~= pre);
                assert(post.last() == ts[idx as int]);
            }
            let stablecoin = self.triangles[idx].stablecoin.clone();
            let intermediate = self.triangles[idx].intermediate_token.clone();
            let target = self.triangles[idx].target_token.clone();
            let symbol0 = self.triangles[idx].pairs[0].symbol.clone();
            let symbol1 = self.triangles[idx].pairs[1].symbol.clone();
            let symbol2 = self.triangles[idx].pairs[2].symbol.clone();
            index_map_push(&mut self.triangles_by_stablecoin, &stablecoin, idx);
            let ghost after_stable = self.by_stablecoin();
            index_map_push(&mut self.triangles_by_intermediate, &intermediate, idx);
            let ghost after_intermediate = self.by_intermediate();
            index_map_push(&mut self.triangles_by_target, &target, idx);
            let ghost m0 = self.by_symbol();
            index_map_push(&mut self.triangles_by_symbol, &symbol0, idx);
            let ghost m1 = self.by_symbol();
            index_map_push(&mut self.triangles_by_symbol, &symbol1, idx);
            let ghost m2 = self.by_symbol();
            index_map_push(&mut self.triangles_by_symbol, &symbol2, idx);
            let ghost m3 = self.by_symbol();
            proof {
                assert(stablecoin@ == field_of(post.last(), 0));
                assert(intermediate@ == field_of(post.last(), 1));
                assert forall|k: Seq<char>, f: int| #![auto] positions(post, f, k) == (if field_of(
                    post.last(),
                    f,
                ) == k {
                    positions(pre, f, k).push(idx)
                } else {
                    positions(pre, f, k)
                }) by {}
                assert forall|k: Seq<char>, f: int| #![auto] positions(pre, f, k).len() == 0 implies positions(
                    pre,
                    f,
                    k,
                ) == Seq::<usize>::empty() by {
                    assert(positions(pre, f, k) =~= Seq::<usize>::empty());
                }
                assert(self.by_stablecoin() == after_stable);
                assert(after_stable =~= position_index(post, 0));
                assert(self.by_intermediate() =~= position_index(post, 1));
                assert(self.by_target() =~= position_index(post, 2));
                let t = ts[idx as int];
                assert(post =~= pre.push(t));
                lemma_symbol_index_step(old_symbols, pre, t, idx, m0);
                assert(self.by_symbol() =~= symbol_index_extended(old_symbols, post));
            }
            idx = idx + 1;
        }
        proof {
            assert(ts.take(n as int) =~= ts);
        }
    }

    /// `t` is a cycle through the stablecoin `s`: its first pair joins `s` and B, the
    /// second B and C, the third C and `s`.
    pub open spec fn cycle_through(t: TriangleView, s: Seq<char>) -> bool {
        &&& t.0 == s
        &&& t.3.len() == 3
        &&& joins(t.3[0], t.0, t.1)
        &&& joins(t.3[1], t.1, t.2)
        &&& joins(t.3[2], t.2, t.0)
    }

    /// `t` goes through `s`, is made of three added pairs, and its intermediate and target
    /// tokens are among `l`.
    pub open spec fn built_from(&self, t: TriangleView, s: Seq<char>, l: Seq<Seq<char>>) -> bool {
        &&& Self::cycle_through(t, s)
        &&& self.pairs().contains(t.3[0])
        &&& self.pairs().contains(t.3[1])
        &&& self.pairs().contains(t.3[2])
        &&& l.contains(t.1)
        &&& l.contains(t.2)
    }

    /// A listed triangle: a cycle through its stablecoin, made of three added pairs, whose
    /// intermediate and target tokens are both quoted in the stablecoin (they are listed
    /// under it in `from_stable`).
    pub open spec fn listed(&self, t: TriangleView) -> bool {
        &&& self.from_stable().contains_key(t.0)
        &&& self.built_from(t, t.0, self.from_stable()[t.0])
    }

    proof fn lemma_spec_triangle_cycle(&self, s: Seq<char>, b: Seq<char>, c: Seq<char>)
        requires
            self.wf(),
        ensures
            self.spec_triangle(s, b, c) matches Some(t) ==> Self::cycle_through(t, s) && t.1 == b && t.2 == c
                && self.pairs().contains(t.3[0]) && self.pairs().contains(t.3[1]) && self.pairs().contains(t.3[2]),
    {
        let tn = self.token_nodes();
        if tn.contains_key(s) && tn.contains_key(b) && tn.contains_key(c) {
            let ns = tn[s] as nat;
            let nb = tn[b] as nat;
            let nc = tn[c] as nat;
            lemma_latest_edge_in_range(self.edges(), ns, nb);
            lemma_latest_edge_in_range(self.edges(), nb, nc);
            lemma_latest_edge_in_range(self.edges(), nc, ns);
            if let (Some(e1), Some(e2), Some(e3)) = (
                latest_edge(self.edges(), ns, nb),
                latest_edge(self.edges(), nb, nc),
                latest_edge(self.edges(), nc, ns),
            ) {
                assert(self.edges()[e1 as int] == self.edges()[e1 as int]);
                assert(self.edges()[e2 as int] == self.edges()[e2 as int]);
                assert(self.edges()[e3 as int] == self.edges()[e3 as int]);
                let t = self.spec_triangle(s, b, c).unwrap();
                let w1 = self.edges()[e1 as int].2 as int;
                let w2 = self.edges()[e2 as int].2 as int;
                let w3 = self.edges()[e3 as int].2 as int;
                assert(t.3[0] == self.pairs()[w1]);
                assert(t.3[1] == self.pairs()[w2]);
                assert(t.3[2] == self.pairs()[w3]);
            }
        }
    }

    proof fn lemma_row_cycles(&self, s: Seq<char>, l: Seq<Seq<char>>, i: int, j: int)
        requires
            self.wf(),
            0 <= i,
            j <= l.len(),
        ensures
            forall|x: int|
                0 <= x < self.row_triangles(s, l, i, j).len() ==> self.built_from(
                    #[trigger] self.row_triangles(s, l, i, j)[x],
                    s,
                    l,
                ),
        decreases j - i,
    {
        if j > i + 1 {
            self.lemma_row_cycles(s, l, i, j - 1);
            self.lemma_spec_triangle_cycle(s, l[i], l[j - 1]);
            let prev = self.row_triangles(s, l, i, j - 1);
            if let Some(t) = self.spec_triangle(s, l[i], l[j - 1]) {
                assert(l.contains(l[i]));
                assert(l.contains(l[j - 1]));
                assert forall|x: int| 0 <= x < prev.push(t).len() implies self.built_from(
                    #[trigger] prev.push(t)[x],
                    s,
                    l,
                ) by {
                    if x < prev.len() {
                        assert(prev.push(t)[x] == prev[x]);
                    }
                }
            }
        }
    }

    proof fn lemma_rows_cycles(&self, s: Seq<char>, l: Seq<Seq<char>>, i: int)
        requires
            self.wf(),
            i <= l.len(),
        ensures
            forall|x: int|
                0 <= x < self.rows_triangles(s, l, i).len() ==> self.built_from(
                    #[trigger] self.rows_triangles(s, l, i)[x],
                    s,
                    l,
                ),
        decreases i,
    {
        if i > 0 {
            self.lemma_rows_cycles(s, l, i - 1);
            self.lemma_row_cycles(s, l, i - 1, l.len() as int);
            let a = self.rows_triangles(s, l, i - 1);
            let b = self.row_triangles(s, l, i - 1, l.len() as int);
            assert forall|x: int| 0 <= x < (a + b).len() implies self.built_from(#[trigger] (a + b)[x], s, l) by {
                if x >= a.len() {
                    assert((a + b)[x] == b[x - a.len()]);
                }
            }
        }
    }

    proof fn lemma_all_cycles(&self, order: Seq<Seq<char>>, n: int)
        requires
            self.wf(),
            n <= order.len(),
        ensures
            forall|x: int|
                0 <= x < self.all_triangles(order, n).len() ==> {
                    let t = #[trigger] self.all_triangles(order, n)[x];
                    order.contains(t.0) && self.listed(t)
                },
        decreases n,
    {
        if n > 0 {
            self.lemma_all_cycles(order, n - 1);
            let s = order[n - 1];
            let a = self.all_triangles(order, n - 1);
            let b = self.stable_triangles(s);
            if self.from_stable().contains_key(s) {
                let l = self.from_stable()[s];
                self.lemma_rows_cycles(s, l, l.len() as int);
            }
            assert forall|x: int| 0 <= x < (a + b).len() implies {
                let t = #[trigger] (a + b)[x];
                order.contains(t.0) && self.listed(t)
            } by {
                if x >= a.len() {
                    assert((a + b)[x] == b[x - a.len()]);
                    assert(order[n - 1] == s);
                }
            }
        }
    }

    proof fn lemma_row_contains(&self, s: Seq<char>, l: Seq<Seq<char>>, i: int, j: int, k: int)
        requires
            i < k < j,
            self.spec_triangle(s, l[i], l[k]) is Some,
        ensures
            self.row_triangles(s, l, i, j).contains(self.spec_triangle(s, l[i], l[k]).unwrap()),
        decreases j - i,
    {
        let t = self.spec_triangle(s, l[i], l[k]).unwrap();
        let prev = self.row_triangles(s, l, i, j - 1);
        if k == j - 1 {
            assert(self.row_triangles(s, l, i, j) == prev.push(t));
            assert(prev.push(t)[prev.len() as int] == t);
        } else {
            self.lemma_row_contains(s, l, i, j - 1, k);
            let x = choose|x: int| 0 <= x < prev.len() && prev[x] == t;
            match self.spec_triangle(s, l[i], l[j - 1]) {
                Some(u) => {
                    assert(prev.push(u)[x] == t);
                },
                None => {},
            }
        }
    }

    proof fn lemma_rows_contains(&self, s: Seq<char>, l: Seq<Seq<char>>, n: int, i: int, k: int)
        requires
            0 <= i < n,
            i < k < l.len(),
            self.spec_triangle(s, l[i], l[k]) is Some,
        ensures
            self.rows_triangles(s, l, n).contains(self.spec_triangle(s, l[i], l[k]).unwrap()),
        decreases n,
    {
        let t = self.spec_triangle(s, l[i], l[k]).unwrap();
        let a = self.rows_triangles(s, l, n - 1);
        let b = self.row_triangles(s, l, n - 1, l.len() as int);
        assert(self.rows_triangles(s, l, n) == a + b);
        if i == n - 1 {
            self.lemma_row_contains(s, l, i, l.len() as int, k);
            let x = choose|x: int| 0 <= x < b.len() && b[x] == t;
            assert((a + b)[a.len() + x] == t);
        } else {
            self.lemma_rows_contains(s, l, n - 1, i, k);
            let x = choose|x: int| 0 <= x < a.len() && a[x] == t;
            assert((a + b)[x] == t);
        }
    }

    proof fn lemma_all_contains(&self, order: Seq<Seq<char>>, n: int, m: int, i: int, k: int)
        requires
            0 <= m < n <= order.len(),
            self.from_stable().contains_key(order[m]),
            0 <= i < k < self.from_stable()[order[m]].len(),
            self.spec_triangle(order[m], self.from_stable()[order[m]][i], self.from_stable()[order[m]][k]) is Some,
        ensures
            self.all_triangles(order, n).contains(
                self.spec_triangle(order[m], self.from_stable()[order[m]][i], self.from_stable()[order[m]][k]).unwrap(),
            ),
        decreases n,
    {
        let s = order[m];
        let l = self.from_stable()[s];
        let t = self.spec_triangle(s, l[i], l[k]).unwrap();
        let a = self.all_triangles(order, n - 1);
        let b = self.stable_triangles(order[n - 1]);
        assert(self.all_triangles(order, n) == a + b);
        if m == n - 1 {
            self.lemma_rows_contains(s, l, l.len() as int, i, k);
            assert(b == self.rows_triangles(s, l, l.len() as int));
            let x = choose|x: int| 0 <= x < b.len() && b[x] == t;
            assert((a + b)[a.len() + x] == t);
        } else {
            self.lemma_all_contains(order, n - 1, m, i, k);
            let x = choose|x: int| 0 <= x < a.len() && a[x] == t;
            assert((a + b)[x] == t);
        }
    }

    /// Each added pair has its two edges: pair `w` joins its base to its quote by edge `2w`
    /// and its quote to its base by edge `2w + 1`.
    pub open spec fn pairs_have_edges(&self) -> bool {
        &&& self.edges().len() == 2 * self.pairs().len()
        &&& forall|w: int|
            #![trigger self.pairs()[w]]
            0 <= w < self.pairs().len() ==> {
                let p = self.pairs()[w];
                &&& self.token_nodes().contains_key(p.0)
                &&& self.token_nodes().contains_key(p.1)
                &&& self.edges()[2 * w] == (
                    self.token_nodes()[p.0] as nat,
                    self.token_nodes()[p.1] as nat,
                    w as nat,
                )
                &&& self.edges()[2 * w + 1] == (
                    self.token_nodes()[p.1] as nat,
                    self.token_nodes()[p.0] as nat,
                    w as nat,
                )
            }
    }

    proof fn lemma_joined_has_edge(&self, w: int, a: Seq<char>, b: Seq<char>)
        requires
            self.pairs_have_edges(),
            0 <= w < self.pairs().len(),
            joins(self.pairs()[w], a, b),
        ensures
            self.token_nodes().contains_key(a),
            self.token_nodes().contains_key(b),
            latest_edge(self.edges(), self.token_nodes()[a] as nat, self.token_nodes()[b] as nat) is Some,
    {
        let p = self.pairs()[w];
        let tn = self.token_nodes();
        if p.0 == a && p.1 == b {
            lemma_latest_edge_exists(self.edges(), 2 * w, tn[a] as nat, tn[b] as nat);
        } else {
            lemma_latest_edge_exists(self.edges(), 2 * w + 1, tn[a] as nat, tn[b] as nat);
        }
    }

    /// Where a pair joins each step of the cycle `s -> b -> c -> s`, the triangle exists.
    proof fn lemma_cycle_has_triangle(&self, s: Seq<char>, b: Seq<char>, c: Seq<char>, w1: int, w2: int, w3: int)
        requires
            self.pairs_have_edges(),
            0 <= w1 < self.pairs().len(),
            0 <= w2 < self.pairs().len(),
            0 <= w3 < self.pairs().len(),
            joins(self.pairs()[w1], s, b),
            joins(self.pairs()[w2], b, c),
            joins(self.pairs()[w3], c, s),
        ensures
            self.spec_triangle(s, b, c) is Some,
    {
        self.lemma_joined_has_edge(w1, s, b);
        self.lemma_joined_has_edge(w2, b, c);
        self.lemma_joined_has_edge(w3, c, s);
    }

    /// Every two tokens listed under a stablecoin of `order`, the earlier as B and the later
    /// as C, whose cycle stablecoin -> B -> C -> stablecoin has an edge at each step, give a
    /// triangle that is among the triangles built for `order`.
    pub proof fn law_listed_cycles_are_built(&self, order: Seq<Seq<char>>, s: Seq<char>, i: int, j: int)
        requires
            order.contains(s),
            self.from_stable().contains_key(s),
            0 <= i < j < self.from_stable()[s].len(),
            self.spec_triangle(s, self.from_stable()[s][i], self.from_stable()[s][j]) is Some,
        ensures
            self.all_triangles(order, order.len() as int).contains(
                self.spec_triangle(s, self.from_stable()[s][i], self.from_stable()[s][j]).unwrap(),
            ),
    {
        let m = choose|m: int| 0 <= m < order.len() && order[m] == s;
        self.lemma_all_contains(order, order.len() as int, m, i, j);
    }

    /// Lists the triangles through every stablecoin (each pair of tokens quoted in it,
    /// in the order the pairs were added; the stablecoins in the order their set yields
    /// them) and indexes them by stablecoin, intermediate and target token and by symbol.
    /// The symbol index is not cleared first: positions are appended to what it held.
    pub fn build_triangles(&mut self)
        requires
            old(self).wf(),
        ensures
            final(self).wf(),
            final(self).nodes() == old(self).nodes(),
            final(self).edges() == old(self).edges(),
            final(self).pairs() == old(self).pairs(),
            final(self).token_nodes() == old(self).token_nodes(),
            final(self).stablecoin_set() == old(self).stablecoin_set(),
            final(self).regular_token_set() == old(self).regular_token_set(),
            final(self).from_stable() == old(self).from_stable(),
            final(self).to_stable() == old(self).to_stable(),
            exists|order: Seq<Seq<char>>|
                {
                    &&& order.no_duplicates()
                    &&& order.to_set() == old(self).stablecoin_set()
                    &&& triangle_views(final(self).triangle_list()) == old(self).all_triangles(
                        order,
                        order.len() as int,
                    )
                },
            forall|i: int|
                0 <= i < final(self).triangle_list().len() ==> {
                    let t = #[trigger] final(self).triangle_list()[i]@;
                    &&& final(self).stablecoin_set().contains(t.0)
                    &&& Self::cycle_through(t, t.0)
                    &&& final(self).listed(t)
                },
            old(self).from_stable().dom().is_empty() ==> final(self).triangle_list().len() == 0,
            final(self).by_stablecoin() == position_index(triangle_views(final(self).triangle_list()), 0),
            final(self).by_intermediate() == position_index(
                triangle_views(final(self).triangle_list()),
                1,
            ),
            final(self).by_target() == position_index(triangle_views(final(self).triangle_list()), 2),
            final(self).by_symbol() == symbol_index_extended(
                old(self).by_symbol(),
                triangle_views(final(self).triangle_list()),
            ),
        old(self).by_symbol().dom().is_empty() ==> final(self).symbol_index_in_range(),
    {
        let order = name_set_members(&self.stablecoins);
        let found = self.collect_triangles(&order);
        let ghost ord = order@.map_values(|t: String| t@);
        proof {
            self.lemma_all_cycles(ord, ord.len() as int);
        }
        self.triangles = found;
        index_map_clear(&mut self.triangles_by_stablecoin);
        index_map_clear(&mut self.triangles_by_intermediate);
        index_map_clear(&mut self.triangles_by_target);
        self.build_triangle_indices();
        proof {
            assert(self.graph == old(self).graph);
            assert(self.edge_pairs == old(self).edge_pairs);
            assert(self.token_to_node == old(self).token_to_node);
            assert(self.nodes() == old(self).nodes());
            assert(self.edges() == old(self).edges());
            assert(self.token_nodes() == old(self).token_nodes());
            assert forall|i: int| 0 <= i < self.triangle_list().len() implies {
                let t = #[trigger] self.triangle_list()[i]@;
                self.stablecoin_set().contains(t.0) && Self::cycle_through(t, t.0)
            } by {
                let t = self.triangle_list()[i]@;
                assert(triangle_views(self.triangles@)[i] == t);
                assert(ord.contains(t.0));
                assert(ord.to_set().contains(t.0));
            }
            assert forall|i: int| 0 <= i < self.triangle_list().len() implies self.listed(
                #[trigger] self.triangle_list()[i]@,
            ) by {
                let t = self.triangle_list()[i]@;
                assert(triangle_views(self.triangles@)[i] == t);
            }
            if old(self).from_stable().dom().is_empty() && self.triangle_list().len() > 0 {
                let t = self.triangle_list()[0]@;
                assert(self.listed(t));
                assert(old(self).from_stable().dom().contains(t.0));
            }
        }
        let built: usize = self.triangles.len();
        proof {
            if old(self).by_symbol().dom().is_empty() {
                let ts = triangle_views(self.triangle_list());
                assert(ts.len() == built);
                assert forall|k: Seq<char>, x: int|
                    0 <= x < list_or_empty(self.by_symbol(), k).len() implies #[trigger] list_or_empty(
                        self.by_symbol(),
                        k,
                    )[x] < self.triangle_list().len() by {
                    lemma_fresh_symbol_index(old(self).by_symbol(), ts, k);
                    lemma_symbol_positions_exact(ts, k);
                    assert(symbol_positions(ts, k)[x] < ts.len());
                }
            }
        }
    }

    /// Whether every position listed under `symbol` in the symbol index is a position of
    /// the triangle list: the condition on which `get_triangles_by_symbol(symbol)` reads only
    /// existing triangles.
    pub fn symbol_positions_in_range(&self, symbol: &str) -> (r: bool)
        ensures
            r == (forall|x: int|
                0 <= x < list_or_empty(self.by_symbol(), symbol@).len() ==> #[trigger] list_or_empty(
                    self.by_symbol(),
                    symbol@,
                )[x] < self.triangle_list().len()),
    {
        match index_map_get(&self.triangles_by_symbol, symbol) {
            None => {
                assert(list_or_empty(self.by_symbol(), symbol@) =~= Seq::<usize>::empty());
                true
            },
            Some(indices) => {
                assert(indices@ == list_or_empty(self.by_symbol(), symbol@));
                let mut k: usize = 0;
                while k < indices.len()
                    invariant
                        k <= indices@.len(),
                        indices@ == list_or_empty(self.by_symbol(), symbol@),
                        forall|x: int| 0 <= x < k ==> #[trigger] indices@[x] < self.triangles@.len(),
                    decreases indices.len() - k,
                {
                    if indices[k] >= self.triangles.len() {
                        return false;
                    }
                    k = k + 1;
                }
                true
            },
        }
    }

    /// The triangles listed under `symbol` in the symbol index, in index order (a
    /// triangle appears once for each of its pairs with that symbol).
    pub fn get_triangles_by_symbol(&self, symbol: &str) -> (r: Vec<&Triangle>)
        requires
            forall|x: int|
                0 <= x < list_or_empty(self.by_symbol(), symbol@).len() ==> #[trigger] list_or_empty(
                    self.by_symbol(),
                    symbol@,
                )[x] < self.triangle_list().len(),
        ensures
            r@.len() == list_or_empty(self.by_symbol(), symbol@).len(),
            forall|x: int|
                0 <= x < r@.len() ==> #[trigger] r@[x]@ == self.triangle_list()[list_or_empty(
                    self.by_symbol(),
                    symbol@,
                )[x] as int]@,
    {
        let mut result: Vec<&Triangle> = Vec::new();
        if let Some(indices) = index_map_get(&self.triangles_by_symbol, symbol) {
            let mut k: usize = 0;
            assert(indices@ == list_or_empty(self.by_symbol(), symbol@));
            assert forall|x: int| 0 <= x < indices@.len() implies #[trigger] indices@[x] < self.triangles@.len() by {
                assert(list_or_empty(self.by_symbol(), symbol@)[x] < self.triangle_list().len());
            }
            while k < indices.len()
                invariant
                    k <= indices@.len(),
                    indices@ == list_or_empty(self.by_symbol(), symbol@),
                    forall|x: int| 0 <= x < indices@.len() ==> #[trigger] indices@[x] < self.triangles@.len(),
                    result@.len() == k,
                    forall|x: int| 0 <= x < k ==> #[trigger] result@[x]@ == self.triangles@[indices@[x] as int]@,
                decreases indices.len() - k,
            {
                let idx = indices[k];
                result.push(&self.triangles[idx]);
                k = k + 1;
            }
        }
        result
    }
}

/// A listed triangle A -> B -> C -> A of a graph whose caches come from its pairs was made
/// where pairs B/A and C/A (base B, resp. C, quoted in A) were added.
pub proof fn lemma_listed_quoted_pairs(g: &ArbitrageGraph, t: TriangleView)
    requires
        g.listed(t),
        g.caches_from_pairs(),
    ensures
        exists|w: int| 0 <= w < g.pairs().len() && #[trigger] g.pairs()[w].0 == t.1 && g.pairs()[w].1 == t.0,
        exists|w: int| 0 <= w < g.pairs().len() && #[trigger] g.pairs()[w].0 == t.2 && g.pairs()[w].1 == t.0,
{
    assert(g.from_stable()[t.0].contains(t.1));
    assert(g.from_stable()[t.0].contains(t.2));
}

/// The three tokens of a cycle are pairwise distinct wherever each of its pairs trades two
/// different assets (a pair whose base is its quote would let a token meet itself).
pub proof fn lemma_cycle_tokens_distinct(t: TriangleView)
    requires
        ArbitrageGraph::cycle_through(t, t.0),
        t.3[0].0 != t.3[0].1,
        t.3[1].0 != t.3[1].1,
        t.3[2].0 != t.3[2].1,
    ensures
        t.0 != t.1,
        t.1 != t.2,
        t.2 != t.0,
{
}

/// The view of the pair made from `info`.
pub open spec fn pair_of(info: PairInfo) -> PairView {
    (info.base_asset@, info.quote_asset@, info.symbol@, info@)
}

/// A pair quoted in a stablecoin is recorded in the stablecoin caches whatever its base,
/// a stablecoin too: after the update the base is listed under the stablecoin and the
/// stablecoin under the base, and every token listed before under a stablecoin stays
/// listed; a pair whose quote is no stablecoin leaves the caches as they were.
pub proof fn law_pair_quoted_in_stablecoin_is_recorded(before: ArbitrageGraph, after: ArbitrageGraph, pair: PairView)
    requires
        (after.from_stable(), after.to_stable()) == ArbitrageGraph::caches_after(
            before.from_stable(),
            before.to_stable(),
            before.stablecoin_set(),
            pair,
        ),
    ensures
        before.stablecoin_set().contains(pair.1) ==> {
            &&& after.from_stable().contains_key(pair.1)
            &&& after.from_stable()[pair.1].contains(pair.0)
            &&& after.to_stable().contains_key(pair.0)
            &&& after.to_stable()[pair.0].contains(pair.1)
        },
        forall|s: Seq<char>, b: Seq<char>|
            before.from_stable().contains_key(s) && #[trigger] before.from_stable()[s].contains(b)
                ==> after.from_stable().contains_key(s) && after.from_stable()[s].contains(b),
        !before.stablecoin_set().contains(pair.1) ==> after.from_stable() == before.from_stable()
            && after.to_stable() == before.to_stable(),
{
    let f = before.from_stable();
    let t = before.to_stable();
    if before.stablecoin_set().contains(pair.1) {
        let lf = if f.contains_key(pair.1) { f[pair.1] } else { Seq::empty() };
        let lt = if t.contains_key(pair.0) { t[pair.0] } else { Seq::empty() };
        assert(after.from_stable()[pair.1] == lf.push(pair.0));
        assert(lf.push(pair.0)[lf.len() as int] == pair.0);
        assert(after.to_stable()[pair.0] == lt.push(pair.1));
        assert(lt.push(pair.1)[lt.len() as int] == pair.1);
        assert forall|s: Seq<char>, b: Seq<char>|
            f.contains_key(s) && #[trigger] f[s].contains(b) implies after.from_stable().contains_key(s)
                && after.from_stable()[s].contains(b) by {
            if s == pair.1 {
                let k = choose|k: int| 0 <= k < f[s].len() && f[s][k] == b;
                assert(lf.push(pair.0)[k] == b);
            }
        }
    }
}

/// Extending an empty symbol index gives, under each symbol, its positions.
pub proof fn lemma_fresh_symbol_index(old: Map<Seq<char>, Seq<usize>>, ts: Seq<TriangleView>, k: Seq<char>)
    requires
        old.dom().is_empty(),
    ensures
        list_or_empty(symbol_index_extended(old, ts), k) == symbol_positions(ts, k),
{
    assert(!old.contains_key(k));
    if symbol_positions(ts, k).len() == 0 {
        assert(symbol_positions(ts, k) =~= Seq::<usize>::empty());
    } else {
        assert(Seq::<usize>::empty() + symbol_positions(ts, k) =~= symbol_positions(ts, k));
    }
}

/// The graph of `pairs_info` with `stablecoins`, its triangles built and indexed.
pub fn init_graph(stablecoins: Vec<&str>, pairs_info: Vec<PairInfo>) -> (r: ArbitrageGraph)
    requires
        2 * pairs_info@.len() + 2 <= u32::MAX,
    ensures
        r.wf(),
        r.stablecoin_set() == stablecoins@.map_values(|s: &str| s@).to_set(),
        r.pairs() == pairs_info@.map_values(|p: PairInfo| pair_of(p)),
        exists|order: Seq<Seq<char>>|
            {
                &&& order.no_duplicates()
                &&& order.to_set() == r.stablecoin_set()
                &&& triangle_views(r.triangle_list()) == r.all_triangles(order, order.len() as int)
            },
        forall|i: int|
            0 <= i < r.triangle_list().len() ==> {
                let t = #[trigger] r.triangle_list()[i]@;
                &&& r.stablecoin_set().contains(t.0)
                &&& ArbitrageGraph::cycle_through(t, t.0)
                &&& r.listed(t)
            },
        r.caches_from_pairs(),
        forall|k: int|
            0 <= k < pairs_info@.len() && r.stablecoin_set().contains(#[trigger] pairs_info@[k].quote_asset@)
                ==> r.from_stable().contains_key(pairs_info@[k].quote_asset@) && r.from_stable()[pairs_info@[k].quote_asset@].contains(
                pairs_info@[k].base_asset@,
            ),
        forall|k: Seq<char>|
            #[trigger] list_or_empty(r.by_symbol(), k) == symbol_positions(triangle_views(r.triangle_list()), k),
        r.symbol_index_in_range(),
        forall|s: Seq<char>, i: int, j: int|
            r.stablecoin_set().contains(s) && r.from_stable().contains_key(s) && 0 <= i < j
                < r.from_stable()[s].len() && (#[trigger] r.spec_triangle(
                s,
                r.from_stable()[s][i],
                r.from_stable()[s][j],
            )) is Some ==> triangle_views(r.triangle_list()).contains(
                r.spec_triangle(s, r.from_stable()[s][i], r.from_stable()[s][j]).unwrap(),
            ),
        forall|s: Seq<char>, i: int, j: int, w: int|
            #![trigger r.from_stable()[s][i], r.from_stable()[s][j], pairs_info@[w]]
            r.stablecoin_set().contains(s) && r.from_stable().contains_key(s) && 0 <= i < j
                < r.from_stable()[s].len() && 0 <= w < pairs_info@.len() && joins(
                pair_of(pairs_info@[w]),
                r.from_stable()[s][i],
                r.from_stable()[s][j],
            ) ==> exists|x: int|
                0 <= x < r.triangle_list().len() && (#[trigger] r.triangle_list()[x])@.0 == s
                    && r.triangle_list()[x]@.1 == r.from_stable()[s][i] && r.triangle_list()[x]@.2
                    == r.from_stable()[s][j],
{
    let mut graph = ArbitrageGraph::new(stablecoins);
    let ghost stables = graph.stablecoin_set();
    let ghost infos = pairs_info@;
    let n = pairs_info.len();
    let mut i: usize = 0;
    while i < n
        invariant
            i <= n,
            n == infos.len(),
            2 * n + 2 <= u32::MAX,
            pairs_info@ == infos,
            graph.wf(),
            graph.stablecoin_set() == stables,
            graph.nodes().len() <= 2 * i,
            graph.edges().len() == 2 * i,
            graph.pairs() == infos.take(i as int).map_values(|p: PairInfo| pair_of(p)),
            graph.triangle_list().len() == 0,
            graph.by_symbol().dom().is_empty(),
            graph.caches_from_pairs(),
            graph.pairs_have_edges(),
            forall|k: int|
                0 <= k < i && stables.contains(#[trigger] infos[k].quote_asset@) ==> graph.from_stable().contains_key(
                    infos[k].quote_asset@,
                ) && graph.from_stable()[infos[k].quote_asset@].contains(infos[k].base_asset@),
        decreases n - i,
    {
        let info = pairs_info[i].copy();
        let ghost before = graph;
        let tp = TokenPair::new(info);
        let ghost pv = tp@;
        graph.add_token_pair(tp);
        proof {
            let np = graph.pairs();
            let op = before.pairs();
            let tn = graph.token_nodes();
            assert forall|w: int| #![trigger np[w]] 0 <= w < np.len() implies {
                let p = np[w];
                &&& tn.contains_key(p.0)
                &&& tn.contains_key(p.1)
                &&& graph.edges()[2 * w] == (tn[p.0] as nat, tn[p.1] as nat, w as nat)
                &&& graph.edges()[2 * w + 1] == (tn[p.1] as nat, tn[p.0] as nat, w as nat)
            } by {
                if w < op.len() {
                    assert(np[w] == op[w]);
                    assert(before.token_nodes().contains_key(op[w].0));
                    assert(before.token_nodes().contains_key(op[w].1));
                    assert(graph.edges()[2 * w] == before.edges()[2 * w]);
                    assert(graph.edges()[2 * w + 1] == before.edges()[2 * w + 1]);
                } else {
                    assert(np[w] == pv);
                }
            }
            assert(graph.pairs_have_edges());
            assert forall|k: int|
                0 <= k < i + 1 && stables.contains(#[trigger] infos[k].quote_asset@) implies graph.from_stable().contains_key(
                infos[k].quote_asset@,
            ) && graph.from_stable()[infos[k].quote_asset@].contains(infos[k].base_asset@) by {
                if k == i {
                    let l = graph.from_stable()[infos[k].quote_asset@];
                    assert(l[l.len() - 1] == infos[k].base_asset@);
                } else {
                    assert(before.from_stable()[infos[k].quote_asset@].contains(infos[k].base_asset@));
                }
            }
            assert(pair_of(infos[i as int]) == (infos[i as int].base_asset@, infos[i as int].quote_asset@, infos[i as int].symbol@, info@));
            assert(infos.take(i + 1).map_values(|p: PairInfo| pair_of(p)) =~= infos.take(i as int).map_values(
                |p: PairInfo| pair_of(p),
            ).push(pair_of(infos[i as int])));
        }
        i = i + 1;
    }
    let ghost before_build = graph;
    graph.build_triangles();
    proof {
        assert forall|order: Seq<Seq<char>>, m: int| #![auto] graph.all_triangles(order, m)
            == before_build.all_triangles(order, m) by {
            ArbitrageGraph::lemma_same_search(&graph, &before_build, order, m);
        }
        assert(infos.take(n as int) =~= infos);
        assert forall|k: Seq<char>| #[trigger] list_or_empty(graph.by_symbol(), k) == symbol_positions(
            triangle_views(graph.triangle_list()),
            k,
        ) by {
            lemma_fresh_symbol_index(Map::empty(), triangle_views(graph.triangle_list()), k);
        }
    }
    let built: usize = graph.triangles.len();
    proof {
        let ts = triangle_views(graph.triangle_list());
        assert(ts.len() == built);
        assert forall|k: Seq<char>, x: int|
            0 <= x < list_or_empty(graph.by_symbol(), k).len() implies #[trigger] list_or_empty(
                graph.by_symbol(),
                k,
            )[x] < graph.triangle_list().len() by {
            lemma_symbol_positions_exact(ts, k);
            assert(symbol_positions(ts, k)[x] < ts.len());
        }
        let order = choose|order: Seq<Seq<char>>|
            {
                &&& order.no_duplicates()
                &&& order.to_set() == graph.stablecoin_set()
                &&& triangle_views(graph.triangle_list()) == graph.all_triangles(order, order.len() as int)
            };
        assert forall|s: Seq<char>, i: int, j: int|
            graph.stablecoin_set().contains(s) && graph.from_stable().contains_key(s) && 0 <= i < j
                < graph.from_stable()[s].len() && (#[trigger] graph.spec_triangle(
                s,
                graph.from_stable()[s][i],
                graph.from_stable()[s][j],
            )) is Some implies triangle_views(graph.triangle_list()).contains(
            graph.spec_triangle(s, graph.from_stable()[s][i], graph.from_stable()[s][j]).unwrap(),
        ) by {
            assert(order.to_set().contains(s));
            graph.law_listed_cycles_are_built(order, s, i, j);
        }
        assert(graph.pairs_have_edges());
        assert forall|s: Seq<char>, i: int, j: int, w: int|
            #![trigger graph.from_stable()[s][i], graph.from_stable()[s][j], infos[w]]
            graph.stablecoin_set().contains(s) && graph.from_stable().contains_key(s) && 0 <= i < j
                < graph.from_stable()[s].len() && 0 <= w < infos.len() && joins(
                pair_of(infos[w]),
                graph.from_stable()[s][i],
                graph.from_stable()[s][j],
            ) implies exists|x: int|
            0 <= x < graph.triangle_list().len() && (#[trigger] graph.triangle_list()[x])@.0 == s
                && graph.triangle_list()[x]@.1 == graph.from_stable()[s][i] && graph.triangle_list()[x]@.2
                == graph.from_stable()[s][j] by {
            let l = graph.from_stable()[s];
            let ps = graph.pairs();
            assert(l.contains(l[i]));
            assert(l.contains(l[j]));
            let w1 = choose|w1: int| 0 <= w1 < ps.len() && #[trigger] ps[w1].0 == l[i] && ps[w1].1 == s;
            let w3 = choose|w3: int| 0 <= w3 < ps.len() && #[trigger] ps[w3].0 == l[j] && ps[w3].1 == s;
            assert(ps[w] == pair_of(infos[w]));
            graph.lemma_cycle_has_triangle(s, l[i], l[j], w1, w, w3);
            let t = graph.spec_triangle(s, l[i], l[j]).unwrap();
            assert(triangle_views(graph.triangle_list()).contains(t));
            let x = choose|x: int| 0 <= x < triangle_views(graph.triangle_list()).len()
                && triangle_views(graph.triangle_list())[x] == t;
            assert(graph.triangle_list()[x]@ == t);
        }
    }
    graph
}

/// The symbol index lists, in increasing order, exactly the triangles with a pair of
/// that symbol: a triangle once for each such pair.
pub proof fn lemma_symbol_positions_exact(ts: Seq<TriangleView>, k: Seq<char>)
    requires
        ts.len() <= usize::MAX,
        forall|i: int| 0 <= i < ts.len() ==> (#[trigger] ts[i]).3.len() == 3,
    ensures
        forall|x: int|
            0 <= x < symbol_positions(ts, k).len() ==> {
                let i = #[trigger] symbol_positions(ts, k)[x] as int;
                0 <= i < ts.len() && (ts[i].3[0].2 == k || ts[i].3[1].2 == k || ts[i].3[2].2 == k)
            },
        forall|i: int|
            0 <= i < ts.len() && (ts[i].3[0].2 == k || ts[i].3[1].2 == k || ts[i].3[2].2 == k)
                ==> symbol_positions(ts, k).contains(i as usize),
        forall|x: int, y: int|
            0 <= x < y < symbol_positions(ts, k).len() ==> symbol_positions(ts, k)[x]
                <= symbol_positions(ts, k)[y],
    decreases ts.len(),
{
    if ts.len() > 0 {
        let pre = ts.drop_last();
        lemma_symbol_positions_exact(pre, k);
        let n = (ts.len() - 1) as usize;
        let a = symbol_positions(pre, k);
        let h = symbol_hits(ts.last(), n, k);
        assert(symbol_positions(ts, k) == a + h);
        assert forall|x: int| 0 <= x < h.len() implies #[trigger] h[x] == n by {}
        assert forall|x: int| 0 <= x < (a + h).len() implies {
            let i = #[trigger] (a + h)[x] as int;
            0 <= i < ts.len() && (ts[i].3[0].2 == k || ts[i].3[1].2 == k || ts[i].3[2].2 == k)
        } by {
            if x >= a.len() {
                assert((a + h)[x] == h[x - a.len()]);
            } else {
                assert((a + h)[x] == a[x]);
                assert(pre[a[x] as int] == ts[a[x] as int]);
            }
        }
        assert forall|i: int|
            0 <= i < ts.len() && (ts[i].3[0].2 == k || ts[i].3[1].2 == k || ts[i].3[2].2 == k)
                implies (a + h).contains(i as usize) by {
            if i < n {
                assert(pre[i] == ts[i]);
                let x = choose|x: int| 0 <= x < a.len() && a[x] == i as usize;
                assert((a + h)[x] == a[x]);
            } else {
                assert(ts[i] == ts.last());
                assert(h.len() > 0);
                assert((a + h)[a.len() as int] == h[0]);
            }
        }
        assert forall|x: int, y: int| 0 <= x < y < (a + h).len() implies (a + h)[x] <= (a + h)[y] by {
            if y >= a.len() {
                assert((a + h)[y] == h[y - a.len()]);
                if x < a.len() {
                    assert((a + h)[x] == a[x]);
                } else {
                    assert((a + h)[x] == h[x - a.len()]);
                }
            } else {
                assert((a + h)[x] == a[x]);
                assert((a + h)[y] == a[y]);
            }
        }
    }
}

/// An edge found by `latest_edge` exists and goes from `a` to `b`.
pub proof fn lemma_latest_edge_in_range(edges: Seq<(nat, nat, nat)>, a: nat, b: nat)
    ensures
        latest_edge(edges, a, b) matches Some(e) ==> e < edges.len() && edges[e as int].0 == a
            && edges[e as int].1 == b,
    decreases edges.len(),
{
    if edges.len() > 0 {
        lemma_latest_edge_in_range(edges.drop_last(), a, b);
    }
}

/// Where some edge leads from `a` to `b`, there is a latest such edge.
pub proof fn lemma_latest_edge_exists(edges: Seq<(nat, nat, nat)>, e: int, a: nat, b: nat)
    requires
        0 <= e < edges.len(),
        edges[e].0 == a,
        edges[e].1 == b,
    ensures
        latest_edge(edges, a, b) is Some,
    decreases edges.len(),
{
    if !(edges.last().0 == a && edges.last().1 == b) {
        assert(e < edges.len() - 1);
        assert(edges.drop_last()[e] == edges[e]);
        lemma_latest_edge_exists(edges.drop_last(), e, a, b);
    }
}

} // verus!
