//! The outside collections the token graph is made of: a `petgraph` directed graph
//! whose nodes carry token names and whose edges carry the position of their pair, and
//! `ahash` maps and sets keyed by token names and symbols. Each is named by its contents;
//! each operation states what it does to them.

use vstd::prelude::*;
use ahash::{AHashMap, AHashSet};
use petgraph::graph::{DiGraph, EdgeIndex, Graph, NodeIndex};

verus! {

#[verifier::external_type_specification]
#[verifier::external_body]
#[verifier::reject_recursive_types(N)]
#[verifier::reject_recursive_types(E)]
#[verifier::reject_recursive_types(Ty)]
#[verifier::reject_recursive_types(Ix)]
pub struct ExGraph<N, E, Ty, Ix>(Graph<N, E, Ty, Ix>);

#[verifier::external_type_specification]
#[verifier::external_body]
#[verifier::reject_recursive_types(K)]
#[verifier::reject_recursive_types(V)]
#[verifier::reject_recursive_types(S)]
pub struct ExAHashMap<K, V, S>(AHashMap<K, V, S>);

#[verifier::external_type_specification]
#[verifier::external_body]
#[verifier::reject_recursive_types(T)]
#[verifier::reject_recursive_types(S)]
pub struct ExAHashSet<T, S>(AHashSet<T, S>);

#[verifier::external_type_specification]
#[verifier::external_body]
pub struct ExRandomState(ahash::RandomState);

#[verifier::external_type_specification]
#[verifier::external_body]
pub struct ExDirected(petgraph::Directed);

/// The node weights of the graph, by node index.
pub uninterp spec fn graph_nodes(g: DiGraph<String, usize>) -> Seq<Seq<char>>;

/// The edges of the graph, by edge index: (source node, target node, weight).
pub uninterp spec fn graph_edges(g: DiGraph<String, usize>) -> Seq<(nat, nat, nat)>;

/// The largest index of an edge from `a` to `b`, if there is one.
pub open spec fn latest_edge(edges: Seq<(nat, nat, nat)>, a: nat, b: nat) -> Option<nat>
    decreases edges.len(),
{
    if edges.len() == 0 {
        None
    } else if edges.last().0 == a && edges.last().1 == b {
        Some((edges.len() - 1) as nat)
    } else {
        latest_edge(edges.drop_last(), a, b)
    }
}

/// `petgraph::graph::DiGraph::new`: a graph without nodes or edges.
#[verifier::external_body]
pub(crate) fn graph_new() -> (g: DiGraph<String, usize>)
    ensures
        graph_nodes(g).len() == 0,
        graph_edges(g).len() == 0,
{
    DiGraph::new()
}

/// `Graph::add_node`: the node gets the next index (it panics only when the `u32` node
/// indices are used up, which `requires` leaves out).
#[verifier::external_body]
pub(crate) fn graph_add_node(g: &mut DiGraph<String, usize>, weight: String) -> (r: usize)
    requires
        graph_nodes(*old(g)).len() < u32::MAX,
    ensures
        r == graph_nodes(*old(g)).len(),
        graph_nodes(*final(g)) == graph_nodes(*old(g)).push(weight@),
        graph_edges(*final(g)) == graph_edges(*old(g)),
{
    g.add_node(weight).index()
}

/// `Graph::add_edge`: a parallel edge is added, never merged; the edge gets the next
/// index. It panics when a node does not exist or the `u32` edge indices are used up.
#[verifier::external_body]
pub(crate) fn graph_add_edge(g: &mut DiGraph<String, usize>, a: usize, b: usize, weight: usize) -> (r: usize)
    requires
        a < graph_nodes(*old(g)).len(),
        b < graph_nodes(*old(g)).len(),
        graph_edges(*old(g)).len() < u32::MAX,
    ensures
        r == graph_edges(*old(g)).len(),
        graph_nodes(*final(g)) == graph_nodes(*old(g)),
        graph_edges(*final(g)) == graph_edges(*old(g)).push((a as nat, b as nat, weight as nat)),
{
    g.add_edge(NodeIndex::new(a), NodeIndex::new(b), weight).index()
}

/// `Graph::find_edge` on a directed graph: it walks the outgoing list of `a`, newest edge
/// first, so it finds the most recently added edge from `a` to `b`.
#[verifier::external_body]
pub(crate) fn graph_find_edge(g: &DiGraph<String, usize>, a: usize, b: usize) -> (r: Option<usize>)
    requires
        a < u32::MAX,
        b < u32::MAX,
    ensures
        match r {
            Some(e) => latest_edge(graph_edges(*g), a as nat, b as nat) == Some(e as nat),
            None => latest_edge(graph_edges(*g), a as nat, b as nat) is None,
        },
{
    match g.find_edge(NodeIndex::new(a), NodeIndex::new(b)) {
        Some(e) => Some(e.index()),
        None => None,
    }
}

/// Indexing the graph by an edge (`graph[e]`): the edge's weight.
#[verifier::external_body]
pub(crate) fn graph_edge_weight(g: &DiGraph<String, usize>, e: usize) -> (r: usize)
    requires
        e < graph_edges(*g).len(),
    ensures
        r == graph_edges(*g)[e as int].2,
{
    g[EdgeIndex::new(e)]
}

/// The contents of a map from a name to a node index.
pub uninterp spec fn node_map_contents(m: AHashMap<String, usize>) -> Map<Seq<char>, usize>;

/// The contents of a map from a name to a list of positions.
pub uninterp spec fn index_map_contents(m: AHashMap<String, Vec<usize>>) -> Map<Seq<char>, Seq<usize>>;

/// The contents of a map from a token to a list of tokens.
pub uninterp spec fn token_lists_contents(m: AHashMap<String, Vec<String>>) -> Map<Seq<char>, Seq<Seq<char>>>;

/// The contents of a set of names.
pub uninterp spec fn name_set_contents(s: AHashSet<String>) -> Set<Seq<char>>;

/// `AHashMap::new`: an empty map.
#[verifier::external_body]
pub(crate) fn node_map_new() -> (m: AHashMap<String, usize>)
    ensures
        node_map_contents(m).dom() == Set::<Seq<char>>::empty(),
{
    AHashMap::new()
}

/// `HashMap::get` through `AHashMap`'s `Deref`: the value under `key`, if any.
#[verifier::external_body]
pub(crate) fn node_map_get(m: &AHashMap<String, usize>, key: &str) -> (r: Option<usize>)
    ensures
        match r {
            Some(v) => node_map_contents(*m).contains_key(key@) && node_map_contents(*m)[key@] == v,
            None => !node_map_contents(*m).contains_key(key@),
        },
{
    m.get(key).copied()
}

/// `AHashMap::insert`: `key` now maps to `value`.
#[verifier::external_body]
pub(crate) fn node_map_insert(m: &mut AHashMap<String, usize>, key: String, value: usize)
    ensures
        node_map_contents(*final(m)) == node_map_contents(*old(m)).insert(key@, value),
{
    m.insert(key, value);
}

/// `AHashMap::new`: an empty map.
#[verifier::external_body]
pub(crate) fn index_map_new() -> (m: AHashMap<String, Vec<usize>>)
    ensures
        index_map_contents(m).dom() == Set::<Seq<char>>::empty(),
{
    AHashMap::new()
}

/// `HashMap::clear`: the map is empty.
#[verifier::external_body]
pub(crate) fn index_map_clear(m: &mut AHashMap<String, Vec<usize>>)
    ensures
        index_map_contents(*final(m)).dom() == Set::<Seq<char>>::empty(),
{
    m.clear();
}

/// `HashMap::remove` through `AHashMap`'s `DerefMut`: the list under `key`, taken out.
#[verifier::external_body]
pub(crate) fn index_map_remove(m: &mut AHashMap<String, Vec<usize>>, key: &str) -> (r: Option<Vec<usize>>)
    ensures
        index_map_contents(*final(m)) == index_map_contents(*old(m)).remove(key@),
        match r {
            Some(v) => index_map_contents(*old(m)).contains_key(key@) && index_map_contents(*old(m))[key@] == v@,
            None => !index_map_contents(*old(m)).contains_key(key@),
        },
{
    m.remove(key)
}

/// `AHashMap::insert`: `key` now maps to `list`.
#[verifier::external_body]
pub(crate) fn index_map_insert(m: &mut AHashMap<String, Vec<usize>>, key: String, list: Vec<usize>)
    ensures
        index_map_contents(*final(m)) == index_map_contents(*old(m)).insert(key@, list@),
{
    m.insert(key, list);
}

/// Appends `value` to the list under `key`, which starts empty where the key was absent.
pub(crate) fn index_map_push(m: &mut AHashMap<String, Vec<usize>>, key: &String, value: usize)
    ensures
        index_map_contents(*final(m)) == index_map_contents(*old(m)).insert(
            key@,
            (if index_map_contents(*old(m)).contains_key(key@) {
                index_map_contents(*old(m))[key@]
            } else {
                Seq::<usize>::empty()
            }).push(value),
        ),
{
    let mut list = match index_map_remove(m, key.as_str()) {
        Some(l) => l,
        None => Vec::new(),
    };
    list.push(value);
    index_map_insert(m, key.clone(), list);
    assert(index_map_contents(*old(m)).remove(key@).insert(key@, list@) =~= index_map_contents(*old(m)).insert(key@, list@));
}

/// `HashMap::get` through `Deref`: the list under `key`, if any.
#[verifier::external_body]
pub(crate) fn index_map_get<'a>(m: &'a AHashMap<String, Vec<usize>>, key: &str) -> (r: Option<&'a Vec<usize>>)
    ensures
        match r {
            Some(v) => index_map_contents(*m).contains_key(key@) && index_map_contents(*m)[key@] == v@,
            None => !index_map_contents(*m).contains_key(key@),
        },
{
    m.get(key)
}

/// `AHashMap::new`: an empty map.
#[verifier::external_body]
pub(crate) fn token_lists_new() -> (m: AHashMap<String, Vec<String>>)
    ensures
        token_lists_contents(m).dom() == Set::<Seq<char>>::empty(),
{
    AHashMap::new()
}

/// `HashMap::remove` through `AHashMap`'s `DerefMut`: the list under `key`, taken out.
#[verifier::external_body]
pub(crate) fn token_lists_remove(m: &mut AHashMap<String, Vec<String>>, key: &str) -> (r: Option<Vec<String>>)
    ensures
        token_lists_contents(*final(m)) == token_lists_contents(*old(m)).remove(key@),
        match r {
            Some(v) => token_lists_contents(*old(m)).contains_key(key@) && token_lists_contents(*old(m))[key@]
                == v@.map_values(|t: String| t@),
            None => !token_lists_contents(*old(m)).contains_key(key@),
        },
{
    m.remove(key)
}

/// `AHashMap::insert`: `key` now maps to `list`.
#[verifier::external_body]
pub(crate) fn token_lists_insert(m: &mut AHashMap<String, Vec<String>>, key: String, list: Vec<String>)
    ensures
        token_lists_contents(*final(m)) == token_lists_contents(*old(m)).insert(
            key@,
            list@.map_values(|t: String| t@),
        ),
{
    m.insert(key, list);
}

/// Appends `value` to the list under `key`, which starts empty where the key was absent.
pub(crate) fn token_lists_push(m: &mut AHashMap<String, Vec<String>>, key: &String, value: String)
    ensures
        token_lists_contents(*final(m)) == token_lists_contents(*old(m)).insert(
            key@,
            (if token_lists_contents(*old(m)).contains_key(key@) {
                token_lists_contents(*old(m))[key@]
            } else {
                Seq::<Seq<char>>::empty()
            }).push(value@),
        ),
{
    let mut list = match token_lists_remove(m, key.as_str()) {
        Some(l) => l,
        None => Vec::new(),
    };
    let ghost before = list@;
    assert(before.map_values(|t: String| t@) =~= (if token_lists_contents(*old(m)).contains_key(key@) {
        token_lists_contents(*old(m))[key@]
    } else {
        Seq::<Seq<char>>::empty()
    }));
    list.push(value);
    assert(list@.map_values(|t: String| t@) =~= before.map_values(|t: String| t@).push(value@));
    token_lists_insert(m, key.clone(), list);
    assert(token_lists_contents(*old(m)).remove(key@).insert(key@, list@.map_values(|t: String| t@))
        =~= token_lists_contents(*old(m)).insert(key@, list@.map_values(|t: String| t@)));
}

/// `HashMap::get` through `Deref`: the list under `key`, if any.
#[verifier::external_body]
pub(crate) fn token_lists_get<'a>(m: &'a AHashMap<String, Vec<String>>, key: &str) -> (r: Option<&'a Vec<String>>)
    ensures
        match r {
            Some(v) => token_lists_contents(*m).contains_key(key@) && token_lists_contents(*m)[key@]
                == v@.map_values(|t: String| t@),
            None => !token_lists_contents(*m).contains_key(key@),
        },
{
    m.get(key)
}

/// `AHashSet::new`: an empty set.
#[verifier::external_body]
pub(crate) fn name_set_new() -> (s: AHashSet<String>)
    ensures
        name_set_contents(s) == Set::<Seq<char>>::empty(),
{
    AHashSet::new()
}

/// `HashSet::contains` through `Deref`.
#[verifier::external_body]
pub(crate) fn name_set_contains(s: &AHashSet<String>, name: &str) -> (r: bool)
    ensures
        r == name_set_contents(*s).contains(name@),
{
    s.contains(name)
}

/// `AHashSet::insert`: `name` is in the set.
#[verifier::external_body]
pub(crate) fn name_set_insert(s: &mut AHashSet<String>, name: String)
    ensures
        name_set_contents(*final(s)) == name_set_contents(*old(s)).insert(name@),
{
    s.insert(name);
}

/// The members of the set in its iteration order (`HashSet::iter`, cloned): each member
/// once. The order comes from the set's random hasher keys, so nothing is said of it.
#[verifier::external_body]
pub(crate) fn name_set_members(s: &AHashSet<String>) -> (r: Vec<String>)
    ensures
        r@.map_values(|t: String| t@).no_duplicates(),
        r@.map_values(|t: String| t@).to_set() == name_set_contents(*s),
{
    s.iter().cloned().collect()
}

} // verus!
