use vstd::prelude::*;
use crate::coordinates::Coordinates;

verus! {

/// The connectivity structure of a maze: an undirected petgraph graph whose
/// nodes are cell coordinates and whose edges are the open passages.
pub type MazeGraph = petgraph::graphmap::GraphMap<(i32, i32), (), petgraph::Undirected>;

#[verifier::external_type_specification]
#[verifier::external_body]
#[verifier::reject_recursive_types(N)]
#[verifier::reject_recursive_types(E)]
#[verifier::reject_recursive_types(Ty)]
#[verifier::reject_recursive_types(S)]
pub struct ExGraphMap<N, E, Ty, S: std::hash::BuildHasher>(
    petgraph::graphmap::GraphMap<N, E, Ty, S>,
);

#[verifier::external_type_specification]
#[verifier::external_body]
pub struct ExUndirected(petgraph::Undirected);

/// The passages a graph records, as a set of ordered pairs of cells that is
/// closed under swapping the two endpoints: the graph is undirected, so a
/// passage between `a` and `b` appears both as `(a, b)` and as `(b, a)`.
pub uninterp spec fn graph_edges(g: MazeGraph) -> Set<((int, int), (int, int))>;

/// Whether two graphs are isomorphic: some bijection between their node sets
/// carries the edges of one exactly onto the edges of the other.
pub uninterp spec fn graphs_isomorphic(a: MazeGraph, b: MazeGraph) -> bool;

/// Relies on petgraph's `GraphMap::new`: the new graph has no nodes and no
/// edges.
#[verifier::external_body]
pub(crate) fn graph_new() -> (r: MazeGraph)
    ensures
        graph_edges(r) == Set::<((int, int), (int, int))>::empty(),
{
    petgraph::graphmap::GraphMap::new()
}

/// Relies on petgraph's `GraphMap::add_edge` on an undirected graph: it
/// records the edge between the two distinct nodes (inserting the nodes if
/// needed) and leaves every other edge as it was; afterwards the edge is
/// reported in both directions.
#[verifier::external_body]
pub(crate) fn graph_add_edge(g: &mut MazeGraph, a: Coordinates, b: Coordinates)
    requires
        a@ != b@,
    ensures
        graph_edges(*final(g)) == graph_edges(*old(g)).insert((a@, b@)).insert((b@, a@)),
{
    g.add_edge((a.x, a.y), (b.x, b.y), ());
}

/// Relies on petgraph's `GraphMap::contains_edge` on an undirected graph: it
/// reports whether an edge between the two nodes was recorded, in either
/// direction.
#[verifier::external_body]
pub(crate) fn graph_has_edge(g: &MazeGraph, a: Coordinates, b: Coordinates) -> (r: bool)
    ensures
        r == graph_edges(*g).contains((a@, b@)),
{
    g.contains_edge((a.x, a.y), (b.x, b.y))
}

/// Relies on petgraph's `GraphMap::neighbors` on an undirected graph: it
/// yields exactly the nodes that have an edge to `a` (none if `a` is not in
/// the graph).
#[verifier::external_body]
pub(crate) fn graph_neighbors(g: &MazeGraph, a: Coordinates) -> (r: Vec<Coordinates>)
    ensures
        forall|c: (int, int)|
            (exists|i: int| 0 <= i < r@.len() && #[trigger] r@[i]@ == c) <==> graph_edges(
                *g,
            ).contains((a@, c)),
{
    g.neighbors((a.x, a.y)).map(|t: (i32, i32)| Coordinates { x: t.0, y: t.1 }).collect()
}

/// Relies on petgraph's `algo::is_isomorphic`: it decides whether the two
/// graphs are isomorphic as unlabeled structures.
#[verifier::external_body]
pub(crate) fn graph_isomorphic(a: &MazeGraph, b: &MazeGraph) -> (r: bool)
    ensures
        r == graphs_isomorphic(*a, *b),
{
    petgraph::algo::is_isomorphic(
        &a.clone().into_graph::<usize>(),
        &b.clone().into_graph::<usize>(),
    )
}

} // verus!
