//! The edges of a path, one after the other, ready to be drawn.

use vstd::prelude::*;

verus! {

/// One edge of a path, with its ends projected, and its place along the path:
/// it is edge number `step`, counted from zero, of `steps` edges.
pub struct Edge<Q> {
    pub from: Q,
    pub to: Q,
    pub step: usize,
    pub steps: usize,
}

/// The number of edges of a path of `vertices` vertices.
pub open spec fn edge_count(vertices: nat) -> nat {
    if vertices == 0 {
        0
    } else {
        (vertices - 1) as nat
    }
}

/// `edge` is edge number `i` of the path `path`, its ends projected by
/// `project`.
pub open spec fn is_edge<P, Q, F: Fn(P) -> Q>(path: Seq<P>, project: F, i: int, edge: Edge<Q>) -> bool {
    &&& project.ensures((path[i],), edge.from)
    &&& project.ensures((path[i + 1],), edge.to)
    &&& edge.step == i
    &&& edge.steps == edge_count(path.len())
}

/// The edges of `path` in order, each between two neighbours, with both ends
/// projected.
pub fn segments<P: Copy, Q, F: Fn(P) -> Q>(path: &[P], project: &F) -> (edges: Vec<Edge<Q>>)
    requires
        forall|p: P| #[trigger] project.requires((p,)),
    ensures
        edges@.len() == edge_count(path@.len()),
        forall|i: int| 0 <= i < edges@.len() ==> is_edge(path@, *project, i, #[trigger] edges@[i]),
{
    let mut edges: Vec<Edge<Q>> = Vec::new();
    if path.len() == 0 {
        return edges;
    }
    let steps: usize = path.len() - 1;
    let mut i: usize = 0;
    while i < steps
        invariant
            steps == path@.len() - 1,
            i <= steps,
            edges@.len() == i,
            forall|p: P| #[trigger] project.requires((p,)),
            forall|k: int| 0 <= k < i ==> is_edge(path@, *project, k, #[trigger] edges@[k]),
        decreases steps - i,
    {
        let from: Q = project(path[i]);
        let to: Q = project(path[i + 1]);
        edges.push(Edge { from, to, step: i, steps });
        i = i + 1;
    }
    edges
}

} // verus!
