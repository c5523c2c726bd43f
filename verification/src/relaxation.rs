//! Relaxation over the vertex adjacency (smoothing, disk parameterization):
//! the adjacency entries that stand for edges introduced by triangulating
//! the mesh, whose weights are dropped so that they pull on nothing.
use vstd::prelude::*;

verus! {

/// The edge between `a` and `b`, its lower end first.
pub open spec fn ordered(a: usize, b: usize) -> [usize; 2] {
    if a <= b {
        [a, b]
    } else {
        [b, a]
    }
}

/// An edge is the same seen from either end, so an introduced edge has its
/// weight dropped in both directions.
pub proof fn lemma_ordered_either_end(a: usize, b: usize)
    ensures
        ordered(a, b) == ordered(b, a),
{
}

/// The edge between `a` and `b`, its lower end first.
pub fn ordered_edge(a: usize, b: usize) -> (r: [usize; 2])
    ensures
        r == ordered(a, b),
{
    if a <= b {
        [a, b]
    } else {
        [b, a]
    }
}

fn lists_edge(edges: &Vec<[usize; 2]>, e: [usize; 2]) -> (r: bool)
    ensures
        r == edges@.contains(e),
{
    let mut i: usize = 0;
    while i < edges.len()
        invariant
            i <= edges@.len(),
            forall|j: int| 0 <= j < i ==> edges@[j] != e,
        decreases edges@.len() - i,
    {
        let x = edges[i];
        if x[0] == e[0] && x[1] == e[1] {
            assert(edges@[i as int] =~= e);
            return true;
        }
        i = i + 1;
    }
    false
}

/// For each adjacency entry, whether the edge from its vertex to the
/// neighbour it lists, lower end first, is one of `new_edges`: those are
/// the entries whose weights are dropped.
pub fn introduced_entries(adj: &Vec<Vec<usize>>, new_edges: &Vec<[usize; 2]>) -> (r: Vec<Vec<bool>>)
    ensures
        r@.len() == adj@.len(),
        forall|v: int| 0 <= v < adj@.len() ==> (#[trigger] r@[v])@.len() == adj@[v]@.len(),
        forall|v: int, i: int|
            0 <= v < adj@.len() && 0 <= i < adj@[v]@.len() ==> ((#[trigger] r@[v]@[i]) <==> new_edges@.contains(
                ordered(v as usize, adj@[v]@[i]),
            )),
{
    let mut r: Vec<Vec<bool>> = Vec::new();
    let mut v: usize = 0;
    while v < adj.len()
        invariant
            v <= adj@.len(),
            r@.len() == v,
            forall|u: int| 0 <= u < v ==> (#[trigger] r@[u])@.len() == adj@[u]@.len(),
            forall|u: int, i: int|
                0 <= u < v && 0 <= i < adj@[u]@.len() ==> ((#[trigger] r@[u]@[i]) <==> new_edges@.contains(
                    ordered(u as usize, adj@[u]@[i]),
                )),
        decreases adj@.len() - v,
    {
        let nb = &adj[v];
        let mut row: Vec<bool> = Vec::new();
        let mut i: usize = 0;
        while i < nb.len()
            invariant
                i <= nb@.len(),
                row@.len() == i,
                forall|k: int|
                    0 <= k < i ==> ((#[trigger] row@[k]) <==> new_edges@.contains(ordered(v as usize, nb@[k]))),
            decreases nb@.len() - i,
        {
            let e = ordered_edge(v, nb[i]);
            row.push(lists_edge(new_edges, e));
            i = i + 1;
        }
        r.push(row);
        v = v + 1;
    }
    r
}

} // verus!
