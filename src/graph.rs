//! Weighted directed graphs given as adjacency lists, the walks through them,
//! and shortest-path searches over them.
use vstd::prelude::*;

verus! {

/// Most nodes a graph handed to a search may have.
pub const MAX_NODES: usize = 1_000_000;

/// Largest cost a single arc may carry.
pub const MAX_ARC_COST: i64 = 1_000_000_000_000;

/// An adjacency list: `adj[a]` lists the arcs `(b, cost)` leaving node `a`.
pub type Adjacency = Vec<Vec<(usize, i64)>>;

/// `b` is a target listed in `adj[a]`.
pub open spec fn has_arc(adj: Seq<Vec<(usize, i64)>>, a: int, b: int) -> bool {
    0 <= a < adj.len() && exists|k: int| 0 <= k < adj[a]@.len() && adj[a]@[k].0 == b
}

/// The cost of the arc from `a` to `b`; meaningful where `has_arc(adj, a, b)`.
pub open spec fn arc_cost(adj: Seq<Vec<(usize, i64)>>, a: int, b: int) -> int {
    let k = choose|k: int| 0 <= k < adj[a]@.len() && adj[a]@[k].0 == b;
    adj[a]@[k].1 as int
}

/// Every arc points at a node of the graph, costs between zero and the bound, and
/// no list names the same target twice.
pub open spec fn well_formed_graph(adj: Seq<Vec<(usize, i64)>>) -> bool {
    &&& adj.len() <= MAX_NODES
    &&& forall|a: int, k: int|
        0 <= a < adj.len() && 0 <= k < adj[a]@.len() ==> {
            &&& (adj[a]@[k].0 as int) < adj.len()
            &&& 0 <= adj[a]@[k].1 <= MAX_ARC_COST
        }
    &&& forall|a: int, k: int, l: int|
        0 <= a < adj.len() && 0 <= k < adj[a]@.len() && 0 <= l < adj[a]@.len() && k != l
            ==> adj[a]@[k].0 != adj[a]@[l].0
}

/// `p` is a walk that starts at `s` and ends at `t`, following arcs of `adj`.
pub open spec fn is_walk(adj: Seq<Vec<(usize, i64)>>, p: Seq<usize>, s: int, t: int) -> bool {
    &&& p.len() >= 1
    &&& p[0] as int == s
    &&& p.last() as int == t
    &&& forall|i: int| 0 <= i < p.len() - 1 ==> #[trigger] has_arc(adj, p[i] as int, p[i + 1] as int)
}

/// The sum of the arc costs along `p`.
pub open spec fn walk_cost(adj: Seq<Vec<(usize, i64)>>, p: Seq<usize>) -> int
    decreases p.len(),
{
    if p.len() <= 1 {
        0
    } else {
        walk_cost(adj, p.drop_last()) + arc_cost(adj, p[p.len() - 2] as int, p.last() as int)
    }
}

/// `t` can be reached from `s`.
pub open spec fn reachable(adj: Seq<Vec<(usize, i64)>>, s: int, t: int) -> bool {
    exists|p: Seq<usize>| is_walk(adj, p, s, t)
}

/// `c` is the least cost of a walk from `s` to `t`, and some walk costs exactly that.
pub open spec fn is_least_cost(adj: Seq<Vec<(usize, i64)>>, s: int, t: int, c: int) -> bool {
    &&& exists|p: Seq<usize>| is_walk(adj, p, s, t) && walk_cost(adj, p) == c
    &&& forall|p: Seq<usize>| is_walk(adj, p, s, t) ==> c <= walk_cost(adj, p)
}

/// Relies on pathfinding::directed::dijkstra::dijkstra: with non-negative costs it
/// returns a cheapest path from `start` to the first node that meets the goal
/// test (both ends included) together with its cost, or `None` where no such node
/// can be reached. A node reached from the start is never costed above the cost of a
/// path without repeated arcs, which the bounds of `well_formed_graph` keep in `i64`.
#[verifier::external_body]
pub(crate) fn shortest_walk(adj: &Adjacency, start: usize, goal: usize) -> (r: Option<(Vec<usize>, i64)>)
    requires
        well_formed_graph(adj@),
        start < adj@.len(),
        goal < adj@.len(),
    ensures
        match r {
            Some((p, c)) => is_walk(adj@, p@, start as int, goal as int) && c == walk_cost(adj@, p@)
                && is_least_cost(adj@, start as int, goal as int, c as int),
            None => !reachable(adj@, start as int, goal as int),
        },
{
    ::pathfinding::directed::dijkstra::dijkstra(&start, |x| adj[*x].clone(), |x| *x == goal)
}

/// Relies on pathfinding::directed::dijkstra::dijkstra_all: every node other than
/// `start` that can be reached from it appears once in the result, with the least
/// cost of reaching it (the optimal parent is dropped). The order of the entries
/// follows a hash map and is not promised.
#[verifier::external_body]
pub(crate) fn least_costs_from(adj: &Adjacency, start: usize) -> (r: Vec<(usize, i64)>)
    requires
        well_formed_graph(adj@),
        start < adj@.len(),
    ensures
        forall|i: int|
            0 <= i < r@.len() ==> r@[i].0 != start && is_least_cost(
                adj@,
                start as int,
                r@[i].0 as int,
                r@[i].1 as int,
            ),
        forall|t: int|
            0 <= t < adj@.len() && t != start && reachable(adj@, start as int, t) ==> exists|i: int|
                0 <= i < r@.len() && r@[i].0 as int == t,
        forall|i: int, j: int| 0 <= i < r@.len() && 0 <= j < r@.len() && i != j ==> r@[i].0 != r@[j].0,
{
    ::pathfinding::directed::dijkstra::dijkstra_all(&start, |x| adj[*x].clone())
        .into_iter()
        .map(|(n, (_parent, c))| (n, c))
        .collect()
}

} // verus!
