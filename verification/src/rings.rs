//! Simple cycles in a graph of nodes and edges.
use std::collections::HashMap;

use vstd::prelude::*;

verus! {

/// The edge ends at the node.
pub open spec fn touches(edge: (u64, u64), node: u64) -> bool {
    edge.0 == node || edge.1 == node
}

/// The end of an edge that is not the given one.
pub open spec fn far_end(edge: (u64, u64), node: u64) -> u64 {
    if edge.0 == node {
        edge.1
    } else {
        edge.0
    }
}

/// The edges that end at a node, in order. An edge that is listed twice counts
/// twice.
pub open spec fn incident(edges: Seq<(u64, u64)>, node: u64) -> Seq<(u64, u64)> {
    edges.filter(|e: (u64, u64)| touches(e, node))
}

/// An edge joins the two nodes.
pub open spec fn adjacent(edges: Seq<(u64, u64)>, x: u64, y: u64) -> bool {
    exists|i: int|
        0 <= i < edges.len() && touches(#[trigger] edges[i], x) && far_end(edges[i], x) == y
}

/// No edge joins a node to itself.
pub open spec fn no_self_edges(edges: Seq<(u64, u64)>) -> bool {
    forall|i: int| 0 <= i < edges.len() ==> (#[trigger] edges[i]).0 != edges[i].1
}

/// The index after `i` around a ring of `n` nodes.
pub open spec fn after(n: int, i: int) -> int {
    if i + 1 < n {
        i + 1
    } else {
        0
    }
}

/// The index before `i` around a ring of `n` nodes.
pub open spec fn before(n: int, i: int) -> int {
    if i > 0 {
        i - 1
    } else {
        n - 1
    }
}

/// An edge joins the node at `i` to the next one around the ring.
pub open spec fn joined(edges: Seq<(u64, u64)>, ring: Seq<u64>, i: int) -> bool {
    adjacent(edges, ring[i], ring[after(ring.len() as int, i)])
}

/// `ring` is a simple cycle that is a component of its own: at least three
/// nodes, each once, each joined to the next and the last to the first, and no
/// other edge at any of them.
pub open spec fn is_ring(edges: Seq<(u64, u64)>, ring: Seq<u64>) -> bool {
    &&& ring.len() >= 3
    &&& ring.no_duplicates()
    &&& forall|i: int| 0 <= i < ring.len() ==> #[trigger] joined(edges, ring, i)
    &&& forall|i: int| 0 <= i < ring.len() ==> incident(edges, #[trigger] ring[i]).len() == 2
}

/// No edge leaves the set.
pub open spec fn is_closed(edges: Seq<(u64, u64)>, set: Set<u64>) -> bool {
    forall|x: u64, y: u64| set.contains(x) && #[trigger] adjacent(edges, x, y) ==> set.contains(y)
}

/// The node can be reached from `start`: it lies in every set that holds
/// `start` and that no edge leaves.
pub open spec fn in_component(edges: Seq<(u64, u64)>, start: u64, node: u64) -> bool {
    forall|set: Set<u64>| #[trigger]
        is_closed(edges, set) && set.contains(start) ==> set.contains(node)
}

/// The map lists the edges at each node that has any.
pub open spec fn is_adjacency(
    adjacency: Map<u64, Vec<(u64, u64)>>,
    edges: Seq<(u64, u64)>,
) -> bool {
    forall|n: u64|
        #![trigger adjacency.contains_key(n)]
        #![trigger incident(edges, n)]
        {
            &&& adjacency.contains_key(n) <==> incident(edges, n).len() > 0
            &&& adjacency.contains_key(n) ==> adjacency[n]@ == incident(edges, n)
        }
}

/// A graph, with the edges at each node.
pub struct Graph {
    adjacency: HashMap<u64, Vec<(u64, u64)>>,
    edges: Ghost<Seq<(u64, u64)>>,
}

impl Graph {
    /// All edges, in the order in which they were added.
    pub closed spec fn edges(&self) -> Seq<(u64, u64)> {
        self.edges@
    }

    /// The edges are listed at their nodes, and none joins a node to itself.
    pub closed spec fn wf(&self) -> bool {
        &&& no_self_edges(self.edges@)
        &&& is_adjacency(self.adjacency@, self.edges@)
    }

    /// No edge of a graph joins a node to itself.
    pub proof fn lemma_no_self_edges(&self)
        requires
            self.wf(),
        ensures
            no_self_edges(self.edges()),
    {
    }

    /// The node has an edge.
    pub open spec fn has_node(&self, node: u64) -> bool {
        incident(self.edges(), node).len() > 0
    }

    /// A graph without edges.
    pub fn new() -> (graph: Self)
        ensures
            graph.wf(),
            graph.edges() == Seq::<(u64, u64)>::empty(),
    {
        broadcast use vstd::std_specs::hash::group_hash_axioms;

        proof {
            reveal(Seq::filter);
        }
        Graph { adjacency: HashMap::new(), edges: Ghost(Seq::empty()) }
    }

    /// Whether the node has an edge.
    pub fn contains(&self, node: u64) -> (found: bool)
        requires
            self.wf(),
        ensures
            found == self.has_node(node),
    {
        broadcast use vstd::std_specs::hash::group_hash_axioms;

        self.adjacency.contains_key(&node)
    }

    fn list_edge(&mut self, node: u64, edge: (u64, u64))
        ensures
            final(self).edges == old(self).edges,
            forall|n: u64| #[trigger]
                final(self).adjacency@.contains_key(n) <==> old(self).adjacency@.contains_key(n)
                    || n == node,
            forall|n: u64| #[trigger]
                old(self).adjacency@.contains_key(n) && n != node ==> final(self).adjacency@[n]@
                    == old(self).adjacency@[n]@,
            final(self).adjacency@[node]@ == (if old(self).adjacency@.contains_key(node) {
                old(self).adjacency@[node]@.push(edge)
            } else {
                seq![edge]
            }),
    {
        broadcast use vstd::std_specs::hash::group_hash_axioms;

        let mut list = match self.adjacency.remove(&node) {
            Some(list) => list,
            None => Vec::new(),
        };
        list.push(edge);
        assert(!old(self).adjacency@.contains_key(node) ==> list@ =~= seq![edge]);
        self.adjacency.insert(node, list);
    }

    /// Adds an edge between two different nodes.
    pub fn add_edge(&mut self, a: u64, b: u64)
        requires
            old(self).wf(),
            a != b,
        ensures
            final(self).wf(),
            final(self).edges() == old(self).edges().push((a, b)),
    {
        let ghost before = self.edges@;
        let ghost after = before.push((a, b));
        self.list_edge(a, (a, b));
        let ghost half = self.adjacency@;
        self.list_edge(b, (a, b));
        proof {
            self.edges@ = after;
            reveal(Seq::filter);
            assert(after.drop_last() =~= before);
            assert forall|n: u64|
                #![trigger self.adjacency@.contains_key(n)]
                #![trigger incident(after, n)]
                {
                    &&& self.adjacency@.contains_key(n) <==> incident(after, n).len() > 0
                    &&& self.adjacency@.contains_key(n) ==> self.adjacency@[n]@ == incident(
                        after,
                        n,
                    )
                } by {
                assert(old(self).adjacency@.contains_key(n) <==> incident(before, n).len() > 0);
                assert(half.contains_key(n) <==> old(self).adjacency@.contains_key(n) || n == a);
                if n == a || n == b {
                    assert(incident(after, n) == incident(before, n).push((a, b)));
                    if !old(self).adjacency@.contains_key(n) {
                        assert(incident(after, n) =~= seq![(a, b)]);
                    }
                } else {
                    assert(incident(after, n) == incident(before, n));
                }
            }
        }
    }
}

proof fn lemma_symmetric(edges: Seq<(u64, u64)>, x: u64, y: u64)
    requires
        no_self_edges(edges),
        adjacent(edges, x, y),
    ensures
        adjacent(edges, y, x),
        x != y,
{
    let i = choose|i: int|
        0 <= i < edges.len() && touches(#[trigger] edges[i], x) && far_end(edges[i], x) == y;
    assert(edges[i].0 != edges[i].1);
    assert(touches(edges[i], y) && far_end(edges[i], y) == x);
}

/// The nodes adjacent to a node are the far ends of its edges.
proof fn lemma_incident(edges: Seq<(u64, u64)>, x: u64)
    ensures
        forall|k: int|
            0 <= k < incident(edges, x).len() ==> touches(#[trigger] incident(edges, x)[k], x)
                && adjacent(edges, x, far_end(incident(edges, x)[k], x)),
        forall|y: u64| #[trigger]
            adjacent(edges, x, y) ==> exists|k: int|
                0 <= k < incident(edges, x).len() && far_end(#[trigger] incident(edges, x)[k], x)
                    == y,
{
    let here = |e: (u64, u64)| touches(e, x);
    assert forall|k: int| 0 <= k < incident(edges, x).len() implies touches(
        #[trigger] incident(edges, x)[k],
        x,
    ) && adjacent(edges, x, far_end(incident(edges, x)[k], x)) by {
        edges.lemma_filter_pred(here, k);
        let e = incident(edges, x)[k];
        assert(edges.filter(here).contains(e));
        edges.lemma_filter_contains_rev(here, e);
        let i = choose|i: int| 0 <= i < edges.len() && edges[i] == e;
        assert(touches(edges[i], x) && far_end(edges[i], x) == far_end(e, x));
    }
    assert forall|y: u64| #[trigger] adjacent(edges, x, y) implies exists|k: int|
        0 <= k < incident(edges, x).len() && far_end(#[trigger] incident(edges, x)[k], x) == y by {
        let i = choose|i: int|
            0 <= i < edges.len() && touches(#[trigger] edges[i], x) && far_end(edges[i], x) == y;
        edges.lemma_filter_contains(here, i);
        let k = choose|k: int|
            0 <= k < incident(edges, x).len() && incident(edges, x)[k] == edges[i];
        assert(far_end(incident(edges, x)[k], x) == y);
    }
}

/// A node with two edges to different nodes is joined to no third node.
proof fn lemma_two_neighbours(edges: Seq<(u64, u64)>, n: u64, a: u64, b: u64, y: u64)
    requires
        incident(edges, n).len() == 2,
        adjacent(edges, n, a),
        adjacent(edges, n, b),
        a != b,
        adjacent(edges, n, y),
    ensures
        y == a || y == b,
{
    lemma_incident(edges, n);
    let ka = choose|k: int|
        0 <= k < incident(edges, n).len() && far_end(#[trigger] incident(edges, n)[k], n) == a;
    let kb = choose|k: int|
        0 <= k < incident(edges, n).len() && far_end(#[trigger] incident(edges, n)[k], n) == b;
    let ky = choose|k: int|
        0 <= k < incident(edges, n).len() && far_end(#[trigger] incident(edges, n)[k], n) == y;
}

/// Both nodes next to a node of a ring are adjacent to it, and they differ.
proof fn lemma_ring_neighbours(edges: Seq<(u64, u64)>, ring: Seq<u64>, i: int)
    requires
        no_self_edges(edges),
        is_ring(edges, ring),
        0 <= i < ring.len(),
    ensures
        adjacent(edges, ring[i], ring[after(ring.len() as int, i)]),
        adjacent(edges, ring[i], ring[before(ring.len() as int, i)]),
        ring[after(ring.len() as int, i)] != ring[before(ring.len() as int, i)],
{
    let n = ring.len() as int;
    assert(joined(edges, ring, i));
    let j = before(n, i);
    assert(joined(edges, ring, j));
    assert(after(n, j) == i);
    lemma_symmetric(edges, ring[j], ring[i]);
    assert(after(n, i) != before(n, i));
}

/// No edge leaves a ring.
pub proof fn lemma_ring_closed(edges: Seq<(u64, u64)>, ring: Seq<u64>)
    requires
        no_self_edges(edges),
        is_ring(edges, ring),
    ensures
        is_closed(edges, ring.to_set()),
{
    assert forall|x: u64, y: u64|
        ring.to_set().contains(x) && #[trigger] adjacent(edges, x, y) implies ring.to_set().contains(
        y,
    ) by {
        assert(ring.contains(x));
        let i = choose|i: int| 0 <= i < ring.len() && ring[i] == x;
        let n = ring.len() as int;
        lemma_ring_neighbours(edges, ring, i);
        assert(incident(edges, ring[i]).len() == 2);
        lemma_two_neighbours(edges, x, ring[after(n, i)], ring[before(n, i)], y);
        assert(ring.contains(ring[after(n, i)]));
        assert(ring.contains(ring[before(n, i)]));
    }
}

/// A set that no edge leaves holds all nodes of a ring or none.
pub proof fn lemma_ring_connected(
    edges: Seq<(u64, u64)>,
    ring: Seq<u64>,
    set: Set<u64>,
    i: int,
    j: int,
)
    requires
        is_ring(edges, ring),
        is_closed(edges, set),
        0 <= i < ring.len(),
        0 <= j < ring.len(),
        set.contains(ring[i]),
    ensures
        set.contains(ring[j]),
{
    lemma_ring_forward(edges, ring, set, i, ring.len() - 1);
    assert(joined(edges, ring, ring.len() - 1));
    assert(set.contains(ring[0]));
    lemma_ring_forward(edges, ring, set, 0, j);
}

proof fn lemma_ring_forward(
    edges: Seq<(u64, u64)>,
    ring: Seq<u64>,
    set: Set<u64>,
    i: int,
    j: int,
)
    requires
        is_ring(edges, ring),
        is_closed(edges, set),
        0 <= i <= j < ring.len(),
        set.contains(ring[i]),
    ensures
        set.contains(ring[j]),
    decreases j - i,
{
    if i < j {
        lemma_ring_forward(edges, ring, set, i, j - 1);
        assert(joined(edges, ring, j - 1));
    }
}

/// Reachability goes along edges.
proof fn lemma_component_step(edges: Seq<(u64, u64)>, start: u64, x: u64, y: u64)
    requires
        in_component(edges, start, x),
        adjacent(edges, x, y),
    ensures
        in_component(edges, start, y),
{
    assert forall|set: Set<u64>| #[trigger]
        is_closed(edges, set) && set.contains(start) implies set.contains(y) by {
        assert(set.contains(x));
    }
}

/// `after` marks all nodes that can be reached from `start`; the other marks
/// are those of `before`.
pub open spec fn is_marked(
    edges: Seq<(u64, u64)>,
    start: u64,
    before: Map<u64, bool>,
    after: Map<u64, bool>,
) -> bool {
    &&& forall|n: u64| #[trigger]
        after.contains_key(n) <==> before.contains_key(n) || in_component(edges, start, n)
    &&& forall|n: u64| #[trigger]
        after.contains_key(n) ==> after[n] == (in_component(edges, start, n) || before[n])
}

/// If no edge leaves the marked nodes, none leaves them after a whole component
/// is marked too.
pub proof fn lemma_marks_stay_closed(
    edges: Seq<(u64, u64)>,
    start: u64,
    before: Map<u64, bool>,
    after: Map<u64, bool>,
)
    requires
        is_closed(edges, before.dom()),
        is_marked(edges, start, before, after),
    ensures
        is_closed(edges, after.dom()),
{
    assert forall|x: u64, y: u64|
        after.dom().contains(x) && #[trigger] adjacent(
            edges,
            x,
            y,
        ) implies after.dom().contains(y) by {
        assert(after.contains_key(x));
        if before.contains_key(x) {
            assert(before.dom().contains(x));
            assert(before.dom().contains(y));
        } else {
            lemma_component_step(edges, start, x, y);
        }
        assert(after.contains_key(y));
    }
}

/// Collects all nodes that can be reached from `start`, and marks them as
/// visited. Tells whether each of them has exactly two edges.
fn collect_component(
    start: u64,
    graph: &Graph,
    visited: &mut HashMap<u64, bool>,
) -> (found: (Vec<u64>, bool))
    requires
        graph.wf(),
        graph.has_node(start),
        forall|n: u64| #[trigger]
            in_component(graph.edges(), start, n) ==> !old(visited)@.contains_key(n),
    ensures
        found.0@.no_duplicates(),
        forall|n: u64| #[trigger] found.0@.contains(n) <==> in_component(graph.edges(), start, n),
        is_marked(graph.edges(), start, old(visited)@, final(visited)@),
        forall|n: u64| #[trigger] in_component(graph.edges(), start, n) ==> graph.has_node(n),
        found.1 <==> forall|n: u64| #[trigger]
            in_component(graph.edges(), start, n) ==> incident(graph.edges(), n).len() == 2,
{
    let ghost edges = graph.edges();
    let adjacency = &graph.adjacency;
    broadcast use vstd::std_specs::hash::group_hash_axioms;

    let ghost earlier = visited@;
    let mut stack: Vec<u64> = Vec::new();
    stack.push(start);
    let mut component: Vec<u64> = Vec::new();
    let mut all_degree_two = true;
    proof {
        assert(stack@.contains(start)) by {
            assert(stack@[0] == start);
        }
    }
    while stack.len() > 0
        invariant
            no_self_edges(edges),
            is_adjacency(adjacency@, edges),
            forall|n: u64| #[trigger]
                in_component(edges, start, n) ==> !earlier.contains_key(n),
            earlier == old(visited)@,
            component@.no_duplicates(),
            forall|n: u64| #[trigger]
                visited@.contains_key(n) <==> earlier.contains_key(n) || component@.contains(n),
            forall|n: u64| #[trigger]
                visited@.contains_key(n) ==> visited@[n] == (component@.contains(n)
                    || earlier[n]),
            forall|n: u64| #[trigger]
                component@.contains(n) ==> !earlier.contains_key(n) && adjacency@.contains_key(n)
                    && in_component(edges, start, n),
            forall|k: int|
                0 <= k < stack@.len() ==> adjacency@.contains_key(#[trigger] stack@[k])
                    && in_component(edges, start, stack@[k]),
            component@.contains(start) || stack@.contains(start),
            forall|x: u64, y: u64|
                component@.contains(x) && #[trigger] adjacent(edges, x, y) ==> visited@.contains_key(
                    y,
                ) || stack@.contains(y),
            all_degree_two <==> forall|n: u64| #[trigger]
                component@.contains(n) ==> incident(edges, n).len() == 2,
        decreases adjacency@.dom().difference(visited@.dom()).len(), stack@.len(),
    {
        broadcast use vstd::std_specs::hash::group_hash_axioms;

        let ghost pushed = stack@;
        let ghost marked = visited@;
        let ghost done = component@;
        assert(pushed.last() == pushed[pushed.len() - 1]);
        let node = match stack.pop() {
            Some(node) => node,
            None => start,
        };
        assert(adjacency@.contains_key(node) && in_component(edges, start, node));
        assert forall|y: u64| #[trigger] pushed.contains(y) implies stack@.contains(y) || y
            == node by {
            let k = choose|k: int| 0 <= k < pushed.len() && pushed[k] == y;
            if k < pushed.len() - 1 {
                assert(stack@[k] == y);
            }
        }
        if !visited.contains_key(&node) {
            visited.insert(node, true);
            component.push(node);
            proof {
                assert(component@.contains(node)) by {
                    assert(component@[done.len() as int] == node);
                }
                assert forall|n: u64| #[trigger] component@.contains(n) <==> done.contains(n) || n
                    == node by {
                    if done.contains(n) {
                        let k = choose|k: int| 0 <= k < done.len() && done[k] == n;
                        assert(component@[k] == n);
                    }
                }
                let left = adjacency@.dom().difference(marked.dom());
                assert(left.contains(node));
                assert(adjacency@.dom().difference(visited@.dom()) =~= left.remove(node));
            }
            let list = match adjacency.get(&node) {
                Some(list) => list,
                None => {
                    assert(false);
                    return (component, false);
                },
            };
            let ghost regular = all_degree_two;
            if list.len() != 2 {
                all_degree_two = false;
            }
            proof {
                assert(list@ == incident(edges, node));
                if !regular {
                    let n = choose|n: u64| #[trigger]
                        done.contains(n) && incident(edges, n).len() != 2;
                    assert(component@.contains(n));
                }
                lemma_incident(edges, node);
            }
            let ghost base = stack@;
            let mut i: usize = 0;
            while i < list.len()
                invariant
                    no_self_edges(edges),
                    is_adjacency(adjacency@, edges),
                    list@ == incident(edges, node),
                    in_component(edges, start, node),
                    forall|k: int|
                        0 <= k < list@.len() ==> touches(#[trigger] list@[k], node) && adjacent(
                            edges,
                            node,
                            far_end(list@[k], node),
                        ),
                    i <= list@.len(),
                    forall|n: u64| #[trigger] base.contains(n) ==> stack@.contains(n),
                    forall|k: int|
                        0 <= k < stack@.len() ==> adjacency@.contains_key(#[trigger] stack@[k])
                            && in_component(edges, start, stack@[k]),
                    forall|k: int|
                        0 <= k < i ==> visited@.contains_key(far_end(#[trigger] list@[k], node))
                            || stack@.contains(far_end(list@[k], node)),
                decreases list@.len() - i,
            {
                broadcast use vstd::std_specs::hash::group_hash_axioms;

                let (a, b) = list[i];
                let next = if a == node {
                    b
                } else {
                    a
                };
                assert(next == far_end(list@[i as int], node));
                if !visited.contains_key(&next) {
                    let ghost held = stack@;
                    stack.push(next);
                    proof {
                        lemma_component_step(edges, start, node, next);
                        lemma_symmetric(edges, node, next);
                        lemma_incident(edges, next);
                        assert(incident(edges, next).len() > 0);
                        assert forall|n: u64| held.contains(n) implies #[trigger] stack@.contains(
                            n,
                        ) by {
                            let k = choose|k: int| 0 <= k < held.len() && held[k] == n;
                            assert(stack@[k] == n);
                        }
                        assert(stack@[held.len() as int] == next);
                        assert(stack@.contains(next));
                    }
                }
                i = i + 1;
            }
            proof {
                assert forall|x: u64, y: u64|
                    component@.contains(x) && #[trigger] adjacent(edges, x, y) implies
                    visited@.contains_key(y) || stack@.contains(y) by {
                    if x == node {
                        let k = choose|k: int|
                            0 <= k < incident(edges, node).len() && far_end(
                                #[trigger] incident(edges, node)[k],
                                node,
                            ) == y;
                        assert(far_end(list@[k], node) == y);
                    } else {
                        assert(done.contains(x));
                    }
                }
            }
        }
    }
    proof {
        assert forall|x: u64, y: u64|
            component@.to_set().contains(x) && #[trigger] adjacent(
                edges,
                x,
                y,
            ) implies component@.to_set().contains(y) by {
            assert(component@.contains(x));
            assert(visited@.contains_key(y));
            lemma_component_step(edges, start, x, y);
            assert(component@.contains(y));
        }
        assert(is_closed(edges, component@.to_set()));
        assert(component@.to_set().contains(start));
        assert forall|n: u64| in_component(edges, start, n) implies #[trigger] component@.contains(
            n,
        ) by {
            assert(component@.to_set().contains(n));
        }
        if all_degree_two {
            assert forall|n: u64| #[trigger] in_component(edges, start, n) implies incident(
                edges,
                n,
            ).len() == 2 by {
                assert(component@.contains(n));
            }
        } else {
            let n = choose|n: u64| #[trigger]
                component@.contains(n) && incident(edges, n).len() != 2;
            assert(in_component(edges, start, n));
        }
    }
    (component, all_degree_two)
}

/// A node outside a set that no edge leaves reaches nothing inside it.
pub proof fn lemma_closed_backwards(edges: Seq<(u64, u64)>, set: Set<u64>, start: u64, node: u64)
    requires
        no_self_edges(edges),
        is_closed(edges, set),
        !set.contains(start),
        in_component(edges, start, node),
    ensures
        !set.contains(node),
{
    let outside = set.complement();
    assert forall|x: u64, y: u64|
        outside.contains(x) && #[trigger] adjacent(edges, x, y) implies outside.contains(y) by {
        lemma_symmetric(edges, x, y);
    }
    assert(is_closed(edges, outside));
}

/// Walks the component of `start`. Returns the ring through `start`, beginning
/// with `start` and going along its first edge, if there is one. Marks all
/// nodes of the component as visited.
pub fn trace_cycle(
    start: u64,
    graph: &Graph,
    visited: &mut HashMap<u64, bool>,
) -> (ring: Option<Vec<u64>>)
    requires
        graph.wf(),
        graph.has_node(start),
        forall|n: u64| #[trigger]
            in_component(graph.edges(), start, n) ==> !old(visited)@.contains_key(n),
    ensures
        match ring {
            Some(ring) => {
                &&& is_ring(graph.edges(), ring@)
                &&& ring@[0] == start
                &&& ring@[1] == far_end(incident(graph.edges(), start)[0], start)
                &&& forall|n: u64| #[trigger]
                    ring@.contains(n) <==> in_component(graph.edges(), start, n)
            },
            None => forall|other: Seq<u64>| #[trigger]
                is_ring(graph.edges(), other) ==> !other.contains(start),
        },
        is_marked(graph.edges(), start, old(visited)@, final(visited)@),
{
    let ghost edges = graph.edges();
    let adjacency = &graph.adjacency;
    broadcast use vstd::std_specs::hash::group_hash_axioms;

    let (component, all_degree_two) = collect_component(start, graph, visited);
    proof {
        // Whatever ring runs through the start, it is the whole component.
        assert forall|other: Seq<u64>, n: u64| #[trigger]
            is_ring(edges, other) && other.contains(start) && #[trigger] in_component(
                edges,
                start,
                n,
            ) implies other.contains(n) by {
            lemma_ring_closed(edges, other);
            assert(other.to_set().contains(start));
            assert(other.to_set().contains(n));
        }
    }
    if !all_degree_two {
        proof {
            let n = choose|n: u64| #[trigger]
                in_component(edges, start, n) && incident(edges, n).len() != 2;
            assert forall|other: Seq<u64>| #[trigger] is_ring(
                edges,
                other,
            ) implies !other.contains(start) by {
                if other.contains(start) {
                    assert(other.contains(n));
                    let i = choose|i: int| 0 <= i < other.len() && other[i] == n;
                    assert(incident(edges, other[i]).len() == 2);
                }
            }
        }
        return None;
    }
    assert(in_component(edges, start, start));
    let first = match adjacency.get(&start) {
        Some(list) => list[0],
        None => (start, start),
    };
    let mut loop_nodes: Vec<u64> = Vec::new();
    loop_nodes.push(start);
    let mut prev = start;
    let mut current = if first.0 == start {
        first.1
    } else {
        first.0
    };
    proof {
        lemma_incident(edges, start);
        assert(incident(edges, start)[0] == first);
        assert(adjacent(edges, start, current));
        lemma_symmetric(edges, start, current);
        lemma_component_step(edges, start, start, current);
    }
    while current != start
        invariant
            edges == graph.edges(),
            no_self_edges(edges),
            is_adjacency(adjacency@, edges),
            forall|n: u64| #[trigger] component@.contains(n) <==> in_component(edges, start, n),
            component@.no_duplicates(),
            forall|n: u64| #[trigger]
                in_component(edges, start, n) ==> adjacency@.contains_key(n) && incident(
                    edges,
                    n,
                ).len() == 2,
            forall|other: Seq<u64>, n: u64| #[trigger]
                is_ring(edges, other) && other.contains(start) && #[trigger] in_component(
                    edges,
                    start,
                    n,
                ) ==> other.contains(n),
            is_path(edges, start, loop_nodes@, current),
            prev == loop_nodes@.last(),
            is_marked(edges, start, old(visited)@, visited@),
            first == incident(edges, start)[0],
            loop_nodes@.len() == 1 ==> current == far_end(first, start),
            loop_nodes@.len() > 1 ==> loop_nodes@[1] == far_end(first, start),
        ensures
            current == start,
        decreases component@.len() - loop_nodes@.len(),
    {
        broadcast use vstd::std_specs::hash::group_hash_axioms;

        proof {
            lemma_path_is_fresh(edges, start, loop_nodes@, current);
            lemma_path_fits(edges, start, loop_nodes@.push(current), component@);
            lemma_incident(edges, current);
        }
        let ghost path = loop_nodes@;
        loop_nodes.push(current);
        let (e, f) = match adjacency.get(&current) {
            Some(list) => (list[0], list[1]),
            None => (first, first),
        };
        assert(e == incident(edges, current)[0] && f == incident(edges, current)[1]);
        let left = if e.0 == current {
            e.1
        } else {
            e.0
        };
        let right = if f.0 == current {
            f.1
        } else {
            f.0
        };
        proof {
            lemma_symmetric(edges, prev, current);
            let k = choose|k: int|
                0 <= k < incident(edges, current).len() && far_end(
                    #[trigger] incident(edges, current)[k],
                    current,
                ) == prev;
            assert(prev == left || prev == right);
        }
        let next = if left != prev {
            left
        } else if right != prev {
            right
        } else {
            proof {
                assert forall|other: Seq<u64>| #[trigger] is_ring(
                    edges,
                    other,
                ) implies !other.contains(start) by {
                    if other.contains(start) {
                        assert(in_component(edges, start, current));
                        assert(other.contains(current));
                        let i = choose|i: int| 0 <= i < other.len() && other[i] == current;
                        lemma_ring_neighbours(edges, other, i);
                    }
                }
            }
            return None;
        };
        proof {
            lemma_component_step(edges, start, current, next);
            assert(adjacent(edges, current, next));
            lemma_path_grows(edges, start, path, current, next);
        }
        prev = current;
        current = next;
    }
    proof {
        let ring = loop_nodes@;
        lemma_path_closes(edges, start, ring);
        assert(ring.contains(start)) by {
            assert(ring[0] == start);
        }
        assert(ring.to_set() =~= component@.to_set()) by {
            assert forall|n: u64| ring.contains(n) <==> component@.contains(n) by {
                if ring.contains(n) {
                    let i = choose|i: int| 0 <= i < ring.len() && ring[i] == n;
                    assert(in_component(edges, start, ring[i]));
                }
                if component@.contains(n) {
                    assert(in_component(edges, start, n));
                }
            }
            assert forall|n: u64| ring.to_set().contains(n) <==> component@.to_set().contains(
                n,
            ) by {
                assert(ring.contains(n) <==> component@.contains(n));
            }
        }
        ring.unique_seq_to_set();
        component@.unique_seq_to_set();
    }
    if loop_nodes.len() == component.len() {
        Some(loop_nodes)
    } else {
        None
    }
}

/// `path` leads from `start` along edges, over nodes of degree two, without
/// turning back, and `next` is the node after its last one.
spec fn is_path(edges: Seq<(u64, u64)>, start: u64, path: Seq<u64>, next: u64) -> bool {
    let whole = path.push(next);
    &&& path.len() >= 1
    &&& path[0] == start
    &&& path.no_duplicates()
    &&& in_component(edges, start, next)
    &&& forall|i: int|
        0 <= i < path.len() ==> in_component(edges, start, #[trigger] path[i]) && incident(
            edges,
            path[i],
        ).len() == 2
    &&& forall|i: int|
        0 <= i < path.len() ==> adjacent(edges, #[trigger] path[i], whole[i + 1]) && adjacent(
            edges,
            whole[i + 1],
            path[i],
        )
    &&& forall|i: int| 1 <= i < path.len() ==> path[i - 1] != #[trigger] whole[i + 1]
}

/// A path that does not return to its start meets no node twice.
proof fn lemma_path_is_fresh(edges: Seq<(u64, u64)>, start: u64, path: Seq<u64>, next: u64)
    requires
        no_self_edges(edges),
        is_path(edges, start, path, next),
        next != start,
    ensures
        !path.contains(next),
        path.push(next).no_duplicates(),
{
    let whole = path.push(next);
    if path.contains(next) {
        let k = choose|k: int| 0 <= k < path.len() && path[k] == next;
        let m = path.len() - 1;
        assert(adjacent(edges, path[m], whole[m + 1]));
        assert(whole[m + 1] == next);
        lemma_symmetric(edges, path[m], next);
        assert(k != m);
        assert(k >= 1);
        assert(adjacent(edges, path[k], whole[k + 1]));
        assert(whole[k + 1] == path[k + 1]);
        assert(adjacent(edges, path[k - 1], whole[k]));
        assert(whole[k] == path[k]);
        assert(path[k - 1] != whole[k + 1]);
        assert(incident(edges, path[k]).len() == 2);
        lemma_two_neighbours(edges, path[k], path[k - 1], path[k + 1], path[m]);
        assert(m == k + 1);
        assert(path[m - 1] != whole[m + 1]);
    }
}

proof fn lemma_path_grows(
    edges: Seq<(u64, u64)>,
    start: u64,
    path: Seq<u64>,
    current: u64,
    next: u64,
)
    requires
        no_self_edges(edges),
        is_path(edges, start, path, current),
        current != start,
        incident(edges, current).len() == 2,
        adjacent(edges, current, next),
        in_component(edges, start, next),
        next != path.last(),
    ensures
        is_path(edges, start, path.push(current), next),
{
    lemma_path_is_fresh(edges, start, path, current);
    lemma_symmetric(edges, current, next);
    let longer = path.push(current);
    let whole = longer.push(next);
    assert forall|i: int| 0 <= i < longer.len() implies adjacent(
        edges,
        #[trigger] longer[i],
        whole[i + 1],
    ) && adjacent(edges, whole[i + 1], longer[i]) by {
        if i < path.len() {
            assert(adjacent(edges, path[i], longer[i + 1]));
            assert(whole[i + 1] == longer[i + 1]);
        }
    }
    assert forall|i: int| 1 <= i < longer.len() implies longer[i - 1] != #[trigger] whole[i
        + 1] by {
        if i < path.len() {
            assert(path[i - 1] != longer[i + 1]);
        }
    }
    assert forall|i: int| 0 <= i < longer.len() implies in_component(
        edges,
        start,
        #[trigger] longer[i],
    ) && incident(edges, longer[i]).len() == 2 by {
        if i < path.len() {
            assert(longer[i] == path[i]);
        }
    }
}

/// A path is no longer than the list of all reachable nodes.
proof fn lemma_path_fits(
    edges: Seq<(u64, u64)>,
    start: u64,
    whole: Seq<u64>,
    component: Seq<u64>,
)
    requires
        whole.no_duplicates(),
        component.no_duplicates(),
        forall|n: u64| #[trigger] whole.contains(n) ==> component.contains(n),
    ensures
        whole.len() <= component.len(),
{
    whole.unique_seq_to_set();
    component.unique_seq_to_set();
    assert(whole.to_set().subset_of(component.to_set())) by {
        assert forall|n: u64| whole.to_set().contains(n) implies component.to_set().contains(n) by {
            assert(whole.contains(n));
        }
    }
    vstd::set_lib::lemma_len_subset(whole.to_set(), component.to_set());
}

/// A path that has come back to its start is a ring.
proof fn lemma_path_closes(edges: Seq<(u64, u64)>, start: u64, path: Seq<u64>)
    requires
        no_self_edges(edges),
        is_path(edges, start, path, start),
    ensures
        is_ring(edges, path),
{
    let whole = path.push(start);
    let n = path.len() as int;
    if n == 1 {
        assert(adjacent(edges, path[0], whole[1]));
        lemma_symmetric(edges, start, start);
    }
    if n == 2 {
        assert(path[0] != whole[2]);
    }
    assert forall|i: int| 0 <= i < path.len() implies #[trigger] joined(edges, path, i) by {
        assert(adjacent(edges, path[i], whole[i + 1]));
        if i + 1 < n {
            assert(whole[i + 1] == path[i + 1]);
        } else {
            assert(whole[i + 1] == start);
        }
    }
}

/// Two rings that begin with the same two nodes are the same.
pub proof fn lemma_ring_alike(edges: Seq<(u64, u64)>, a: Seq<u64>, b: Seq<u64>)
    requires
        no_self_edges(edges),
        is_ring(edges, a),
        is_ring(edges, b),
        a[0] == b[0],
        a[1] == b[1],
    ensures
        a == b,
{
    let n = if a.len() < b.len() {
        a.len() as int
    } else {
        b.len() as int
    };
    lemma_rings_agree(edges, a, b, n);
    lemma_ring_ends(edges, a, b);
    lemma_ring_ends(edges, b, a);
    assert(a =~= b);
}

proof fn lemma_rings_agree(edges: Seq<(u64, u64)>, a: Seq<u64>, b: Seq<u64>, k: int)
    requires
        no_self_edges(edges),
        is_ring(edges, a),
        is_ring(edges, b),
        a[0] == b[0],
        a[1] == b[1],
        0 <= k <= a.len(),
        k <= b.len(),
    ensures
        forall|i: int| 0 <= i < k ==> #[trigger] a[i] == b[i],
    decreases k,
{
    if k > 2 {
        lemma_rings_agree(edges, a, b, k - 1);
        lemma_ring_neighbours(edges, a, k - 2);
        lemma_ring_neighbours(edges, b, k - 2);
        assert(a[k - 2] == b[k - 2]);
        assert(a[k - 3] == b[k - 3]);
        assert(incident(edges, a[k - 2]).len() == 2);
        lemma_two_neighbours(edges, a[k - 2], a[k - 1], a[k - 3], b[k - 1]);
        assert(b[k - 1] != b[k - 3]);
    }
}

/// A ring does not go on where a ring with the same nodes has closed.
proof fn lemma_ring_ends(edges: Seq<(u64, u64)>, a: Seq<u64>, b: Seq<u64>)
    requires
        no_self_edges(edges),
        is_ring(edges, a),
        is_ring(edges, b),
        forall|i: int| 0 <= i < a.len() && i < b.len() ==> #[trigger] a[i] == b[i],
    ensures
        b.len() <= a.len(),
{
    if a.len() < b.len() {
        let n = a.len() as int;
        lemma_ring_neighbours(edges, a, n - 1);
        lemma_ring_neighbours(edges, b, n - 1);
        assert(a[n - 1] == b[n - 1]);
        assert(a[n - 2] == b[n - 2]);
        assert(a[0] == b[0]);
        assert(incident(edges, a[n - 1]).len() == 2);
        lemma_two_neighbours(edges, a[n - 1], a[0], a[n - 2], b[n]);
        assert(b[n] != b[n - 2]);
        assert(b[n] != b[0]);
    }
}

/// A ring that shares a node with another holds all its nodes.
pub proof fn lemma_ring_shared(
    edges: Seq<(u64, u64)>,
    a: Seq<u64>,
    b: Seq<u64>,
    node: u64,
    other: u64,
)
    requires
        no_self_edges(edges),
        is_ring(edges, a),
        is_ring(edges, b),
        a.contains(node),
        b.contains(node),
        a.contains(other),
    ensures
        b.contains(other),
{
    lemma_ring_closed(edges, b);
    let i = choose|i: int| 0 <= i < a.len() && a[i] == node;
    let j = choose|j: int| 0 <= j < a.len() && a[j] == other;
    assert(b.to_set().contains(a[i]));
    lemma_ring_connected(edges, a, b.to_set(), i, j);
    assert(b.to_set().contains(other));
}

} // verus!
