//! A directed graph that grows node by node and edge by edge, with a tree
//! test.
//!
//! The tree test deems the graph a tree when it has one node more than it
//! has edges and a sweep along first edges visits every node: the walk to a
//! root follows the first reversed edge from node zero, and the connectivity
//! sweep follows the first forward edge from node zero, counting the nodes
//! it visits and rejecting any revisit as a cycle.

use vstd::prelude::*;
use std::collections::HashSet;

verus! {

/// Follows the first entry of each adjacency list from `cur` until a node
/// with no outgoing entry is reached. Yields the node the walk stops at and
/// the set of nodes it visited, or nothing if it revisits a node. The fuel
/// only drives the recursion; one unit per new node suffices.
spec fn first_edge_walk(es: Seq<Seq<usize>>, cur: usize, visited: Set<usize>, fuel: nat) -> Option<
    (usize, Set<usize>),
>
    decreases fuel,
{
    if fuel == 0 {
        None
    } else if !((cur as int) < es.len()) {
        None
    } else if es[cur as int].len() == 0 {
        Some((cur, visited))
    } else {
        let nxt = es[cur as int][0];
        if visited.contains(nxt) {
            None
        } else {
            first_edge_walk(es, nxt, visited.insert(nxt), (fuel - 1) as nat)
        }
    }
}

/// One node of the graph.
struct NodeData<T> {
    data: T,
}

/// One outgoing edge.
struct EdgeData {
    target: usize,
}

/// A growable directed graph that keeps each edge in both directions.
pub struct Graph<T> {
    nodes: Vec<NodeData<T>>,
    edges: Vec<Vec<EdgeData>>,
    reversed_edges: Vec<Vec<EdgeData>>,
}

/// The targets of one adjacency list.
spec fn targets(adj: Seq<EdgeData>) -> Seq<usize> {
    adj.map_values(|e: EdgeData| e.target)
}

impl<T> Graph<T> {
    /// Forward and reversed adjacency exist for every node, they mirror one
    /// another edge for edge, and every stored target is a node.
    pub closed spec fn wf(&self) -> bool {
        &&& self.edges@.len() == self.nodes@.len()
        &&& self.reversed_edges@.len() == self.nodes@.len()
        &&& forall|v: int, i: int|
            0 <= v < self.edges@.len() && 0 <= i < self.edges@[v]@.len() ==> ((#[trigger] self.edges@[v]@[i]).target as int) < self.nodes@.len()
        &&& forall|v: int, i: int|
            0 <= v < self.reversed_edges@.len() && 0 <= i < self.reversed_edges@[v]@.len() ==> ((#[trigger] self.reversed_edges@[v]@[i]).target as int) < self.nodes@.len()
    }

    /// The number of nodes.
    pub closed spec fn node_count(&self) -> nat {
        self.nodes@.len() as nat
    }

    /// The total number of edges.
    pub closed spec fn edge_count(&self) -> nat {
        count_edges(self.edges@)
    }

    /// The forward adjacency, targets only.
    spec fn forward(&self) -> Seq<Seq<usize>> {
        Seq::new(self.edges@.len() as nat, |v: int| targets(self.edges@[v]@))
    }

    /// The reversed adjacency, targets only.
    spec fn reversed(&self) -> Seq<Seq<usize>> {
        Seq::new(self.reversed_edges@.len() as nat, |v: int| targets(self.reversed_edges@[v]@))
    }

    /// The walk to a root along first reversed edges from node zero
    /// finishes without revisiting a node.
    pub closed spec fn root_walk_succeeds(&self) -> bool {
        first_edge_walk(
            self.reversed(),
            0,
            Set::empty().insert(0),
            self.node_count() + 1,
        ) is Some
    }

    /// The sweep along first forward edges from node zero finishes without
    /// revisiting a node and visits every node.
    pub closed spec fn sweep_visits_all(&self) -> bool {
        match first_edge_walk(self.forward(), 0, Set::empty().insert(0), self.node_count() + 1) {
            Some((stop, visited)) => visited.len() == self.node_count(),
            None => false,
        }
    }

    /// An empty graph.
    pub fn new() -> (g: Graph<T>)
        ensures
            g.wf(),
            g.node_count() == 0,
            g.edge_count() == 0,
    {
        Graph { nodes: Vec::new(), edges: Vec::new(), reversed_edges: Vec::new() }
    }

    /// Adds a node and returns its index.
    pub fn add_node(&mut self, data: T) -> (index: usize)
        requires
            old(self).wf(),
        ensures
            final(self).wf(),
            index == old(self).node_count(),
            final(self).node_count() == old(self).node_count() + 1,
            final(self).edge_count() == old(self).edge_count(),
    {
        let index = self.nodes.len();
        self.nodes.push(NodeData { data });
        self.edges.push(Vec::new());
        self.reversed_edges.push(Vec::new());
        proof {
            lemma_count_edges_push(old(self).edges@);
        }
        index
    }

    /// Adds an edge between two existing nodes, recording it in both
    /// directions. Fails, changing nothing, when either endpoint is not a
    /// node.
    pub fn add_edge(&mut self, source: usize, target: usize) -> (r: Result<(), ()>)
        requires
            old(self).wf(),
        ensures
            final(self).wf(),
            r is Ok <==> ((source as int) < old(self).node_count() && (target as int) < old(
                self,
            ).node_count()),
            r is Ok ==> final(self).node_count() == old(self).node_count()
                && final(self).edge_count() == old(self).edge_count() + 1,
            r is Err ==> *final(self) == *old(self),
    {
        if source >= self.edges.len() || target >= self.reversed_edges.len() {
            return Err(());
        }
        let ghost epre = self.edges@;
        let fwd = &mut self.edges[source];
        fwd.push(EdgeData { target });
        let rev = &mut self.reversed_edges[target];
        rev.push(EdgeData { target: source });
        proof {
            lemma_count_edges_update(epre, source as int, self.edges@[source as int]);
        }
        Ok(())
    }

    /// Whether the graph is a tree: nonempty, one edge fewer than nodes,
    /// and connected in the sense of the two first-edge walks.
    pub fn is_tree(&self) -> (r: bool)
        requires
            self.wf(),
            self.edge_count() <= usize::MAX,
        ensures
            r == (self.node_count() > 0 && self.edge_count() == self.node_count() - 1
                && self.root_walk_succeeds() && self.sweep_visits_all()),
    {
        // Empty graph is not a tree
        if self.nodes.len() == 0 {
            return false;
        }
        // Must have n - 1 edges and be connected
        (self.num_edges() == self.nodes.len() - 1) && self.is_connected()
    }

    /// The total number of recorded forward edges.
    fn num_edges(&self) -> (r: usize)
        requires
            self.wf(),
            self.edge_count() <= usize::MAX,
        ensures
            r == self.edge_count(),
    {
        let n = self.edges.len();
        let mut total: usize = 0;
        let mut v: usize = 0;
        proof {
            assert(self.edges@.take(0) =~= Seq::<Vec<EdgeData>>::empty());
        }
        while v < n
            invariant
                v <= n,
                n == self.edges@.len(),
                total == count_edges(self.edges@.take(v as int)),
                count_edges(self.edges@) <= usize::MAX,
                self.wf(),
            decreases n - v,
        {
            proof {
                assert(self.edges@.take(v as int + 1).drop_last() =~= self.edges@.take(v as int));
                assert(self.edges@.take(v as int + 1).last() == self.edges@[v as int]);
                lemma_count_edges_take_le(self.edges@, v as int + 1);
                assert(self.edges.len() == self.edges@.len());
            }
            total = total + self.edges[v].len();
            v = v + 1;
        }
        proof {
            assert(self.edges@.take(n as int) =~= self.edges@);
        }
        total
    }

    /// Follows the first forward edge from node zero, counting visited
    /// nodes; reports whether the walk saw the whole graph.
    fn is_connected(&self) -> (r: bool)
        requires
            self.wf(),
            self.node_count() > 0,
        ensures
            r == (self.root_walk_succeeds() && self.sweep_visits_all()),
    {
        match self.to_head() {
            Some(_) => {},
            None => {
                return false;
            },
        }

        let n = self.nodes.len();
        let mut visited: HashSet<usize> = HashSet::new();

        let mut target_node: usize = 0;
        visited.insert(target_node);
        let ghost mut fuel: nat = (n + 1) as nat;
        let ghost goal = first_edge_walk(self.forward(), 0, Set::empty().insert(0), fuel);

        loop
            invariant
                self.wf(),
                n == self.node_count(),
                n > 0,
                (target_node as int) < n,
                visited@.finite(),
                visited@.contains(target_node),
                forall|x: usize| #[trigger] visited@.contains(x) ==> (x as int) < n,
                1 <= visited@.len() <= n,
                fuel == n + 2 - visited@.len(),
                self.root_walk_succeeds(),
                goal == first_edge_walk(self.forward(), target_node, visited@, fuel),
                goal == first_edge_walk(self.forward(), 0, Set::empty().insert(0), (n + 1) as nat),
            decreases fuel,
        {
            let current_edge = &self.edges[target_node];

            if current_edge.len() > 0 {
                let next = current_edge[0].target;
                proof {
                    assert(self.forward()[target_node as int][0] == next);
                    assert(self.forward()[target_node as int].len() == current_edge@.len());
                }
                // Cycles means the graph is not a tree
                if visited.contains(&next) {
                    proof {
                        assert(goal is None);
                    }
                    return false;
                }
                target_node = next;
                visited.insert(target_node);
                proof {
                    lemma_visited_card(visited@, n as nat);
                    fuel = (fuel - 1) as nat;
                }
            } else {
                proof {
                    assert(self.forward()[target_node as int].len() == 0);
                    assert(goal == Some((target_node, visited@)));
                }
                let r = visited.len() == self.nodes.len();
                proof {
                    vstd::std_specs::hash::axiom_spec_hash_set_len(&visited);
                }
                return r;
            }
        }
    }

    /// Follows the first reversed edge from node zero towards a root;
    /// reports the node the walk stops at, or nothing on a cycle.
    fn to_head(&self) -> (r: Option<usize>)
        requires
            self.wf(),
            self.node_count() > 0,
        ensures
            r is Some <==> self.root_walk_succeeds(),
            r == (match first_edge_walk(
                self.reversed(),
                0,
                Set::empty().insert(0),
                self.node_count() + 1,
            ) {
                Some(p) => Some(p.0),
                None => None::<usize>,
            }),
    {
        let n = self.nodes.len();
        let mut visited: HashSet<usize> = HashSet::new();
        // Start with the first node
        let mut target_node: usize = 0;
        visited.insert(target_node);
        let ghost mut fuel: nat = (n + 1) as nat;
        let ghost goal = first_edge_walk(self.reversed(), 0, Set::empty().insert(0), fuel);

        loop
            invariant
                self.wf(),
                n == self.node_count(),
                n > 0,
                (target_node as int) < n,
                visited@.finite(),
                visited@.contains(target_node),
                forall|x: usize| #[trigger] visited@.contains(x) ==> (x as int) < n,
                1 <= visited@.len() <= n,
                fuel == n + 2 - visited@.len(),
                goal == first_edge_walk(self.reversed(), target_node, visited@, fuel),
                goal == first_edge_walk(
                    self.reversed(),
                    0,
                    Set::empty().insert(0),
                    (n + 1) as nat,
                ),
            decreases fuel,
        {
            let current_edges = &self.reversed_edges[target_node];

            if current_edges.len() > 0 {
                let next = current_edges[0].target;
                proof {
                    assert(self.reversed()[target_node as int][0] == next);
                    assert(self.reversed()[target_node as int].len() == current_edges@.len());
                }
                // Cycles means the graph is not a tree
                if visited.contains(&next) {
                    proof {
                        assert(goal is None);
                    }
                    return None;
                }
                target_node = next;
                visited.insert(target_node);
                proof {
                    lemma_visited_card(visited@, n as nat);
                    fuel = (fuel - 1) as nat;
                }
            } else {
                proof {
                    assert(self.reversed()[target_node as int].len() == 0);
                    assert(goal == Some((target_node, visited@)));
                }
                return Some(target_node);
            }
        }
    }
}

/// The total length of all adjacency lists.
spec fn count_edges(es: Seq<Vec<EdgeData>>) -> nat
    decreases es.len(),
{
    if es.len() == 0 {
        0
    } else {
        count_edges(es.drop_last()) + es.last()@.len()
    }
}

/// Appending an empty adjacency list does not change the edge count.
proof fn lemma_count_edges_push(es: Seq<Vec<EdgeData>>)
    ensures
        forall|nv: Vec<EdgeData>|
            nv@.len() == 0 ==> count_edges(#[trigger] es.push(nv)) == count_edges(es),
{
    assert forall|nv: Vec<EdgeData>| nv@.len() == 0 implies count_edges(#[trigger] es.push(nv))
        == count_edges(es) by {
        assert(es.push(nv).drop_last() =~= es);
        assert(es.push(nv).last() == nv);
    }
}

/// Growing one adjacency list by one entry grows the edge count by one.
proof fn lemma_count_edges_update(es: Seq<Vec<EdgeData>>, v: int, nv: Vec<EdgeData>)
    requires
        0 <= v < es.len(),
        nv@.len() == es[v]@.len() + 1,
    ensures
        count_edges(es.update(v, nv)) == count_edges(es) + 1,
    decreases es.len(),
{
    let s2 = es.update(v, nv);
    if v == es.len() - 1 {
        assert(s2.drop_last() =~= es.drop_last());
        assert(s2.last() == nv);
    } else {
        assert(s2.drop_last() =~= es.drop_last().update(v, nv));
        lemma_count_edges_update(es.drop_last(), v, nv);
        assert(s2.last() == es.last());
    }
}

/// A prefix counts no more edges than the whole; stated so the running
/// total provably fits in a machine word.
proof fn lemma_count_edges_take_le(es: Seq<Vec<EdgeData>>, v: int)
    requires
        0 <= v <= es.len(),
    ensures
        count_edges(es.take(v)) <= count_edges(es),
    decreases es.len() - v,
{
    if v == es.len() {
        assert(es.take(v) =~= es);
    } else {
        assert(es.take(v + 1).drop_last() =~= es.take(v));
        assert(es.take(v + 1).last() == es[v]);
        lemma_count_edges_take_le(es, v + 1);
    }
}

/// A set of node indices below `n` holds at most `n` of them.
proof fn lemma_visited_card(visited: Set<usize>, n: nat)
    requires
        n <= usize::MAX,
        visited.finite(),
        forall|x: usize| #[trigger] visited.contains(x) ==> (x as nat) < n,
    ensures
        visited.len() <= n,
{
    lemma_usize_below_card(n);
    vstd::set_lib::lemma_len_subset(visited, usize_below(n));
}

/// The node indices below `n`.
spec fn usize_below(n: nat) -> Set<usize> {
    Set::new(|x: usize| (x as nat) < n)
}

/// There are exactly `n` node indices below `n`.
proof fn lemma_usize_below_card(n: nat)
    requires
        n <= usize::MAX,
    ensures
        usize_below(n).finite(),
        usize_below(n).len() == n,
    decreases n,
{
    if n == 0 {
        assert(usize_below(0) =~= Set::<usize>::empty());
    } else {
        lemma_usize_below_card((n - 1) as nat);
        assert(usize_below(n) =~= usize_below((n - 1) as nat).insert((n - 1) as usize));
        assert(!usize_below((n - 1) as nat).contains((n - 1) as usize));
    }
}

} // verus!
