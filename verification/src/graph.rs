//! A directed graph with breadth-first and depth-first search.
//!
//! Both searches return a path from source to destination when one exists
//! and nothing when none does. The adjacency of each node is kept sorted by
//! target, so the searches visit neighbors in ascending order (descending
//! for the depth-first search, which prefers the smallest target on top of
//! its stack).

use vstd::prelude::*;
use vstd::pervasive::VecAdditionalExecFns;
use std::collections::{HashMap, HashSet, VecDeque};

verus! {

/// An adjacency list: strictly sorted by target, every target a node.
spec fn adj_ok(adj: Seq<(usize, i32)>, n: nat) -> bool {
    &&& forall|i: int, j: int|
        0 <= i < j < adj.len() ==> (#[trigger] adj[i]).0 < (#[trigger] adj[j]).0
    &&& forall|i: int| 0 <= i < adj.len() ==> ((#[trigger] adj[i]).0 as nat) < n
}

/// Some entry of the adjacency list targets `b`.
spec fn adj_has_key(adj: Seq<(usize, i32)>, b: usize) -> bool {
    exists|i: int| 0 <= i < adj.len() && (#[trigger] adj[i]).0 == b
}

/// Some entry of the adjacency of `a` targets `b`.
spec fn edge_in(es: Seq<Vec<(usize, i32)>>, a: usize, b: usize) -> bool {
    (a as int) < es.len() && adj_has_key(es[a as int]@, b)
}

/// A directed graph: one label per node, and weighted edges between nodes
/// addressed by index.
pub struct Graph<T> {
    nodes: Vec<T>,
    edges: Vec<Vec<(usize, i32)>>,
}

impl<T> Graph<T> {
    /// Every node has an adjacency list, each sorted and in range.
    pub closed spec fn wf(&self) -> bool {
        &&& self.edges@.len() == self.nodes@.len()
        &&& forall|v: int|
            0 <= v < self.edges@.len() ==> adj_ok(
                (#[trigger] self.edges@[v])@,
                self.nodes@.len() as nat,
            )
    }

    /// The number of nodes.
    pub closed spec fn node_count(&self) -> nat {
        self.nodes@.len() as nat
    }

    /// There is an edge from `a` to `b`.
    pub closed spec fn has_edge(&self, a: usize, b: usize) -> bool {
        edge_in(self.edges@, a, b)
    }

    /// `p` walks existing edges from `s` to `d`.
    pub closed spec fn is_path(&self, p: Seq<usize>, s: usize, d: usize) -> bool {
        &&& p.len() >= 1
        &&& p[0] == s
        &&& p.last() == d
        &&& forall|i: int| 0 <= i < p.len() - 1 ==> self.has_edge(#[trigger] p[i], p[i + 1])
    }

    /// Some path walks from `s` to `d`.
    pub closed spec fn reachable(&self, s: usize, d: usize) -> bool {
        exists|p: Seq<usize>| self.is_path(p, s, d)
    }

    /// Builds a graph from its node labels and a list of weighted edges.
    /// A repeated head-and-target pair keeps the weight given last.
    pub fn new(nodes: Vec<T>, edge_list: Vec<(usize, usize, i32)>) -> (g: Graph<T>)
        requires
            forall|i: int|
                0 <= i < edge_list@.len() ==> ((#[trigger] edge_list@[i]).0 as int)
                    < nodes@.len() && ((edge_list@[i]).1 as int) < nodes@.len(),
        ensures
            g.wf(),
            g.node_count() == nodes@.len(),
            forall|a: usize, b: usize|
                #[trigger] g.has_edge(a, b) <==> exists|i: int|
                    0 <= i < edge_list@.len() && (#[trigger] edge_list@[i]).0 == a && (
                    edge_list@[i]).1 == b,
    {
        let n = nodes.len();
        let mut edges: Vec<Vec<(usize, i32)>> = Vec::new();
        while edges.len() < n
            invariant
                edges@.len() <= n,
                forall|v: int| 0 <= v < edges@.len() ==> (#[trigger] edges@[v])@.len() == 0,
            decreases n - edges@.len(),
        {
            edges.push(Vec::new());
        }
        let m = edge_list.len();
        let mut k: usize = 0;
        while k < m
            invariant
                k <= m,
                m == edge_list@.len(),
                edges@.len() == n,
                forall|i: int|
                    0 <= i < edge_list@.len() ==> ((#[trigger] edge_list@[i]).0 as int) < n && ((
                    edge_list@[i]).1 as int) < n,
                forall|v: int| 0 <= v < n ==> adj_ok((#[trigger] edges@[v])@, n as nat),
                forall|a: usize, b: usize|
                    #[trigger] edge_in(edges@, a, b) <==> exists|i: int|
                        0 <= i < k && (#[trigger] edge_list@[i]).0 == a && (edge_list@[i]).1
                            == b,
            decreases m - k,
        {
            let (head_id, tail_id, edge_weight) = edge_list[k];
            let ghost before = edges@;
            let adj = &mut edges[head_id];
            insert_adjacent(adj, tail_id, edge_weight);
            proof {
                assert(edges@ =~= before.update(head_id as int, edges@[head_id as int]));
                assert forall|v: int| 0 <= v < n implies adj_ok(
                    (#[trigger] edges@[v])@,
                    n as nat,
                ) by {
                    if v == head_id as int {
                        assert forall|q: int| 0 <= q < edges@[v]@.len() implies ((
                        #[trigger] edges@[v]@[q]).0 as nat) < n by {
                            let b = edges@[v]@[q].0;
                            assert(adj_has_key(edges@[v]@, b));
                            if adj_has_key(before[v]@, b) {
                                let w = choose|w: int|
                                    0 <= w < before[v]@.len() && (#[trigger] before[v]@[w]).0 == b;
                                assert(((before[v]@[w]).0 as nat) < n);
                            }
                        }
                    } else {
                        assert(edges@[v] == before[v]);
                    }
                }
                assert forall|a: usize, b: usize| #[trigger] edge_in(edges@, a, b) implies (
                exists|i: int|
                    0 <= i < k + 1 && (#[trigger] edge_list@[i]).0 == a && (edge_list@[i]).1
                        == b) by {
                    if a == head_id {
                        if b == tail_id {
                            assert(edge_list@[k as int].0 == a && edge_list@[k as int].1 == b);
                        } else {
                            assert(adj_has_key(before[a as int]@, b));
                            assert(edge_in(before, a, b));
                        }
                    } else {
                        assert(edges@[a as int] == before[a as int]);
                        assert(edge_in(before, a, b));
                    }
                }
                assert forall|a: usize, b: usize|
                    (exists|i: int|
                        0 <= i < k + 1 && (#[trigger] edge_list@[i]).0 == a && (edge_list@[i]).1
                            == b) implies #[trigger] edge_in(edges@, a, b) by {
                    let i = choose|i: int|
                        0 <= i < k + 1 && (#[trigger] edge_list@[i]).0 == a && (edge_list@[i]).1
                            == b;
                    if i < k {
                        assert(edge_in(before, a, b));
                        if a == head_id {
                            assert(adj_has_key(edges@[a as int]@, b));
                        } else {
                            assert(edges@[a as int] == before[a as int]);
                        }
                    } else {
                        assert(a == head_id && b == tail_id);
                        assert(adj_has_key(edges@[a as int]@, b));
                    }
                }
            }
            k = k + 1;
        }
        let g = Graph { nodes, edges };
        g
    }

    /// Builds an unweighted graph: every edge gets weight zero.
    pub fn new_unweighted(nodes: Vec<T>, edge_list: Vec<(usize, usize)>) -> (g: Graph<T>)
        requires
            forall|i: int|
                0 <= i < edge_list@.len() ==> ((#[trigger] edge_list@[i]).0 as int)
                    < nodes@.len() && ((edge_list@[i]).1 as int) < nodes@.len(),
        ensures
            g.wf(),
            g.node_count() == nodes@.len(),
            forall|a: usize, b: usize|
                #[trigger] g.has_edge(a, b) <==> exists|i: int|
                    0 <= i < edge_list@.len() && (#[trigger] edge_list@[i]).0 == a && (
                    edge_list@[i]).1 == b,
    {
        let m = edge_list.len();
        let mut weighted: Vec<(usize, usize, i32)> = Vec::new();
        let mut k: usize = 0;
        while k < m
            invariant
                k <= m,
                m == edge_list@.len(),
                weighted@.len() == k,
                forall|i: int|
                    0 <= i < k ==> #[trigger] weighted@[i] == (edge_list@[i].0, edge_list@[i].1,
                    0i32),
            decreases m - k,
        {
            let (source, destination) = edge_list[k];
            weighted.push((source, destination, 0));
            k = k + 1;
        }
        let g = Graph::new(nodes, weighted);
        proof {
            assert forall|a: usize, b: usize| #[trigger] g.has_edge(a, b) implies (exists|i: int|
                0 <= i < edge_list@.len() && (#[trigger] edge_list@[i]).0 == a && (
                edge_list@[i]).1 == b) by {
                let i = choose|i: int|
                    0 <= i < weighted@.len() && (#[trigger] weighted@[i]).0 == a && (
                    weighted@[i]).1 == b;
                assert(edge_list@[i].0 == a && edge_list@[i].1 == b);
            }
            assert forall|a: usize, b: usize|
                (exists|i: int|
                    0 <= i < edge_list@.len() && (#[trigger] edge_list@[i]).0 == a && (
                    edge_list@[i]).1 == b) implies #[trigger] g.has_edge(a, b) by {
                let i = choose|i: int|
                    0 <= i < edge_list@.len() && (#[trigger] edge_list@[i]).0 == a && (
                    edge_list@[i]).1 == b;
                assert(weighted@[i].0 == a && weighted@[i].1 == b);
            }
        }
        g
    }
}

/// The nodes of a graph with `n` of them.
spec fn nodes_below(n: nat) -> Set<usize> {
    Set::new(|x: usize| (x as nat) < n)
}

/// There are exactly `n` node indices below `n`.
proof fn lemma_nodes_below_card(n: nat)
    requires
        n <= usize::MAX,
    ensures
        nodes_below(n).finite(),
        nodes_below(n).len() == n,
    decreases n,
{
    if n == 0 {
        assert(nodes_below(0) =~= Set::<usize>::empty());
    } else {
        lemma_nodes_below_card((n - 1) as nat);
        assert(nodes_below(n) =~= nodes_below((n - 1) as nat).insert((n - 1) as usize));
        assert(!nodes_below((n - 1) as nat).contains((n - 1) as usize));
    }
}

/// Any path that starts inside a set closed under the graph's edges ends
/// inside it.
proof fn lemma_path_in_closed<T>(g: &Graph<T>, p: Seq<usize>, e: Set<usize>, s: usize, d: usize)
    requires
        g.is_path(p, s, d),
        e.contains(s),
        forall|x: usize, b: usize| e.contains(x) && #[trigger] g.has_edge(x, b) ==> e.contains(b),
    ensures
        e.contains(d),
    decreases p.len(),
{
    if p.len() == 1 {
        assert(p[0] == s && p.last() == d);
    } else {
        let q = p.drop_last();
        assert(g.is_path(q, s, q.last())) by {
            assert(forall|i: int| 0 <= i < q.len() ==> q[i] == #[trigger] p[i]);
        }
        lemma_path_in_closed(g, q, e, s, q.last());
        assert(g.has_edge(p[p.len() - 2], p[p.len() - 1]));
        assert(q.last() == p[p.len() - 2]);
    }
}

impl<T> Graph<T> {
    /// The recorded parent edges form a forest rooted at the source: each
    /// entry points one step closer to the source along an existing edge.
    spec fn parents_ok(&self, parents: Map<usize, usize>, depth: Map<usize, nat>, source: usize) -> bool {
        &&& depth.dom().contains(source)
        &&& depth[source] == 0
        &&& forall|x: usize| #[trigger] parents.dom().contains(x) ==> {
            let y = parents[x];
            &&& x != source
            &&& depth.dom().contains(x)
            &&& depth.dom().contains(y)
            &&& depth[x] == depth[y] + 1
            &&& self.has_edge(y, x)
            &&& (y == source || parents.dom().contains(y))
        }
    }

    /// Walks the recorded parent edges back from `node` to the source and
    /// reverses the walk into a path from the source to `node`.
    fn backtrace(
        &self,
        node: usize,
        parents: &HashMap<usize, usize>,
        Ghost(depth): Ghost<Map<usize, nat>>,
        Ghost(source): Ghost<usize>,
    ) -> (r: Vec<usize>)
        requires
            self.parents_ok(parents@, depth, source),
            node == source || parents@.dom().contains(node),
            depth.dom().contains(node),
        ensures
            self.is_path(r@, source, node),
    {
        let mut trace: Vec<usize> = Vec::new();
        trace.push(node);
        let mut current = node;
        let mut at_root = false;
        while !at_root
            invariant
                self.parents_ok(parents@, depth, source),
                trace@.len() >= 1,
                trace@[0] == node,
                trace@.last() == current,
                forall|i: int|
                    0 <= i < trace@.len() - 1 ==> self.has_edge(
                        #[trigger] trace@[i + 1],
                        trace@[i],
                    ),
                current == source || parents@.dom().contains(current),
                depth.dom().contains(current),
                at_root ==> current == source,
            decreases depth[current] + (if at_root {
                0int
            } else {
                1int
            }),
        {
            match parents.get(&current) {
                Some(parent) => {
                    proof {
                        assert(parents@.dom().contains(current));
                        assert(parents@[current] == *parent);
                    }
                    trace.push(*parent);
                    current = *parent;
                },
                None => {
                    proof {
                        assert(!parents@.dom().contains(current));
                    }
                    at_root = true;
                },
            }
        }
        let len = trace.len();
        let mut out: Vec<usize> = Vec::new();
        let mut idx = len;
        while idx > 0
            invariant
                idx <= len,
                len == trace@.len(),
                out@.len() == len - idx,
                forall|q: int| 0 <= q < out@.len() ==> #[trigger] out@[q] == trace@[len - 1 - q],
            decreases idx,
        {
            idx = idx - 1;
            out.push(trace[idx]);
        }
        proof {
            assert(out@.len() == trace@.len());
            assert(out@[0] == trace@[len - 1]);
            assert(out@.last() == trace@[0]);
            assert forall|i: int| 0 <= i < out@.len() - 1 implies self.has_edge(
                #[trigger] out@[i],
                out@[i + 1],
            ) by {
                let j = len - 2 - i;
                assert(out@[i] == trace@[j + 1]);
                assert(out@[i + 1] == trace@[j]);
                assert(self.has_edge(trace@[j + 1], trace@[j]));
            }
        }
        out
    }

    /// Breadth-first search: returns a path from `source_id` to
    /// `destination_id` along the fewest-hop frontier order, or nothing
    /// exactly when the destination is unreachable.
    pub fn bfs(&self, source_id: usize, destination_id: usize) -> (r: Option<Vec<usize>>)
        requires
            self.wf(),
            (source_id as int) < self.node_count(),
        ensures
            match r {
                Some(path) => self.is_path(path@, source_id, destination_id),
                None => !self.reachable(source_id, destination_id),
            },
    {
        let n = self.nodes.len();
        let mut queue: VecDeque<usize> = VecDeque::new();
        let mut parents: HashMap<usize, usize> = HashMap::new();
        let mut expanded: HashSet<usize> = HashSet::new();
        let ghost mut depth: Map<usize, nat> = Map::empty().insert(source_id, 0);

        expanded.insert(source_id);
        queue.push_back(source_id);
        proof {
            lemma_nodes_below_card(n as nat);
            vstd::set_lib::lemma_len_subset(expanded@, nodes_below(n as nat));
            assert(queue@[0] == source_id);
            assert(queue@.contains(source_id));
        }
        while queue.len() != 0
            invariant
                self.wf(),
                n == self.node_count(),
                (source_id as int) < n,
                expanded@.finite(),
                expanded@.len() <= n,
                forall|x: usize| #[trigger] expanded@.contains(x) ==> (x as int) < n,
                forall|i: int| 0 <= i < queue@.len() ==> expanded@.contains(#[trigger] queue@[i]),
                queue@.no_duplicates(),
                expanded@.contains(source_id),
                expanded@.contains(destination_id) ==> queue@.contains(destination_id),
                forall|x: usize, b: usize|
                    expanded@.contains(x) && !queue@.contains(x) && #[trigger] self.has_edge(x, b)
                        ==> expanded@.contains(b),
                self.parents_ok(parents@, depth, source_id),
                forall|x: usize|
                    #[trigger] expanded@.contains(x) ==> (x == source_id
                        || parents@.dom().contains(x)),
                forall|x: usize| #[trigger] expanded@.contains(x) ==> depth.dom().contains(x),
                forall|x: usize| #[trigger] parents@.dom().contains(x) ==> expanded@.contains(x),
            decreases n - expanded@.len() + queue@.len(),
        {
            let ghost qpre = queue@;
            let node = queue.pop_front().unwrap();
            proof {
                assert(node == qpre[0]);
                assert(queue@ == qpre.subrange(1, qpre.len() as int));
                assert(expanded@.contains(node));
                assert(!queue@.contains(node)) by {
                    if queue@.contains(node) {
                        let i = choose|i: int| 0 <= i < queue@.len() && queue@[i] == node;
                        assert(qpre[i + 1] == node);
                        assert(qpre[0] == qpre[i + 1]);
                    }
                }
                assert forall|i: int| 0 <= i < queue@.len() implies expanded@.contains(
                    #[trigger] queue@[i],
                ) by {
                    assert(queue@[i] == qpre[i + 1]);
                }
                assert(queue@.no_duplicates()) by {
                    assert forall|i: int, j: int|
                        0 <= i < queue@.len() && 0 <= j < queue@.len() && i != j implies queue@[i]
                        != queue@[j] by {
                        assert(queue@[i] == qpre[i + 1] && queue@[j] == qpre[j + 1]);
                    }
                }
            }
            if node == destination_id {
                let path = self.backtrace(node, &parents, Ghost(depth), Ghost(source_id));
                return Some(path);
            }
            proof {
                assert(expanded@.contains(destination_id) ==> queue@.contains(destination_id))
                    by {
                    if expanded@.contains(destination_id) {
                        let i = choose|i: int| 0 <= i < qpre.len() && qpre[i] == destination_id;
                        assert(qpre[0] == node && node != destination_id);
                        assert(queue@[i - 1] == destination_id);
                    }
                }
                assert forall|x: usize, b: usize|
                    expanded@.contains(x) && !queue@.contains(x) && x != node
                        && #[trigger] self.has_edge(x, b) implies expanded@.contains(b) by {
                    assert(!qpre.contains(x)) by {
                        if qpre.contains(x) {
                            let i = choose|i: int| 0 <= i < qpre.len() && qpre[i] == x;
                            if i >= 1 {
                                assert(queue@[i - 1] == x);
                            }
                        }
                    }
                }
            }
            let ghost m0 = n - expanded@.len() + queue@.len();
            let adj_len = self.edges[node].len();
            let mut e: usize = 0;
            while e < adj_len
                invariant
                    self.wf(),
                    n == self.node_count(),
                    (source_id as int) < n,
                    (node as int) < n,
                    e <= adj_len,
                    adj_len == self.edges@[node as int]@.len(),
                    node != destination_id,
                    expanded@.finite(),
                    expanded@.len() <= n,
                    n - expanded@.len() + queue@.len() == m0,
                    forall|x: usize| #[trigger] expanded@.contains(x) ==> (x as int) < n,
                    forall|i: int|
                        0 <= i < queue@.len() ==> expanded@.contains(#[trigger] queue@[i]),
                    queue@.no_duplicates(),
                    expanded@.contains(source_id),
                    expanded@.contains(node),
                    !queue@.contains(node),
                    expanded@.contains(destination_id) ==> queue@.contains(destination_id),
                    forall|q: int|
                        0 <= q < e ==> expanded@.contains(
                            (#[trigger] self.edges@[node as int]@[q]).0,
                        ),
                    forall|x: usize, b: usize|
                        expanded@.contains(x) && !queue@.contains(x) && x != node
                            && #[trigger] self.has_edge(x, b) ==> expanded@.contains(b),
                    self.parents_ok(parents@, depth, source_id),
                    forall|x: usize|
                        #[trigger] expanded@.contains(x) ==> (x == source_id
                            || parents@.dom().contains(x)),
                    forall|x: usize| #[trigger] expanded@.contains(x) ==> depth.dom().contains(x),
                    forall|x: usize| #[trigger] parents@.dom().contains(x) ==> expanded@.contains(x),
                decreases adj_len - e,
            {
                let edge_pair = self.edges[node][e];
                let tgt = edge_pair.0;
                proof {
                    assert(((self.edges@[node as int]@[e as int]).0 as nat) < n);
                }
                if !expanded.contains(&tgt) {
                    let ghost epre = expanded@;
                    let ghost qpre2 = queue@;
                    parents.insert(tgt, node);
                    expanded.insert(tgt);
                    queue.push_back(tgt);
                    proof {
                        depth = depth.insert(tgt, depth[node] + 1);
                        assert(expanded@ == epre.insert(tgt));
                        assert(queue@ == qpre2.push(tgt));
                        assert(expanded@.subset_of(nodes_below(n as nat)));
                        lemma_nodes_below_card(n as nat);
                        vstd::set_lib::lemma_len_subset(expanded@, nodes_below(n as nat));
                        assert(expanded@.len() == epre.len() + 1);
                        assert forall|i: int| 0 <= i < queue@.len() implies expanded@.contains(
                            #[trigger] queue@[i],
                        ) by {
                            if i < qpre2.len() {
                                assert(queue@[i] == qpre2[i]);
                            } else {
                                assert(queue@[i] == tgt);
                            }
                        }
                        assert(queue@.no_duplicates()) by {
                            assert forall|i: int, j: int|
                                0 <= i < queue@.len() && 0 <= j < queue@.len() && i != j implies
                                queue@[i] != queue@[j] by {
                                if i < qpre2.len() && j < qpre2.len() {
                                    assert(queue@[i] == qpre2[i] && queue@[j] == qpre2[j]);
                                } else if i < qpre2.len() {
                                    assert(queue@[j] == tgt && queue@[i] == qpre2[i]);
                                    assert(epre.contains(qpre2[i]));
                                } else {
                                    assert(queue@[i] == tgt && queue@[j] == qpre2[j]);
                                    assert(epre.contains(qpre2[j]));
                                }
                            }
                        }
                        assert forall|x: usize, b: usize|
                            expanded@.contains(x) && !queue@.contains(x) && x != node
                                && #[trigger] self.has_edge(x, b) implies expanded@.contains(
                            b,
                        ) by {
                            assert(queue@[queue@.len() - 1] == tgt);
                            assert(x != tgt);
                            if qpre2.contains(x) {
                                let i = choose|i: int| 0 <= i < qpre2.len() && qpre2[i] == x;
                                assert(queue@[i] == x);
                            }
                        }
                        assert(self.parents_ok(parents@, depth, source_id)) by {
                            assert(tgt != source_id);
                            assert forall|x: usize| #[trigger] parents@.dom().contains(x)
                                implies {
                                let y = parents@[x];
                                &&& x != source_id
                                &&& depth.dom().contains(x)
                                &&& depth.dom().contains(y)
                                &&& depth[x] == depth[y] + 1
                                &&& self.has_edge(y, x)
                                &&& (y == source_id || parents@.dom().contains(y))
                            } by {
                                if x != tgt {
                                    let y = parents@[x];
                                    assert(epre.contains(x));
                                    assert(x != tgt && y != tgt);
                                } else {
                                    assert(parents@[tgt] == node);
                                    assert(node != tgt);
                                    assert(expanded@.contains(node));
                                }
                            }
                        }
                        assert(expanded@.contains(destination_id) ==> queue@.contains(
                            destination_id,
                        )) by {
                            if expanded@.contains(destination_id) {
                                if destination_id == tgt {
                                    assert(queue@[queue@.len() - 1] == tgt);
                                } else {
                                    assert(epre.contains(destination_id));
                                    let i = choose|i: int|
                                        0 <= i < qpre2.len() && qpre2[i] == destination_id;
                                    assert(queue@[i] == destination_id);
                                }
                            }
                        }
                    }
                }
                e = e + 1;
            }
            proof {
                assert forall|x: usize, b: usize|
                    expanded@.contains(x) && !queue@.contains(x) && #[trigger] self.has_edge(x, b)
                        implies expanded@.contains(b) by {
                    if x == node {
                        let i = choose|i: int|
                            0 <= i < self.edges@[node as int]@.len() && (#[trigger] self.edges@[
                            node as int]@[i]).0 == b;
                        assert(expanded@.contains((self.edges@[node as int]@[i]).0));
                    }
                }
            }
        }
        proof {
            assert(queue@.len() == 0);
            assert forall|x: usize, b: usize|
                expanded@.contains(x) && #[trigger] self.has_edge(x, b) implies expanded@.contains(
                b,
            ) by {
                assert(!queue@.contains(x));
            }
            if self.reachable(source_id, destination_id) {
                let p = choose|p: Seq<usize>| self.is_path(p, source_id, destination_id);
                lemma_path_in_closed(self, p, expanded@, source_id, destination_id);
                assert(queue@.contains(destination_id));
            }
        }
        None
    }
}

/// How many entries of the stack hold an already-expanded node. A pop of an
/// expanded node consumes one such entry and pushes only unexpanded ones, so
/// this count falls whenever the set of expanded nodes does not grow.
spec fn count_expanded(s: Seq<usize>, e: Set<usize>) -> nat
    decreases s.len(),
{
    if s.len() == 0 {
        0
    } else {
        count_expanded(s.drop_last(), e) + (if e.contains(s.last()) {
            1nat
        } else {
            0nat
        })
    }
}

impl<T> Graph<T> {
    /// Depth-first search: returns a path from `source_id` to
    /// `destination_id`, exploring the smallest target first, or nothing
    /// exactly when the destination is unreachable.
    pub fn dfs(&self, source_id: usize, destination_id: usize) -> (r: Option<Vec<usize>>)
        requires
            self.wf(),
            (source_id as int) < self.node_count(),
        ensures
            match r {
                Some(path) => self.is_path(path@, source_id, destination_id),
                None => !self.reachable(source_id, destination_id),
            },
    {
        let n = self.nodes.len();
        let mut parents: HashMap<usize, usize> = HashMap::new();
        let mut expanded: HashSet<usize> = HashSet::new();
        let ghost mut depth: Map<usize, nat> = Map::empty().insert(source_id, 0);

        let mut stack: Vec<usize> = Vec::new();
        stack.push(source_id);
        proof {
            lemma_nodes_below_card(n as nat);
            vstd::set_lib::lemma_len_subset(expanded@, nodes_below(n as nat));
            assert(stack@[0] == source_id);
            assert(stack@.contains(source_id));
        }

        while stack.len() != 0
            invariant
                self.wf(),
                n == self.node_count(),
                (source_id as int) < n,
                expanded@.finite(),
                expanded@.len() <= n,
                forall|x: usize| #[trigger] expanded@.contains(x) ==> (x as int) < n,
                forall|i: int| 0 <= i < stack@.len() ==> ((#[trigger] stack@[i]) as int) < n,
                forall|i: int|
                    0 <= i < stack@.len() ==> (#[trigger] stack@[i] == source_id
                        || parents@.dom().contains(stack@[i])),
                expanded@.contains(source_id) || (stack@ == seq![source_id]),
                !expanded@.contains(destination_id),
                forall|x: usize, b: usize|
                    expanded@.contains(x) && #[trigger] self.has_edge(x, b) ==> (
                    expanded@.contains(b) || stack@.contains(b)),
                self.parents_ok(parents@, depth, source_id),
                forall|x: usize|
                    #[trigger] expanded@.contains(x) ==> (x == source_id
                        || parents@.dom().contains(x)),
                forall|x: usize| #[trigger] expanded@.contains(x) ==> depth.dom().contains(x),
                forall|x: usize|
                    #[trigger] parents@.dom().contains(x) ==> expanded@.contains(parents@[x]),
                forall|x: usize| #[trigger] parents@.dom().contains(x) ==> depth.dom().contains(x),
            decreases n - expanded@.len(), count_expanded(stack@, expanded@),
        {
            let ghost spre = stack@;
            let ghost epre = expanded@;
            let node = stack.pop().unwrap();
            expanded.insert(node);
            proof {
                assert(node == spre.last());
                assert(stack@ == spre.drop_last());
                assert(spre[spre.len() - 1] == node);
                assert(expanded@ == epre.insert(node));
                if epre.contains(node) {
                    assert(expanded@ =~= epre);
                } else {
                    assert(expanded@.subset_of(nodes_below(n as nat)));
                    lemma_nodes_below_card(n as nat);
                    vstd::set_lib::lemma_len_subset(expanded@, nodes_below(n as nat));
                    assert(expanded@.len() == epre.len() + 1);
                }
            }
            if node == destination_id {
                let path = self.backtrace(node, &parents, Ghost(depth), Ghost(source_id));
                return Some(path);
            }
            proof {
                assert(expanded@.contains(source_id)) by {
                    if !epre.contains(source_id) {
                        assert(spre == seq![source_id]);
                        assert(node == source_id);
                    }
                }
                // The popped node is expanded now, so whatever pointed at its
                // stack entry may point at the expanded set instead.
                assert forall|x: usize, b: usize|
                    expanded@.contains(x) && x != node && #[trigger] self.has_edge(x, b) implies (
                expanded@.contains(b) || stack@.contains(b)) by {
                    assert(epre.contains(x));
                    if !epre.contains(b) {
                        assert(spre.contains(b));
                        let i = choose|i: int| 0 <= i < spre.len() && spre[i] == b;
                        if i < spre.len() - 1 {
                            assert(stack@[i] == spre[i]);
                            assert(stack@[i] == b);
                        } else {
                            assert(b == node);
                        }
                    }
                }
            }
            let adj_len = self.edges[node].len();
            let mut e: usize = adj_len;
            let ghost efix = expanded@;
            let ghost cfix = count_expanded(stack@, expanded@);
            while e > 0
                invariant
                    self.wf(),
                    n == self.node_count(),
                    (source_id as int) < n,
                    (node as int) < n,
                    e <= adj_len,
                    adj_len == self.edges@[node as int]@.len(),
                    node != destination_id,
                    expanded@ == efix,
                    count_expanded(stack@, expanded@) == cfix,
                    expanded@.finite(),
                    expanded@.len() <= n,
                    expanded@.contains(node),
                    expanded@.contains(source_id),
                    forall|x: usize| #[trigger] expanded@.contains(x) ==> (x as int) < n,
                    forall|i: int| 0 <= i < stack@.len() ==> ((#[trigger] stack@[i]) as int) < n,
                    forall|i: int|
                        0 <= i < stack@.len() ==> (#[trigger] stack@[i] == source_id
                            || parents@.dom().contains(stack@[i])),
                    !expanded@.contains(destination_id),
                    forall|q: int|
                        e <= q < adj_len ==> (expanded@.contains(
                            (#[trigger] self.edges@[node as int]@[q]).0,
                        ) || stack@.contains((self.edges@[node as int]@[q]).0)),
                    forall|x: usize, b: usize|
                        expanded@.contains(x) && x != node && #[trigger] self.has_edge(x, b) ==> (
                        expanded@.contains(b) || stack@.contains(b)),
                    self.parents_ok(parents@, depth, source_id),
                    forall|x: usize|
                        #[trigger] expanded@.contains(x) ==> (x == source_id
                            || parents@.dom().contains(x)),
                    forall|x: usize| #[trigger] expanded@.contains(x) ==> depth.dom().contains(x),
                    forall|x: usize|
                        #[trigger] parents@.dom().contains(x) ==> expanded@.contains(parents@[x]),
                    forall|x: usize|
                        #[trigger] parents@.dom().contains(x) ==> depth.dom().contains(x),
                decreases e,
            {
                e = e - 1;
                let edge_pair = self.edges[node][e];
                let tgt = edge_pair.0;
                proof {
                    assert(((self.edges@[node as int]@[e as int]).0 as nat) < n);
                }
                if !expanded.contains(&tgt) {
                    let ghost spre2 = stack@;
                    let ghost ppre = parents@;
                    stack.push(tgt);
                    parents.insert(tgt, node);
                    proof {
                        depth = depth.insert(tgt, depth[node] + 1);
                        assert(stack@ == spre2.push(tgt));
                        assert(stack@.drop_last() =~= spre2);
                        assert(count_expanded(stack@, expanded@) == cfix);
                        assert(stack@[stack@.len() - 1] == tgt);
                        assert forall|i: int|
                            0 <= i < stack@.len() implies (#[trigger] stack@[i] == source_id
                                || parents@.dom().contains(stack@[i])) by {
                            if i < spre2.len() {
                                assert(stack@[i] == spre2[i]);
                            }
                        }
                        assert(self.parents_ok(parents@, depth, source_id)) by {
                            assert(tgt != source_id);
                            assert forall|x: usize| #[trigger] parents@.dom().contains(x)
                                implies {
                                let y = parents@[x];
                                &&& x != source_id
                                &&& depth.dom().contains(x)
                                &&& depth.dom().contains(y)
                                &&& depth[x] == depth[y] + 1
                                &&& self.has_edge(y, x)
                                &&& (y == source_id || parents@.dom().contains(y))
                            } by {
                                if x != tgt {
                                    let y = ppre[x];
                                    assert(expanded@.contains(y));
                                    assert(y != tgt);
                                    assert(x != tgt);
                                } else {
                                    assert(parents@[tgt] == node);
                                    assert(node != tgt);
                                }
                            }
                        }
                        assert forall|q: int|
                            e <= q < adj_len implies (expanded@.contains(
                                (#[trigger] self.edges@[node as int]@[q]).0,
                            ) || stack@.contains((self.edges@[node as int]@[q]).0)) by {
                            let b = (self.edges@[node as int]@[q]).0;
                            if q == e {
                                assert(stack@[stack@.len() - 1] == b);
                            } else {
                                if spre2.contains(b) {
                                    let i = choose|i: int|
                                        0 <= i < spre2.len() && spre2[i] == b;
                                    assert(stack@[i] == b);
                                }
                            }
                        }
                        assert forall|x: usize, b: usize|
                            expanded@.contains(x) && x != node && #[trigger] self.has_edge(x, b)
                                implies (expanded@.contains(b) || stack@.contains(b)) by {
                            if !expanded@.contains(b) && spre2.contains(b) {
                                let i = choose|i: int| 0 <= i < spre2.len() && spre2[i] == b;
                                assert(stack@[i] == b);
                            }
                        }
                    }
                }
            }
            proof {
                // Every neighbor of the processed node is now expanded or
                // waiting on the stack.
                assert forall|x: usize, b: usize|
                    expanded@.contains(x) && #[trigger] self.has_edge(x, b) implies (
                expanded@.contains(b) || stack@.contains(b)) by {
                    if x == node {
                        let q = choose|q: int|
                            0 <= q < self.edges@[node as int]@.len() && (#[trigger] self.edges@[
                            node as int]@[q]).0 == b;
                        assert(expanded@.contains((self.edges@[node as int]@[q]).0)
                            || stack@.contains((self.edges@[node as int]@[q]).0));
                    }
                }
                if epre.contains(node) {
                    assert(expanded@ =~= epre);
                    assert(count_expanded(spre, expanded@) == count_expanded(
                        spre.drop_last(),
                        expanded@,
                    ) + 1);
                }
            }
        }
        proof {
            assert(stack@.len() == 0);
            assert(expanded@.contains(source_id)) by {
                if stack@.contains(source_id) {
                    let i = choose|i: int| 0 <= i < stack@.len() && stack@[i] == source_id;
                }
            }
            assert forall|x: usize, b: usize|
                expanded@.contains(x) && #[trigger] self.has_edge(x, b) implies expanded@.contains(
                b,
            ) by {
                if stack@.contains(b) {
                    let i = choose|i: int| 0 <= i < stack@.len() && stack@[i] == b;
                }
            }
            if self.reachable(source_id, destination_id) {
                let p = choose|p: Seq<usize>| self.is_path(p, source_id, destination_id);
                lemma_path_in_closed(self, p, expanded@, source_id, destination_id);
            }
        }
        None
    }
}

/// Inserts a target into a sorted adjacency list, replacing the weight when
/// the target is already present.
fn insert_adjacent(adj: &mut Vec<(usize, i32)>, t: usize, w: i32)
    requires
        forall|i: int, j: int|
            0 <= i < j < old(adj)@.len() ==> (#[trigger] old(adj)@[i]).0
                < (#[trigger] old(adj)@[j]).0,
    ensures
        forall|i: int, j: int|
            0 <= i < j < final(adj)@.len() ==> (#[trigger] final(adj)@[i]).0
                < (#[trigger] final(adj)@[j]).0,
        forall|b: usize|
            #[trigger] adj_has_key(final(adj)@, b) <==> (adj_has_key(old(adj)@, b) || b == t),
{
    let n = adj.len();
    let mut i: usize = 0;
    while i < n && adj[i].0 < t
        invariant
            i <= n,
            n == adj@.len(),
            *adj == *old(adj),
            forall|q: int| 0 <= q < i ==> (#[trigger] adj@[q]).0 < t,
        decreases n - i,
    {
        i = i + 1;
    }
    let ghost pre = adj@;
    if i < n && adj[i].0 == t {
        adj.set(i, (t, w));
        proof {
            assert forall|b: usize|
                #[trigger] adj_has_key(adj@, b) <==> (adj_has_key(pre, b) || b == t) by {
                if adj_has_key(adj@, b) {
                    let q = choose|q: int| 0 <= q < adj@.len() && (#[trigger] adj@[q]).0 == b;
                    if q != i {
                        assert(pre[q].0 == b);
                    }
                }
                if adj_has_key(pre, b) {
                    let q = choose|q: int| 0 <= q < pre.len() && (#[trigger] pre[q]).0 == b;
                    assert(adj@[q].0 == b);
                }
                if b == t {
                    assert(adj@[i as int].0 == b);
                }
            }
        }
    } else {
        adj.insert(i, (t, w));
        proof {
            assert(adj@.len() == pre.len() + 1);
            assert(forall|q: int| 0 <= q < i ==> adj@[q] == pre[q]);
            assert(forall|q: int| i < q < adj@.len() ==> adj@[q] == pre[q - 1]);
            assert(adj@[i as int] == (t, w));
            // Sortedness: entries before the insertion point are below `t`,
            // those after are above it.
            assert forall|q: int, r: int|
                0 <= q < r < adj@.len() implies (#[trigger] adj@[q]).0 < (#[trigger] adj@[r]).0 by {
                if q == i {
                    assert(pre[r - 1].0 != t);
                    if r - 1 > i {
                        assert(pre[i as int].0 < pre[r - 1].0);
                        assert(pre[i as int].0 >= t);
                    } else {
                        assert(pre[i as int].0 >= t);
                    }
                } else if r == i {
                    assert(pre[q].0 < t);
                } else if q < i && r > i {
                    assert(pre[q].0 < t);
                    if r - 1 == i {
                        assert(pre[i as int].0 >= t && pre[i as int].0 != t);
                    } else {
                        assert(pre[q].0 < pre[r - 1].0);
                    }
                }
            }
            assert forall|b: usize|
                #[trigger] adj_has_key(adj@, b) <==> (adj_has_key(pre, b) || b == t) by {
                if adj_has_key(adj@, b) {
                    let q = choose|q: int| 0 <= q < adj@.len() && (#[trigger] adj@[q]).0 == b;
                    if q < i {
                        assert(pre[q].0 == b);
                    } else if q > i {
                        assert(pre[q - 1].0 == b);
                    }
                }
                if adj_has_key(pre, b) {
                    let q = choose|q: int| 0 <= q < pre.len() && (#[trigger] pre[q]).0 == b;
                    if q < i {
                        assert(adj@[q].0 == b);
                    } else {
                        assert(adj@[q + 1].0 == b);
                    }
                }
                if b == t {
                    assert(adj@[i as int].0 == b);
                }
            }
        }
    }
}

} // verus!
