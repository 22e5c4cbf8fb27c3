//! The annotation graph is a `petgraph::Graph<Vertex, ()>`. This module
//! declares the petgraph types, names what a graph holds, and gives each
//! petgraph method the library calls a contract over those names.
//!
//! A graph is seen as its node weights in index order and, for each node,
//! the list of its outgoing and the list of its incoming neighbours.
//! petgraph keeps each list as a chain of edges with the most recently
//! added edge first, and walks it in that order ("neighbors are listed in
//! reverse order of their addition to the graph").
use vstd::prelude::*;
use vstd::set_lib::lemma_int_range;
use vstd::set_lib::lemma_len_subset;
use vstd::set_lib::set_int_range;
use petgraph::graph::Graph;
use petgraph::graph::NodeIndex;
use petgraph::Directed;
use petgraph::Direction;
use petgraph::visit::EdgeRef;
use petgraph::visit::Bfs;
use petgraph::visit::Walker;
use crate::vertex::Vertex;
use crate::vertex::VertexModel;

verus! {

#[verifier::external_type_specification]
#[verifier::external_body]
#[verifier::reject_recursive_types(N)]
#[verifier::reject_recursive_types(E)]
#[verifier::reject_recursive_types(Ty)]
#[verifier::reject_recursive_types(Ix)]
pub struct ExGraph<N, E, Ty, Ix>(Graph<N, E, Ty, Ix>);

#[verifier::external_type_specification]
#[verifier::external_body]
pub struct ExDirected(Directed);

/// The graph type the library builds: one node per file line per commit.
pub type AnnotationGraph = Graph<Vertex, ()>;

/// The node weights of `g`, in node-index order.
pub uninterp spec fn graph_nodes(g: Graph<Vertex, ()>) -> Seq<VertexModel>;

/// The outgoing lists of `g`: for each node, in node-index order, the
/// targets of its outgoing edges, most recently added edge first.
pub uninterp spec fn graph_out(g: Graph<Vertex, ()>) -> Seq<Seq<int>>;

/// The incoming lists of `g`: for each node, in node-index order, the
/// sources of its incoming edges, most recently added edge first.
pub uninterp spec fn graph_in(g: Graph<Vertex, ()>) -> Seq<Seq<int>>;

/// A graph seen as plain values.
pub struct GraphModel {
    pub nodes: Seq<VertexModel>,
    pub outs: Seq<Seq<int>>,
    pub ins: Seq<Seq<int>>,
}

pub open spec fn model(g: AnnotationGraph) -> GraphModel {
    GraphModel { nodes: graph_nodes(g), outs: graph_out(g), ins: graph_in(g) }
}

/// The number of edges: each edge stands in exactly one outgoing list.
pub open spec fn edge_total(lists: Seq<Seq<int>>) -> nat
    decreases lists.len(),
{
    if lists.len() == 0 {
        0
    } else {
        edge_total(lists.drop_last()) + lists.last().len()
    }
}

/// Every entry of every list names a node.
pub open spec fn entries_in_range(lists: Seq<Seq<int>>, n: int) -> bool {
    forall|i: int, j: int|
        0 <= i < lists.len() && 0 <= j < lists[i].len() ==> 0 <= #[trigger] lists[i][j] < n
}

/// One outgoing and one incoming list per node, each naming nodes only.
pub open spec fn lists_ok(m: GraphModel) -> bool {
    &&& m.outs.len() == m.nodes.len()
    &&& m.ins.len() == m.nodes.len()
    &&& entries_in_range(m.outs, m.nodes.len() as int)
    &&& entries_in_range(m.ins, m.nodes.len() as int)
}

/// The most petgraph's `u32` indices allow: no node or edge may get this index.
pub const INDEX_END: usize = 0xffff_ffff;

/// The graph with node `v` appended: it has no edges yet.
pub open spec fn with_node(m: GraphModel, v: VertexModel) -> GraphModel {
    GraphModel {
        nodes: m.nodes.push(v),
        outs: m.outs.push(Seq::empty()),
        ins: m.ins.push(Seq::empty()),
    }
}

/// The graph with the edge `a -> b` added: `b` heads the outgoing list of
/// `a`, and `a` heads the incoming list of `b`.
pub open spec fn with_edge(m: GraphModel, a: int, b: int) -> GraphModel {
    GraphModel {
        nodes: m.nodes,
        outs: m.outs.update(a, seq![b] + m.outs[a]),
        ins: m.ins.update(b, seq![a] + m.ins[b]),
    }
}

/// Entry `a` taken out of `s`: the last entry takes its place.
pub open spec fn swap_out<T>(s: Seq<T>, a: int) -> Seq<T> {
    if a == s.len() - 1 {
        s.drop_last()
    } else {
        s.update(a, s.last()).drop_last()
    }
}

/// An endpoint renamed from `from` to `to`.
pub open spec fn renamed(x: int, from: int, to: int) -> int {
    if x == from {
        to
    } else {
        x
    }
}

/// A neighbour list once node `a` is gone: the entries `a` dropped, the
/// others in their order, with the last node `last` renamed to `a`.
pub open spec fn list_after_removal(list: Seq<int>, a: int, last: int) -> Seq<int>
    decreases list.len(),
{
    if list.len() == 0 {
        list
    } else {
        let rest = list_after_removal(list.drop_last(), a, last);
        if list.last() == a {
            rest
        } else {
            rest.push(renamed(list.last(), last, a))
        }
    }
}

/// The neighbour lists once node `a` of `last + 1` nodes is gone: each list
/// as `list_after_removal` says, and the lists of the last node moved to `a`.
pub open spec fn lists_after_removal(lists: Seq<Seq<int>>, a: int, last: int) -> Seq<Seq<int>> {
    swap_out(Seq::new(lists.len(), |i: int| list_after_removal(lists[i], a, last)), a)
}

/// The graph with node `a` taken out as petgraph's `remove_node` does it.
pub open spec fn without_node(m: GraphModel, a: int) -> GraphModel {
    GraphModel {
        nodes: swap_out(m.nodes, a),
        outs: lists_after_removal(m.outs, a, m.nodes.len() - 1),
        ins: lists_after_removal(m.ins, a, m.nodes.len() - 1),
    }
}

/// The neighbours `ns` of a visited node offered to the search in order:
/// each one not yet discovered is discovered and queued at the back.
pub open spec fn bfs_offer(queue: Seq<int>, seen: Set<int>, ns: Seq<int>) -> (Seq<int>, Set<int>)
    decreases ns.len(),
{
    if ns.len() == 0 {
        (queue, seen)
    } else if seen.contains(ns[0]) {
        bfs_offer(queue, seen, ns.drop_first())
    } else {
        bfs_offer(queue.push(ns[0]), seen.insert(ns[0]), ns.drop_first())
    }
}

/// The search from `queue`: the front node is visited, then its outgoing
/// neighbours are offered; at most `fuel` nodes are visited.
pub open spec fn bfs_walk(out: Seq<Seq<int>>, queue: Seq<int>, seen: Set<int>, fuel: nat) -> Seq<
    int,
>
    decreases fuel,
{
    if fuel == 0 || queue.len() == 0 {
        Seq::empty()
    } else {
        let v = queue[0];
        let next = bfs_offer(queue.drop_first(), seen, out[v]);
        seq![v] + bfs_walk(out, next.0, next.1, (fuel - 1) as nat)
    }
}

/// The nodes petgraph's `Bfs` visits from `start` over the outgoing lists
/// `out`, in visiting order. A node is queued at most once, so as many
/// visits as there are nodes end the search.
pub open spec fn bfs_order(out: Seq<Seq<int>>, start: int) -> Seq<int> {
    bfs_walk(out, seq![start], set![start], out.len())
}

/// `p` is a path of the graph with outgoing lists `out`: each node of it
/// lists the next among its outgoing neighbours.
pub open spec fn is_path(out: Seq<Seq<int>>, p: Seq<int>) -> bool {
    &&& p.len() >= 1
    &&& forall|i: int| 0 <= i < p.len() - 1 ==> out[#[trigger] p[i]].contains(p[i + 1])
}

/// Some path leads from `a` to `b`.
pub open spec fn reaches(out: Seq<Seq<int>>, a: int, b: int) -> bool {
    exists|p: Seq<int>| #[trigger] is_path(out, p) && p[0] == a && p.last() == b
}

/// `p` holds of every node a step leads to from a node it holds of.
pub open spec fn closed_under_steps(out: Seq<Seq<int>>, p: spec_fn(int) -> bool) -> bool {
    forall|v: int, j: int| p(v) && 0 <= j < out[v].len() ==> #[trigger] p(out[v][j])
}

/// Offering neighbours that all satisfy `p` to a queue that does keeps the
/// queue within `p`.
proof fn lemma_offer_keeps(p: spec_fn(int) -> bool, queue: Seq<int>, seen: Set<int>, ns: Seq<int>)
    requires
        forall|i: int| 0 <= i < queue.len() ==> p(#[trigger] queue[i]),
        forall|j: int| 0 <= j < ns.len() ==> p(#[trigger] ns[j]),
    ensures
        forall|i: int|
            0 <= i < bfs_offer(queue, seen, ns).0.len() ==> p(#[trigger] bfs_offer(queue, seen, ns).0[i]),
    decreases ns.len(),
{
    if ns.len() > 0 {
        let rest = ns.drop_first();
        assert forall|j: int| 0 <= j < rest.len() implies p(#[trigger] rest[j]) by {
            assert(rest[j] == ns[j + 1]);
        }
        if seen.contains(ns[0]) {
            lemma_offer_keeps(p, queue, seen, rest);
            assert(bfs_offer(queue, seen, ns) == bfs_offer(queue, seen, rest));
        } else {
            let q = queue.push(ns[0]);
            assert(p(ns[0]));
            assert forall|i: int| 0 <= i < q.len() implies p(#[trigger] q[i]) by {
                if i < queue.len() {
                    assert(q[i] == queue[i]);
                }
            }
            lemma_offer_keeps(p, q, seen.insert(ns[0]), rest);
            assert(bfs_offer(queue, seen, ns) == bfs_offer(q, seen.insert(ns[0]), rest));
        }
    }
}

/// A walk whose queue lies within a `p` closed under steps visits only
/// nodes within `p`.
proof fn lemma_walk_keeps(
    out: Seq<Seq<int>>,
    p: spec_fn(int) -> bool,
    queue: Seq<int>,
    seen: Set<int>,
    fuel: nat,
)
    requires
        closed_under_steps(out, p),
        forall|i: int| 0 <= i < queue.len() ==> p(#[trigger] queue[i]),
    ensures
        forall|i: int|
            0 <= i < bfs_walk(out, queue, seen, fuel).len() ==> p(
                #[trigger] bfs_walk(out, queue, seen, fuel)[i],
            ),
    decreases fuel,
{
    if fuel > 0 && queue.len() > 0 {
        let v = queue[0];
        let rest = queue.drop_first();
        assert forall|i: int| 0 <= i < rest.len() implies p(#[trigger] rest[i]) by {
            assert(rest[i] == queue[i + 1]);
        }
        assert(p(v));
        assert forall|j: int| 0 <= j < out[v].len() implies p(#[trigger] out[v][j]) by {}
        lemma_offer_keeps(p, rest, seen, out[v]);
        let next = bfs_offer(rest, seen, out[v]);
        lemma_walk_keeps(out, p, next.0, next.1, (fuel - 1) as nat);
        let w = bfs_walk(out, queue, seen, fuel);
        let tail = bfs_walk(out, next.0, next.1, (fuel - 1) as nat);
        assert(w == seq![v] + tail);
        assert forall|i: int| 0 <= i < w.len() implies p(#[trigger] w[i]) by {
            if i > 0 {
                assert(w[i] == tail[i - 1]);
            }
        }
    }
}

/// A path to `v` continued by one of `v`'s outgoing neighbours.
proof fn lemma_reaches_step(out: Seq<Seq<int>>, a: int, v: int, j: int)
    requires
        reaches(out, a, v),
        0 <= j < out[v].len(),
    ensures
        reaches(out, a, out[v][j]),
{
    let p = choose|p: Seq<int>| #[trigger] is_path(out, p) && p[0] == a && p.last() == v;
    let q = p.push(out[v][j]);
    assert forall|i: int| 0 <= i < q.len() - 1 implies out[#[trigger] q[i]].contains(q[i + 1]) by {
        if i < p.len() - 1 {
            assert(q[i] == p[i] && q[i + 1] == p[i + 1]);
        } else {
            assert(q[i] == v);
            assert(out[v][j] == q[i + 1]);
        }
    }
    assert(is_path(out, q) && q[0] == a && q.last() == out[v][j]);
}

/// Every node a breadth-first search visits is reached from its start.
pub proof fn lemma_bfs_reaches(out: Seq<Seq<int>>, start: int)
    ensures
        forall|i: int|
            0 <= i < bfs_order(out, start).len() ==> reaches(out, start, #[trigger] bfs_order(out, start)[i]),
{
    let p = |x: int| reaches(out, start, x);
    assert forall|v: int, j: int| p(v) && 0 <= j < out[v].len() implies #[trigger] p(out[v][j]) by {
        lemma_reaches_step(out, start, v, j);
    }
    let single = seq![start];
    assert(is_path(out, single) && single[0] == start && single.last() == start);
    let queue = seq![start];
    assert forall|i: int| 0 <= i < queue.len() implies p(#[trigger] queue[i]) by {
        assert(queue[i] == start);
    }
    lemma_walk_keeps(out, p, queue, set![start], out.len());
}

/// A breadth-first search from a node of a graph whose lists name nodes
/// visits its start first and visits only nodes.
pub proof fn lemma_bfs_in_range(out: Seq<Seq<int>>, start: int)
    requires
        entries_in_range(out, out.len() as int),
        0 <= start < out.len(),
    ensures
        bfs_order(out, start).len() >= 1,
        bfs_order(out, start)[0] == start,
        forall|i: int|
            0 <= i < bfs_order(out, start).len() ==> 0 <= #[trigger] bfs_order(out, start)[i]
                < out.len(),
{
    let n = out.len() as int;
    let p = |x: int| 0 <= x < n;
    assert forall|v: int, j: int| p(v) && 0 <= j < out[v].len() implies #[trigger] p(out[v][j]) by {
        assert(0 <= out[v][j] < n);
    }
    let queue = seq![start];
    assert forall|i: int| 0 <= i < queue.len() implies p(#[trigger] queue[i]) by {
        assert(queue[i] == start);
    }
    lemma_walk_keeps(out, p, queue, set![start], out.len());
    let next = bfs_offer(queue.drop_first(), set![start], out[start]);
    assert(bfs_order(out, start) == seq![start] + bfs_walk(out, next.0, next.1, (out.len() - 1) as nat));
}

/// What offering `ns` does: the nodes discovered are those already seen
/// and those offered; the queue keeps its entries and gains, once each,
/// the offered nodes that were not yet seen, as many as the seen set grew.
proof fn lemma_offer_facts(queue: Seq<int>, seen: Set<int>, ns: Seq<int>)
    requires
        seen.finite(),
    ensures
        bfs_offer(queue, seen, ns).1.finite(),
        bfs_offer(queue, seen, ns).0.len() >= queue.len(),
        forall|x: int|
            #[trigger] bfs_offer(queue, seen, ns).1.contains(x) <==> (seen.contains(x) || ns.contains(
                x,
            )),
        bfs_offer(queue, seen, ns).0.len() + seen.len() == queue.len() + bfs_offer(
            queue,
            seen,
            ns,
        ).1.len(),
        forall|k: int| 0 <= k < queue.len() ==> #[trigger] bfs_offer(queue, seen, ns).0[k] == queue[k],
        forall|k: int|
            queue.len() <= k < bfs_offer(queue, seen, ns).0.len() ==> !seen.contains(
                #[trigger] bfs_offer(queue, seen, ns).0[k],
            ) && ns.contains(bfs_offer(queue, seen, ns).0[k]),
        forall|k1: int, k2: int|
            queue.len() <= k1 < k2 < bfs_offer(queue, seen, ns).0.len() ==> #[trigger] bfs_offer(
                queue,
                seen,
                ns,
            ).0[k1] != #[trigger] bfs_offer(queue, seen, ns).0[k2],
        forall|x: int|
            bfs_offer(queue, seen, ns).1.contains(x) && !seen.contains(x) ==> #[trigger] bfs_offer(
                queue,
                seen,
                ns,
            ).0.contains(x),
    decreases ns.len(),
{
    if ns.len() > 0 {
        let rest = ns.drop_first();
        assert forall|x: int| #[trigger] ns.contains(x) <==> (x == ns[0] || rest.contains(x)) by {
            if ns.contains(x) && x != ns[0] {
                let j = choose|j: int| 0 <= j < ns.len() && ns[j] == x;
                assert(rest[j - 1] == x);
            }
            if rest.contains(x) {
                let j = choose|j: int| 0 <= j < rest.len() && rest[j] == x;
                assert(ns[j + 1] == x);
            }
            if x == ns[0] {
                assert(ns[0] == x);
            }
        }
        let r = bfs_offer(queue, seen, ns);
        if seen.contains(ns[0]) {
            lemma_offer_facts(queue, seen, rest);
            assert(r == bfs_offer(queue, seen, rest));
        } else {
            let q1 = queue.push(ns[0]);
            let s1 = seen.insert(ns[0]);
            lemma_offer_facts(q1, s1, rest);
            assert(r == bfs_offer(q1, s1, rest));
            assert(s1.len() == seen.len() + 1);
            assert forall|k: int| 0 <= k < queue.len() implies #[trigger] r.0[k] == queue[k] by {
                assert(r.0[k] == q1[k]);
            }
            assert(r.0[queue.len() as int] == q1[queue.len() as int]);
            assert forall|k: int| queue.len() <= k < r.0.len() implies !seen.contains(
                #[trigger] r.0[k],
            ) && ns.contains(r.0[k]) by {
                if k == queue.len() {
                    assert(r.0[k] == ns[0]);
                    assert(ns.contains(ns[0]));
                }
            }
            assert forall|k1: int, k2: int| queue.len() <= k1 < k2 < r.0.len() implies #[trigger] r.0[k1]
                != #[trigger] r.0[k2] by {
                if k1 == queue.len() {
                    assert(!s1.contains(r.0[k2]));
                }
            }
            assert forall|x: int| r.1.contains(x) && !seen.contains(x) implies #[trigger] r.0.contains(x) by {
                if x == ns[0] {
                    assert(r.0[queue.len() as int] == x);
                }
            }
        }
    }
}

/// A state of the search: `queue` holds distinct discovered nodes not yet
/// visited, every discovered node is visited (in `done`) or queued, the
/// neighbours of the visited nodes are discovered, every discovered node
/// is a node, and the fuel suffices, as a node is queued only once.
pub open spec fn walk_state_ok(
    out: Seq<Seq<int>>,
    queue: Seq<int>,
    seen: Set<int>,
    done: Set<int>,
    fuel: nat,
) -> bool {
    &&& entries_in_range(out, out.len() as int)
    &&& queue.no_duplicates()
    &&& forall|i: int|
        0 <= i < queue.len() ==> seen.contains(#[trigger] queue[i]) && !done.contains(queue[i])
    &&& forall|x: int| #[trigger] seen.contains(x) ==> 0 <= x < out.len()
    &&& forall|x: int| #[trigger] seen.contains(x) ==> done.contains(x) || queue.contains(x)
    &&& forall|x: int| #[trigger] done.contains(x) ==> seen.contains(x)
    &&& forall|v: int, j: int|
        done.contains(v) && 0 <= j < out[v].len() ==> seen.contains(#[trigger] out[v][j])
    &&& seen.finite()
    &&& fuel + seen.len() >= queue.len() + out.len()
}

/// One step of the search keeps its state as `walk_state_ok` says: the
/// front node is visited, and the fuel was not spent.
proof fn lemma_step_state(out: Seq<Seq<int>>, queue: Seq<int>, seen: Set<int>, done: Set<int>, fuel: nat)
    requires
        walk_state_ok(out, queue, seen, done, fuel),
        queue.len() > 0,
    ensures
        fuel > 0,
        seen.contains(queue[0]),
        0 <= queue[0] < out.len(),
        walk_state_ok(
            out,
            bfs_offer(queue.drop_first(), seen, out[queue[0]]).0,
            bfs_offer(queue.drop_first(), seen, out[queue[0]]).1,
            done.insert(queue[0]),
            (fuel - 1) as nat,
        ),
        bfs_walk(out, queue, seen, fuel) == seq![queue[0]] + bfs_walk(
            out,
            bfs_offer(queue.drop_first(), seen, out[queue[0]]).0,
            bfs_offer(queue.drop_first(), seen, out[queue[0]]).1,
            (fuel - 1) as nat,
        ),
{
    let n = out.len() as int;
    if fuel == 0 {
        lemma_int_range(0, n);
        assert(seen.subset_of(set_int_range(0, n)));
        lemma_len_subset(seen, set_int_range(0, n));
        assert(false);
    }
    let v = queue[0];
    let rest = queue.drop_first();
    let ns = out[v];
    lemma_offer_facts(rest, seen, ns);
    let next = bfs_offer(rest, seen, ns);
    let q2 = next.0;
    let s2 = next.1;
    let done2 = done.insert(v);
    assert(seen.contains(queue[0]));
    assert(0 <= v < n);
    assert forall|i: int| 0 <= i < rest.len() implies #[trigger] rest[i] == queue[i + 1] by {}
    assert forall|x: int| #[trigger] ns.contains(x) implies 0 <= x < n by {
        let j = choose|j: int| 0 <= j < ns.len() && ns[j] == x;
        assert(0 <= out[v][j] < n);
    }
    assert forall|k1: int, k2: int| 0 <= k1 < q2.len() && 0 <= k2 < q2.len() && k1 != k2 implies q2[k1]
        != q2[k2] by {
        if k1 < rest.len() && k2 < rest.len() {
            assert(q2[k1] == queue[k1 + 1] && q2[k2] == queue[k2 + 1]);
        } else if k1 < rest.len() {
            assert(q2[k1] == queue[k1 + 1]);
            assert(seen.contains(queue[k1 + 1]));
        } else if k2 < rest.len() {
            assert(q2[k2] == queue[k2 + 1]);
            assert(seen.contains(queue[k2 + 1]));
        } else if k1 < k2 {
            assert(q2[k1] != q2[k2]);
        } else {
            assert(q2[k2] != q2[k1]);
        }
    }
    assert(q2.no_duplicates());
    assert forall|i: int| 0 <= i < q2.len() implies s2.contains(#[trigger] q2[i]) && !done2.contains(
        q2[i],
    ) by {
        if i < rest.len() {
            assert(q2[i] == queue[i + 1]);
            assert(queue[i + 1] != queue[0]);
        } else {
            assert(ns.contains(q2[i]));
            assert(!seen.contains(q2[i]));
        }
    }
    assert forall|x: int| #[trigger] s2.contains(x) implies 0 <= x < n by {
        if !seen.contains(x) {
            assert(ns.contains(x));
        }
    }
    assert forall|x: int| #[trigger] s2.contains(x) implies done2.contains(x) || q2.contains(x) by {
        if seen.contains(x) {
            if !done.contains(x) && x != v {
                assert(queue.contains(x));
                let i = choose|i: int| 0 <= i < queue.len() && queue[i] == x;
                assert(i > 0);
                assert(q2[i - 1] == x);
            }
        }
    }
    assert forall|v2: int, j: int| done2.contains(v2) && 0 <= j < out[v2].len() implies s2.contains(
        #[trigger] out[v2][j],
    ) by {
        if v2 == v {
            assert(ns.contains(ns[j]));
        } else {
            assert(seen.contains(out[v2][j]));
        }
    }
}

/// A walk from a state as `walk_state_ok` says ends with `done` and the
/// nodes it visits closed under steps, holding every node discovered.
proof fn lemma_walk_closes(
    out: Seq<Seq<int>>,
    queue: Seq<int>,
    seen: Set<int>,
    done: Set<int>,
    fuel: nat,
)
    requires
        walk_state_ok(out, queue, seen, done, fuel),
    ensures
        forall|v: int, j: int|
            (done.contains(v) || bfs_walk(out, queue, seen, fuel).contains(v)) && 0 <= j
                < out[v].len() ==> done.contains(#[trigger] out[v][j]) || bfs_walk(
                out,
                queue,
                seen,
                fuel,
            ).contains(out[v][j]),
        forall|x: int|
            #[trigger] seen.contains(x) ==> done.contains(x) || bfs_walk(out, queue, seen, fuel).contains(x),
    decreases fuel,
{
    let w = bfs_walk(out, queue, seen, fuel);
    if queue.len() == 0 {
        assert(w.len() == 0);
        assert forall|x: int| #[trigger] seen.contains(x) implies done.contains(x) by {}
    } else {
        lemma_step_state(out, queue, seen, done, fuel);
        let v = queue[0];
        let next = bfs_offer(queue.drop_first(), seen, out[v]);
        let s2 = next.1;
        let done2 = done.insert(v);
        lemma_offer_facts(queue.drop_first(), seen, out[v]);
        lemma_walk_closes(out, next.0, s2, done2, (fuel - 1) as nat);
        let w2 = bfs_walk(out, next.0, s2, (fuel - 1) as nat);
        assert forall|x: int| done2.contains(x) || w2.contains(x) <==> done.contains(x) || #[trigger] w.contains(x) by {
            if w2.contains(x) {
                let k = choose|k: int| 0 <= k < w2.len() && w2[k] == x;
                assert(w[k + 1] == x);
            }
            if w.contains(x) {
                let k = choose|k: int| 0 <= k < w.len() && w[k] == x;
                if k > 0 {
                    assert(w2[k - 1] == x);
                }
            }
            if x == v {
                assert(w[0] == v);
            }
        }
        assert forall|x: int| #[trigger] seen.contains(x) implies done.contains(x) || w.contains(x) by {
            assert(s2.contains(x));
            assert(done2.contains(x) || w2.contains(x));
            assert(done2.contains(x) || w2.contains(x) <==> done.contains(x) || w.contains(x));
        }
        assert forall|v1: int, j: int| (done.contains(v1) || w.contains(v1)) && 0 <= j < out[v1].len()
            implies done.contains(#[trigger] out[v1][j]) || w.contains(out[v1][j]) by {
            assert(done2.contains(v1) || w2.contains(v1) <==> done.contains(v1) || w.contains(v1));
            assert(done2.contains(out[v1][j]) || w2.contains(out[v1][j]));
            assert(done2.contains(out[v1][j]) || w2.contains(out[v1][j]) <==> done.contains(out[v1][j]) || w.contains(out[v1][j]));
        }
    }
}

/// Along a path from a node of a set closed under steps, every node is in
/// the set.
proof fn lemma_path_stays(out: Seq<Seq<int>>, p: Seq<int>, r: Seq<int>, i: int)
    requires
        is_path(out, p),
        r.contains(p[0]),
        forall|v: int, j: int|
            r.contains(v) && 0 <= j < out[v].len() ==> r.contains(#[trigger] out[v][j]),
        0 <= i < p.len(),
    ensures
        r.contains(p[i]),
    decreases i,
{
    if i > 0 {
        lemma_path_stays(out, p, r, i - 1);
        let prev = out[p[i - 1]];
        assert(prev.contains(p[i]));
        let j = choose|j: int| 0 <= j < prev.len() && #[trigger] prev[j] == p[i];
        assert(r.contains(out[p[i - 1]][j]));
    }
}

/// The search starts in a state as `walk_state_ok` says.
proof fn lemma_start_state(out: Seq<Seq<int>>, start: int)
    requires
        entries_in_range(out, out.len() as int),
        0 <= start < out.len(),
    ensures
        walk_state_ok(out, seq![start], set![start], Set::empty(), out.len()),
{
    let queue = seq![start];
    let seen = set![start];
    assert(seen.len() == 1);
    assert(queue.no_duplicates());
    assert forall|y: int| #[trigger] seen.contains(y) implies Set::<int>::empty().contains(y)
        || queue.contains(y) by {
        assert(queue[0] == start);
    }
}

/// A breadth-first search from a node of a graph whose lists name nodes
/// visits every node reached from its start.
pub proof fn lemma_bfs_complete(out: Seq<Seq<int>>, start: int, x: int)
    requires
        entries_in_range(out, out.len() as int),
        0 <= start < out.len(),
        reaches(out, start, x),
    ensures
        bfs_order(out, start).contains(x),
{
    let queue = seq![start];
    let seen = set![start];
    let done = Set::<int>::empty();
    lemma_start_state(out, start);
    lemma_walk_closes(out, queue, seen, done, out.len());
    let r = bfs_order(out, start);
    assert(r == bfs_walk(out, queue, seen, out.len()));
    assert(seen.contains(start));
    assert(r.contains(start));
    assert forall|v: int, j: int| r.contains(v) && 0 <= j < out[v].len() implies r.contains(
        #[trigger] out[v][j],
    ) by {
        assert(!done.contains(out[v][j]));
    }
    let p = choose|p: Seq<int>| #[trigger] is_path(out, p) && p[0] == start && p.last() == x;
    lemma_path_stays(out, p, r, p.len() - 1);
}

/// Some path of at most `k` steps leads from `a` to `b`.
pub open spec fn within(out: Seq<Seq<int>>, a: int, b: int, k: nat) -> bool {
    exists|p: Seq<int>|
        #[trigger] is_path(out, p) && p[0] == a && p.last() == b && p.len() <= k + 1
}

/// `order` lists nearer nodes first: whatever a path of at most `k` steps
/// from `a` reaches, it reaches every node listed before it too.
pub open spec fn nearest_first(out: Seq<Seq<int>>, a: int, order: Seq<int>) -> bool {
    forall|i: int, j: int, k: nat|
        #![trigger order[i], within(out, a, order[j], k)]
        0 <= i < j < order.len() && within(out, a, order[j], k) ==> within(out, a, order[i], k)
}

/// A path of at most `k` steps is a path.
pub proof fn lemma_within_reaches(out: Seq<Seq<int>>, a: int, b: int, k: nat)
    requires
        within(out, a, b, k),
    ensures
        reaches(out, a, b),
{
    let p = choose|p: Seq<int>| #[trigger] is_path(out, p) && p[0] == a && p.last() == b && p.len() <= k + 1;
    assert(is_path(out, p) && p[0] == a && p.last() == b);
}

proof fn lemma_within_mono(out: Seq<Seq<int>>, a: int, b: int, k1: nat, k2: nat)
    requires
        within(out, a, b, k1),
        k1 <= k2,
    ensures
        within(out, a, b, k2),
{
    let p = choose|p: Seq<int>| #[trigger] is_path(out, p) && p[0] == a && p.last() == b && p.len() <= k1 + 1;
    assert(is_path(out, p) && p[0] == a && p.last() == b && p.len() <= k2 + 1);
}

proof fn lemma_within_step(out: Seq<Seq<int>>, a: int, v: int, j: int, k: nat)
    requires
        within(out, a, v, k),
        0 <= j < out[v].len(),
    ensures
        within(out, a, out[v][j], k + 1),
{
    let p = choose|p: Seq<int>| #[trigger] is_path(out, p) && p[0] == a && p.last() == v && p.len() <= k + 1;
    let q = p.push(out[v][j]);
    assert forall|i: int| 0 <= i < q.len() - 1 implies out[#[trigger] q[i]].contains(q[i + 1]) by {
        if i < p.len() - 1 {
            assert(q[i] == p[i] && q[i + 1] == p[i + 1]);
        } else {
            assert(q[i] == v);
            assert(out[v][j] == q[i + 1]);
        }
    }
    assert(is_path(out, q) && q[0] == a && q.last() == out[v][j] && q.len() <= k + 2);
}

proof fn lemma_within_zero(out: Seq<Seq<int>>, a: int, b: int)
    requires
        within(out, a, b, 0),
    ensures
        b == a,
{
    let p = choose|p: Seq<int>| #[trigger] is_path(out, p) && p[0] == a && p.last() == b && p.len() <= 1;
    assert(p.last() == p[0]);
}

/// The node before `b` on a path of at most `k + 1` steps from `a`.
proof fn lemma_within_pred(out: Seq<Seq<int>>, a: int, b: int, k: nat) -> (r: (int, int))
    requires
        within(out, a, b, k + 1),
        b != a,
    ensures
        within(out, a, r.0, k),
        0 <= r.1 < out[r.0].len(),
        out[r.0][r.1] == b,
{
    let p = choose|p: Seq<int>| #[trigger] is_path(out, p) && p[0] == a && p.last() == b && p.len() <= k + 2;
    assert(p.len() >= 2);
    let q = p.take(p.len() - 1);
    assert forall|i: int| 0 <= i < q.len() - 1 implies out[#[trigger] q[i]].contains(q[i + 1]) by {
        assert(q[i] == p[i] && q[i + 1] == p[i + 1]);
        assert(out[p[i]].contains(p[i + 1]));
    }
    assert(is_path(out, q) && q[0] == a && q.last() == p[p.len() - 2] && q.len() <= k + 1);
    let u = p[p.len() - 2];
    assert(out[p[p.len() - 2]].contains(p[p.len() - 2 + 1]));
    let s = out[u];
    let j = choose|j: int| 0 <= j < s.len() && #[trigger] s[j] == b;
    (u, j)
}

/// A walk whose visited nodes lie within `lv` steps of `a`, whose queue
/// holds nodes at `lv` steps first and then nodes at `lv + 1` steps, and
/// that has discovered every node within `lv` steps, lists nearer nodes
/// first, none of them nearer than `lv` steps.
proof fn lemma_walk_layers(
    out: Seq<Seq<int>>,
    a: int,
    queue: Seq<int>,
    seen: Set<int>,
    done: Set<int>,
    fuel: nat,
    lv: nat,
)
    requires
        walk_state_ok(out, queue, seen, done, fuel),
        seen.contains(a),
        forall|x: int| #[trigger] done.contains(x) ==> within(out, a, x, lv),
        forall|i: int|
            0 <= i < queue.len() ==> within(out, a, #[trigger] queue[i], lv + 1) && (lv == 0
                || !within(out, a, queue[i], (lv - 1) as nat)),
        forall|i: int, j: int|
            0 <= i < j < queue.len() && within(out, a, #[trigger] queue[j], lv) ==> within(
                out,
                a,
                #[trigger] queue[i],
                lv,
            ),
        queue.len() > 0 ==> within(out, a, queue[0], lv),
        forall|x: int| !(#[trigger] seen.contains(x)) ==> !within(out, a, x, lv),
    ensures
        nearest_first(out, a, bfs_walk(out, queue, seen, fuel)),
        forall|i: int, k: nat|
            0 <= i < bfs_walk(out, queue, seen, fuel).len() && k < lv ==> !#[trigger] within(
                out,
                a,
                bfs_walk(out, queue, seen, fuel)[i],
                k,
            ),
    decreases fuel,
{
    let w = bfs_walk(out, queue, seen, fuel);
    if queue.len() > 0 {
        lemma_step_state(out, queue, seen, done, fuel);
        let v = queue[0];
        let rest = queue.drop_first();
        let ns = out[v];
        lemma_offer_facts(rest, seen, ns);
        let next = bfs_offer(rest, seen, ns);
        let q2 = next.0;
        let s2 = next.1;
        let done2 = done.insert(v);
        assert forall|i: int| 0 <= i < rest.len() implies #[trigger] rest[i] == queue[i + 1] by {}
        // The nodes newly queued are neighbours of `v` not yet discovered.
        assert forall|i: int| rest.len() <= i < q2.len() implies within(out, a, #[trigger] q2[i], lv + 1)
            && !within(out, a, q2[i], lv) by {
            assert(ns.contains(q2[i]));
            let j = choose|j: int| 0 <= j < ns.len() && ns[j] == q2[i];
            lemma_within_step(out, a, v, j, lv);
        }
        let lv2: nat = if rest.len() > 0 && within(out, a, rest[0], lv) {
            lv
        } else {
            lv + 1
        };
        assert forall|i: int| 0 <= i < q2.len() implies within(out, a, #[trigger] q2[i], lv2 + 1) && (
        lv2 == 0 || !within(out, a, q2[i], (lv2 - 1) as nat)) by {
            if i < rest.len() {
                assert(q2[i] == queue[i + 1]);
                if lv2 == lv + 1 {
                    if within(out, a, queue[i + 1], lv) {
                        assert(queue[1] == rest[0]);
                        assert(within(out, a, queue[1], lv));
                    }
                    lemma_within_mono(out, a, q2[i], lv + 1, lv2 + 1);
                }
            } else {
                if lv2 == lv + 1 {
                    lemma_within_mono(out, a, q2[i], lv + 1, lv2 + 1);
                } else if lv > 0 && within(out, a, q2[i], (lv - 1) as nat) {
                    lemma_within_mono(out, a, q2[i], (lv - 1) as nat, lv);
                }
            }
        }
        assert forall|i: int, j: int| 0 <= i < j < q2.len() && within(out, a, #[trigger] q2[j], lv2)
            implies within(out, a, #[trigger] q2[i], lv2) by {
            if lv2 == lv {
                if j < rest.len() {
                    assert(q2[j] == queue[j + 1] && q2[i] == queue[i + 1]);
                }
            } else {
                assert(within(out, a, q2[i], lv + 1));
            }
        }
        if q2.len() > 0 {
            if lv2 == lv {
                assert(q2[0] == rest[0]);
            }
        }
        assert forall|x: int| !(#[trigger] s2.contains(x)) implies !within(out, a, x, lv2) by {
            if lv2 == lv + 1 && within(out, a, x, lv + 1) {
                assert(!seen.contains(x));
                let r = lemma_within_pred(out, a, x, lv);
                let u = r.0;
                assert(seen.contains(u));
                assert(s2.contains(u));
                if q2.contains(u) {
                    let i = choose|i: int| 0 <= i < q2.len() && q2[i] == u;
                    assert(!within(out, a, q2[i], lv));
                }
                assert(done2.contains(u));
                assert(s2.contains(out[u][r.1]));
            }
        }
        assert forall|x: int| #[trigger] done2.contains(x) implies within(out, a, x, lv2) by {
            lemma_within_mono(out, a, x, lv, lv2);
        }
        assert(s2.contains(a));
        lemma_walk_layers(out, a, q2, s2, done2, (fuel - 1) as nat, lv2);
        let w2 = bfs_walk(out, q2, s2, (fuel - 1) as nat);
        assert(w == seq![v] + w2);
        assert forall|i: int, k: nat| 0 <= i < w.len() && k < lv implies !#[trigger] within(out, a, w[i], k) by {
            if i == 0 {
                if within(out, a, v, k) {
                    lemma_within_mono(out, a, v, k, (lv - 1) as nat);
                }
            } else {
                assert(w[i] == w2[i - 1]);
            }
        }
        assert forall|i: int, j: int, k: nat|
            #![trigger w[i], within(out, a, w[j], k)]
            0 <= i < j < w.len() && within(out, a, w[j], k) implies within(out, a, w[i], k) by {
            assert(w[j] == w2[j - 1]);
            if i == 0 {
                if k < lv {
                    assert(!within(out, a, w2[j - 1], k));
                } else {
                    lemma_within_mono(out, a, v, lv, k);
                }
            } else {
                assert(w[i] == w2[i - 1]);
            }
        }
    }
}

/// A breadth-first search lists nearer nodes first: a node it visits
/// before another is reached from the start in no more steps.
pub proof fn lemma_bfs_nearest_first(out: Seq<Seq<int>>, start: int)
    requires
        entries_in_range(out, out.len() as int),
        0 <= start < out.len(),
    ensures
        nearest_first(out, start, bfs_order(out, start)),
{
    lemma_start_state(out, start);
    let queue = seq![start];
    let single = seq![start];
    assert(is_path(out, single) && single[0] == start && single.last() == start && single.len() <= 0 + 1);
    assert(within(out, start, start, 0));
    lemma_within_mono(out, start, start, 0, 1);
    assert forall|x: int| !(#[trigger] set![start].contains(x)) implies !within(out, start, x, 0) by {
        if within(out, start, x, 0) {
            lemma_within_zero(out, start, x);
        }
    }
    assert(queue[0] == start);
    lemma_walk_layers(out, start, queue, set![start], Set::empty(), out.len(), 0);
}

/// `Graph::new`: a graph with no nodes and no edges.
#[verifier::external_body]
pub(crate) fn graph_new() -> (g: AnnotationGraph)
    ensures
        graph_nodes(g) == Seq::<VertexModel>::empty(),
        graph_out(g) == Seq::<Seq<int>>::empty(),
        graph_in(g) == Seq::<Seq<int>>::empty(),
{
    Graph::new()
}

/// `Graph::node_count`: the number of nodes.
#[verifier::external_body]
pub(crate) fn graph_node_count(g: &AnnotationGraph) -> (n: usize)
    ensures
        n == graph_nodes(*g).len(),
{
    g.node_count()
}

/// `Graph::edge_count`: the number of edges, which is the total length of
/// the outgoing lists.
#[verifier::external_body]
pub(crate) fn graph_edge_count(g: &AnnotationGraph) -> (n: usize)
    ensures
        n == edge_total(graph_out(*g)),
{
    g.edge_count()
}

/// `Graph::add_node`: appends `v` with empty neighbour lists; its index is
/// the former node count. petgraph panics when that index would be
/// `u32::MAX`, which `requires` leaves out.
#[verifier::external_body]
pub(crate) fn graph_add_node(g: &mut AnnotationGraph, v: Vertex) -> (i: usize)
    requires
        graph_nodes(*old(g)).len() < INDEX_END,
    ensures
        i == graph_nodes(*old(g)).len(),
        graph_nodes(*final(g)) == graph_nodes(*old(g)).push(v@),
        graph_out(*final(g)) == graph_out(*old(g)).push(Seq::<int>::empty()),
        graph_in(*final(g)) == graph_in(*old(g)).push(Seq::<int>::empty()),
{
    g.add_node(v).index()
}

/// `Graph::add_edge`: adds the edge `a -> b` at the head of the outgoing
/// list of `a` and of the incoming list of `b`. petgraph panics when an
/// endpoint is not a node or the edge index would be `u32::MAX`.
#[verifier::external_body]
pub(crate) fn graph_add_edge(g: &mut AnnotationGraph, a: usize, b: usize)
    requires
        a < graph_nodes(*old(g)).len(),
        b < graph_nodes(*old(g)).len(),
        edge_total(graph_out(*old(g))) < INDEX_END,
    ensures
        graph_nodes(*final(g)) == graph_nodes(*old(g)),
        graph_out(*final(g)) == graph_out(*old(g)).update(
            a as int,
            seq![b as int] + graph_out(*old(g))[a as int],
        ),
        graph_in(*final(g)) == graph_in(*old(g)).update(
            b as int,
            seq![a as int] + graph_in(*old(g))[b as int],
        ),
{
    g.add_edge(NodeIndex::new(a), NodeIndex::new(b), ());
}

/// `Graph::node_weight`: the weight of node `i`, if there is such a node.
#[verifier::external_body]
pub(crate) fn graph_node_weight(g: &AnnotationGraph, i: usize) -> (w: Option<&Vertex>)
    requires
        i < INDEX_END,
    ensures
        w is Some <==> i < graph_nodes(*g).len(),
        w is Some ==> w->0@ == graph_nodes(*g)[i as int],
{
    g.node_weight(NodeIndex::new(i))
}

/// `Graph::edges_directed(v, Incoming)`, each edge taken by its source:
/// the incoming list of `v`.
#[verifier::external_body]
pub(crate) fn graph_incoming_sources(g: &AnnotationGraph, v: usize) -> (r: Vec<usize>)
    requires
        v < graph_nodes(*g).len() <= INDEX_END,
    ensures
        r@.map_values(|x: usize| x as int) == graph_in(*g)[v as int],
{
    g.edges_directed(NodeIndex::new(v), Direction::Incoming).map(|e| e.source().index()).collect()
}

/// `Graph::remove_node`: takes node `a` out with every edge that touches
/// it and returns its weight. Removing an edge unlinks it from its two
/// lists and leaves the other entries in their order; the last node then
/// takes index `a`, and the entries that named it name `a`.
#[verifier::external_body]
pub(crate) fn graph_remove_node(g: &mut AnnotationGraph, a: usize) -> (w: Option<Vertex>)
    requires
        a < graph_nodes(*old(g)).len() <= INDEX_END,
    ensures
        w is Some,
        w->0@ == graph_nodes(*old(g))[a as int],
        graph_nodes(*final(g)) == swap_out(graph_nodes(*old(g)), a as int),
        graph_out(*final(g)) == lists_after_removal(
            graph_out(*old(g)),
            a as int,
            graph_nodes(*old(g)).len() - 1,
        ),
        graph_in(*final(g)) == lists_after_removal(
            graph_in(*old(g)),
            a as int,
            graph_nodes(*old(g)).len() - 1,
        ),
{
    g.remove_node(NodeIndex::new(a))
}

/// `Bfs::new(g, start)` stepped with `Bfs::next` until it is done: the
/// nodes in the order the search visits them, as `bfs_order` walks the
/// outgoing lists (`Graph::neighbors`). petgraph's visit map panics for a
/// start that is not a node.
#[verifier::external_body]
pub(crate) fn graph_bfs_order(g: &AnnotationGraph, start: usize) -> (r: Vec<usize>)
    requires
        start < graph_nodes(*g).len() <= INDEX_END,
    ensures
        r@.map_values(|x: usize| x as int) == bfs_order(graph_out(*g), start as int),
{
    Bfs::new(g, NodeIndex::new(start)).iter(g).map(|n| n.index()).collect()
}

} // verus!
