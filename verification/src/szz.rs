//! The per-commit decisions of the SZZ run: which lines of the fixing
//! commit the search starts from, and the tally of what it found.
use vstd::prelude::*;
use crate::graph::change_label;
use crate::graph_store::AnnotationGraph;
use crate::graph_store::INDEX_END;
use crate::graph_store::graph_nodes;
use crate::graph_store::graph_node_count;
use crate::graph_store::graph_node_weight;
use crate::vertex::VertexModel;

verus! {

/// The SZZ analysis: for each bug-fixing commit, the commit that most
/// likely introduced the bug.
pub struct Szz {}

/// Among the first `k` nodes, the indices of the `"CHANGE"` nodes of
/// commit `hash`, in index order.
pub open spec fn change_nodes_of(nodes: Seq<VertexModel>, hash: Seq<char>, k: int) -> Seq<int>
    decreases k,
{
    if k <= 0 {
        Seq::empty()
    } else {
        let rest = change_nodes_of(nodes, hash, k - 1);
        if nodes[k - 1].0 == hash && nodes[k - 1].2 == change_label() {
            rest.push(k - 1)
        } else {
            rest
        }
    }
}

/// The start nodes are exactly the `"CHANGE"` nodes of the commit: a node
/// index below `k` is listed exactly when its node has the commit's hash
/// and the label `"CHANGE"`, and the list is strictly increasing, so each
/// such node is listed once.
pub proof fn lemma_change_nodes_exact(nodes: Seq<VertexModel>, hash: Seq<char>, k: int)
    requires
        0 <= k <= nodes.len(),
    ensures
        forall|i: int|
            0 <= i < k ==> (#[trigger] change_nodes_of(nodes, hash, k).contains(i) <==> (
            nodes[i].0 == hash && nodes[i].2 == change_label())),
        forall|j: int|
            0 <= j < change_nodes_of(nodes, hash, k).len() ==> 0 <= #[trigger] change_nodes_of(
                nodes,
                hash,
                k,
            )[j] < k,
        forall|a: int, b: int|
            0 <= a < b < change_nodes_of(nodes, hash, k).len() ==> #[trigger] change_nodes_of(
                nodes,
                hash,
                k,
            )[a] < #[trigger] change_nodes_of(nodes, hash, k)[b],
    decreases k,
{
    if k > 0 {
        lemma_change_nodes_exact(nodes, hash, k - 1);
        let rest = change_nodes_of(nodes, hash, k - 1);
        let all = change_nodes_of(nodes, hash, k);
        let hit = nodes[k - 1].0 == hash && nodes[k - 1].2 == change_label();
        if hit {
            assert(all == rest.push(k - 1));
            assert(all[rest.len() as int] == k - 1);
        } else {
            assert(all == rest);
        }
        assert forall|i: int| 0 <= i < k implies (#[trigger] all.contains(i) <==> (nodes[i].0 == hash
            && nodes[i].2 == change_label())) by {
            if i < k - 1 {
                if all.contains(i) {
                    let j = choose|j: int| 0 <= j < all.len() && all[j] == i;
                    if j < rest.len() {
                        assert(rest[j] == i);
                    }
                }
                if rest.contains(i) {
                    let j = choose|j: int| 0 <= j < rest.len() && rest[j] == i;
                    assert(all[j] == i);
                }
            } else {
                if all.contains(i) && !hit {
                    let j = choose|j: int| 0 <= j < all.len() && all[j] == i;
                    assert(rest[j] < k - 1);
                }
            }
        }
    }
}

/// The nodes of the fixing commit `fix_hash` that a hunk rewrote: where
/// the search for the bug-introducing commit starts.
pub fn fix_vertices(g: &AnnotationGraph, fix_hash: &String) -> (r: Vec<usize>)
    requires
        graph_nodes(*g).len() <= INDEX_END,
    ensures
        r@.map_values(|i: usize| i as int) == change_nodes_of(
            graph_nodes(*g),
            fix_hash@,
            graph_nodes(*g).len() as int,
        ),
        forall|i: int|
            0 <= i < graph_nodes(*g).len() ==> (r@.contains(i as usize) <==> (
            #[trigger] graph_nodes(*g)[i].0 == fix_hash@ && graph_nodes(*g)[i].2 == change_label())),
        forall|a: int, b: int| 0 <= a < b < r@.len() ==> #[trigger] r@[a] < #[trigger] r@[b],
{
    let n = graph_node_count(g);
    let mut r: Vec<usize> = Vec::new();
    let mut i: usize = 0;
    while i < n
        invariant
            i <= n == graph_nodes(*g).len() <= INDEX_END,
            r@.map_values(|x: usize| x as int) == change_nodes_of(graph_nodes(*g), fix_hash@, i as int),
        decreases n - i,
    {
        match graph_node_weight(g, i) {
            Some(w) => {
                if w.hash == *fix_hash && w.label == String::from_str("CHANGE") {
                    let ghost prev = r@;
                    r.push(i);
                    proof {
                        assert(r@.map_values(|x: usize| x as int) =~= prev.map_values(
                            |x: usize| x as int,
                        ).push(i as int));
                    }
                }
            },
            None => {},
        }
        i = i + 1;
    }
    proof {
        let nodes = graph_nodes(*g);
        let c = change_nodes_of(nodes, fix_hash@, n as int);
        lemma_change_nodes_exact(nodes, fix_hash@, n as int);
        assert forall|j: int| 0 <= j < r@.len() implies r@[j] as int == #[trigger] c[j] by {
            assert(r@.map_values(|x: usize| x as int)[j] == c[j]);
        }
        assert forall|i: int| 0 <= i < nodes.len() implies (r@.contains(i as usize) <==> (
        #[trigger] nodes[i].0 == fix_hash@ && nodes[i].2 == change_label())) by {
            if r@.contains(i as usize) {
                let j = choose|j: int| 0 <= j < r@.len() && r@[j] == i as usize;
                assert(c[j] == i);
                assert(c.contains(i));
            }
            if c.contains(i) {
                let j = choose|j: int| 0 <= j < c.len() && c[j] == i;
                assert(r@[j] as int == i);
                assert(r@[j] == i as usize);
            }
        }
        assert forall|a: int, b: int| 0 <= a < b < r@.len() implies #[trigger] r@[a] < #[trigger] r@[b] by {
            assert(c[a] < c[b]);
        }
    }
    r
}

/// Whether a search found a commit: its answer is neither empty nor `" "`.
pub open spec fn is_found(found: Seq<char>) -> bool {
    found.len() != 0 && found != " "@
}

/// How many analysed commits got the known bug-introducing commit, and
/// how many got none.
pub struct Tally {
    pub n_correct: usize,
    pub n_not_found: usize,
}

impl Tally {
    /// Nothing counted yet.
    pub fn new() -> (t: Tally)
        ensures
            t.n_correct == 0,
            t.n_not_found == 0,
    {
        Tally { n_correct: 0, n_not_found: 0 }
    }

    /// Counts one analysed commit whose search answered `found`, where
    /// `expected` is the commit known to have introduced the bug.
    pub fn record(&mut self, expected: &String, found: &String)
        requires
            old(self).n_correct < usize::MAX,
            old(self).n_not_found < usize::MAX,
        ensures
            is_found(found@) ==> final(self).n_correct == old(self).n_correct + (if expected@
                == found@ {
                1int
            } else {
                0int
            }) && final(self).n_not_found == old(self).n_not_found,
            !is_found(found@) ==> final(self).n_correct == old(self).n_correct
                && final(self).n_not_found == old(self).n_not_found + 1,
    {
        if !(*found == String::new()) && !(*found == String::from_str(" ")) {
            proof {
                if found@.len() == 0 {
                    assert(found@ =~= Seq::<char>::empty());
                }
            }
            if *expected == *found {
                self.n_correct = self.n_correct + 1;
            }
        } else {
            self.n_not_found = self.n_not_found + 1;
        }
    }

    /// The analysed commits that got another commit than the known one.
    pub fn wrongs(&self, total: usize) -> (r: usize)
        requires
            self.n_correct + self.n_not_found <= total,
        ensures
            r == total - self.n_correct - self.n_not_found,
    {
        total - self.n_correct - self.n_not_found
    }
}

} // verus!
