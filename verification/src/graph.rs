//! The annotation graph of one file: a node for every line of every version
//! of the file along its history, and edges that say which line of one
//! version a line of the next version comes from.
//!
//! The build is stated step by step over `GraphModel`: each step is a spec
//! function, and `build_outcome` composes them. An outcome is `Next`
//! (go on), `Stop` (the build returns an error message) or `Panic` (the
//! build cannot go on: a line that should be in the graph is missing, or
//! petgraph's index space is exhausted); the build is only called where the
//! outcome is not `Panic`.
use vstd::prelude::*;
use crate::graph_store::AnnotationGraph;
use crate::graph_store::model;
use crate::graph_store::graph_nodes;
use crate::graph_store::graph_out;
use crate::graph_store::graph_node_count;
use crate::graph_store::graph_node_weight;
use crate::graph_store::graph_add_edge;
use crate::graph_store::graph_edge_count;
use crate::graph_store::graph_add_node;
use crate::graph_store::graph_incoming_sources;
use crate::graph_store::graph_remove_node;
use crate::graph_store::graph_new;
use crate::graph_store::graph_bfs_order;
use crate::graph_store::bfs_order;
use crate::graph_store::reaches;
use crate::graph_store::lemma_bfs_in_range;
use crate::graph_store::lemma_bfs_reaches;
use crate::graph_store::lemma_bfs_complete;
use crate::graph_store::lemma_bfs_nearest_first;
use crate::graph_store::lemma_within_reaches;
use crate::graph_store::within;
use crate::text::views;
use crate::graph_store::lists_ok;
use crate::graph_store::entries_in_range;
use crate::graph_store::edge_total;
use crate::graph_store::with_node;
use crate::graph_store::with_edge;
use crate::graph_store::without_node;
use crate::graph_store::list_after_removal;
use crate::graph_store::lists_after_removal;
use crate::graph_store::swap_out;
use crate::graph_store::GraphModel;
use crate::graph_store::INDEX_END;
use crate::hunk::Hunk;
use crate::hunk::KIND_ADDITION;
use crate::hunk::KIND_CHANGE;
use crate::hunk::KIND_DELETION;
use crate::vertex::Vertex;
use crate::vertex::VertexModel;
use crate::git::ModifiedFile;
use crate::utils::is_large_span;
use crate::utils::spans_fit;
use crate::utils::large_modification;

verus! {

/// Where a step leads.
pub enum Outcome<T> {
    Next(T),
    Stop(Seq<char>),
    Panic,
}

/// The label of a line that the next version rewrote.
pub open spec fn change_label() -> Seq<char> {
    "CHANGE"@
}

/// The message of the error the build returns when a hunk names a line
/// that the graph does not hold.
pub open spec fn hunk_error_message() -> Seq<char> {
    "Error in hunk: large modification"@
}

/// Sizes recorded so far: (commit, number of lines), in recording order.
pub type SizeLog = Seq<(Seq<char>, nat)>;

/// The size last recorded for commit `c`.
pub open spec fn size_lookup(log: SizeLog, c: Seq<char>) -> Option<nat>
    decreases log.len(),
{
    if log.len() == 0 {
        None
    } else if log.last().0 == c {
        Some(log.last().1)
    } else {
        size_lookup(log.drop_last(), c)
    }
}

/// The first node among `nodes[0..k]` for line `line` of commit `hash`.
pub open spec fn find_in(nodes: Seq<VertexModel>, hash: Seq<char>, line: int, k: int) -> Option<int>
    decreases k,
{
    if k <= 0 {
        None
    } else {
        match find_in(nodes, hash, line, k - 1) {
            Some(i) => Some(i),
            None => if nodes[k - 1].0 == hash && nodes[k - 1].1 == line {
                Some(k - 1)
            } else {
                None
            },
        }
    }
}

/// The first node of the graph for line `line` of commit `hash`.
pub open spec fn find_node(nodes: Seq<VertexModel>, hash: Seq<char>, line: int) -> Option<int> {
    find_in(nodes, hash, line, nodes.len() as int)
}

/// Nodes for lines `1..=count` of commit `c`, added in order.
pub open spec fn line_nodes(m: GraphModel, c: Seq<char>, count: nat) -> Option<GraphModel>
    decreases count,
{
    if count == 0 {
        Some(m)
    } else {
        match line_nodes(m, c, (count - 1) as nat) {
            Some(m1) => if m1.nodes.len() >= INDEX_END {
                None
            } else {
                Some(with_node(m1, (c, count as i64, Seq::empty())))
            },
            None => None,
        }
    }
}

/// The nodes of the first `k` versions, and the sizes recorded for them.
/// A version whose size is unknown gets no nodes and no size.
pub open spec fn nodes_phase(commits: Seq<Seq<char>>, sizes: Seq<Option<nat>>, k: int) -> Option<
    (GraphModel, SizeLog),
>
    decreases k,
{
    if k <= 0 {
        Some((GraphModel { nodes: Seq::empty(), outs: Seq::empty(), ins: Seq::empty() }, Seq::empty()))
    } else {
        match nodes_phase(commits, sizes, k - 1) {
            Some((m, log)) => match sizes[k - 1] {
                None => Some((m, log)),
                Some(s) => match line_nodes(m, commits[k - 1], s) {
                    Some(m2) => Some((m2, log.push((commits[k - 1], s)))),
                    None => None,
                },
            },
            None => None,
        }
    }
}

/// An edge from line `l` of commit `left` to line `r` of commit `right`.
pub open spec fn link(m: GraphModel, left: Seq<char>, l: int, right: Seq<char>, r: int) -> Option<
    GraphModel,
> {
    match (find_node(m.nodes, left, l), find_node(m.nodes, right, r)) {
        (Some(a), Some(b)) => if edge_total(m.outs) >= INDEX_END {
            None
        } else {
            Some(with_edge(m, a, b))
        },
        _ => None,
    }
}

/// Pairs line `pl` with `pr`, `pl + 1` with `pr + 1`, ... while
/// `pl <= bl` and `pr <= br`; gives the graph and the next positions.
pub open spec fn run_matches(
    m: GraphModel,
    left: Seq<char>,
    right: Seq<char>,
    pl: int,
    pr: int,
    bl: int,
    br: int,
) -> Option<(GraphModel, int, int)>
    decreases bl + 1 - pl,
{
    if pl <= bl && pr <= br {
        match link(m, left, pl, right, pr) {
            Some(m1) => if pl + 1 > i64::MAX || pr + 1 > i64::MAX {
                None
            } else {
                run_matches(m1, left, right, pl + 1, pr + 1, bl, br)
            },
            None => None,
        }
    } else {
        Some((m, pl, pr))
    }
}

/// Edges from line `l` of `left` to lines `r..=rt` of `right`.
pub open spec fn cross_row(
    m: GraphModel,
    left: Seq<char>,
    l: int,
    right: Seq<char>,
    r: int,
    rt: int,
) -> Option<GraphModel>
    decreases rt + 1 - r,
{
    if r <= rt {
        match link(m, left, l, right, r) {
            Some(m1) => cross_row(m1, left, l, right, r + 1, rt),
            None => None,
        }
    } else {
        Some(m)
    }
}

/// Edges from every line `l..=lt` of `left` to every line `rf..=rt` of
/// `right`, row by row.
pub open spec fn cross_links(
    m: GraphModel,
    left: Seq<char>,
    l: int,
    lt: int,
    right: Seq<char>,
    rf: int,
    rt: int,
) -> Option<GraphModel>
    decreases lt + 1 - l,
{
    if l <= lt {
        match cross_row(m, left, l, right, rf, rt) {
            Some(m1) => cross_links(m1, left, l + 1, lt, right, rf, rt),
            None => None,
        }
    } else {
        Some(m)
    }
}

/// Edges from node `from` to each of `targets`, in order.
pub open spec fn edges_from(m: GraphModel, from: int, targets: Seq<int>) -> Option<GraphModel>
    decreases targets.len(),
{
    if targets.len() == 0 {
        Some(m)
    } else {
        match edges_from(m, from, targets.drop_last()) {
            Some(m1) => if edge_total(m1.outs) >= INDEX_END {
                None
            } else {
                Some(with_edge(m1, from, targets.last()))
            },
            None => None,
        }
    }
}

/// Line `r` of commit `right` replaced by a `"CHANGE"` node that points
/// back to the lines that pointed to it.
pub open spec fn replace_one(m: GraphModel, right: Seq<char>, r: int) -> Outcome<GraphModel> {
    match find_node(m.nodes, right, r) {
        None => Outcome::Stop(hunk_error_message()),
        Some(b) => if m.nodes.len() >= INDEX_END {
            Outcome::Panic
        } else {
            let fresh = m.nodes.len() as int;
            let m1 = with_node(m, (right, r as i64, change_label()));
            match edges_from(m1, fresh, m1.ins[b]) {
                Some(m2) => Outcome::Next(without_node(m2, b)),
                None => Outcome::Panic,
            }
        },
    }
}

/// Lines `r..=rt` of `right` replaced one after the other.
pub open spec fn replace_range(m: GraphModel, right: Seq<char>, r: int, rt: int) -> Outcome<
    GraphModel,
>
    decreases rt + 1 - r,
{
    if r <= rt {
        match replace_one(m, right, r) {
            Outcome::Next(m1) => replace_range(m1, right, r + 1, rt),
            other => other,
        }
    } else {
        Outcome::Next(m)
    }
}

/// One hunk between `left` and `right`, from positions `pl`, `pr`:
/// unchanged lines up to the hunk are paired, then a change that is not a
/// large modification links every old line to every new one, and a change
/// or deletion that is not large turns the new lines into `"CHANGE"` nodes.
pub open spec fn hunk_step(
    m: GraphModel,
    pl: int,
    pr: int,
    h: Hunk,
    left: Seq<char>,
    right: Seq<char>,
    log: SizeLog,
) -> Outcome<(GraphModel, int, int)> {
    match run_matches(m, left, right, pl, pr, h.left_from as int, h.right_from as int) {
        None => Outcome::Panic,
        Some((m1, pl1, pr1)) => if size_lookup(log, left) is None || size_lookup(log, right) is None
            || !spans_fit(h) {
            Outcome::Panic
        } else {
            let large = is_large_span(h);
            let change = h.kind == KIND_CHANGE;
            let rewrites = change || h.kind == KIND_DELETION;
            let moves_right = change || h.kind == KIND_ADDITION;
            let linked = if change && !large {
                cross_links(
                    m1,
                    left,
                    h.left_from as int,
                    h.left_to as int,
                    right,
                    h.right_from as int,
                    h.right_to as int,
                )
            } else {
                Some(m1)
            };
            match linked {
                None => Outcome::Panic,
                Some(m2) => {
                    let replaced = if !large && rewrites {
                        replace_range(m2, right, h.right_from as int, h.right_to as int)
                    } else {
                        Outcome::Next(m2)
                    };
                    match replaced {
                        Outcome::Next(m3) => if (rewrites && h.left_to == i64::MAX) || (moves_right
                            && h.right_to == i64::MAX) {
                            Outcome::Panic
                        } else {
                            Outcome::Next(
                                (
                                    m3,
                                    if rewrites {
                                        h.left_to + 1
                                    } else {
                                        pl1
                                    },
                                    if moves_right {
                                        h.right_to + 1
                                    } else {
                                        pr1
                                    },
                                ),
                            )
                        },
                        Outcome::Stop(s) => Outcome::Stop(s),
                        Outcome::Panic => Outcome::Panic,
                    }
                },
            }
        },
    }
}

/// The first `k` hunks between `left` and `right`, from positions 1, 1.
pub open spec fn hunks_run(
    m: GraphModel,
    hunks: Seq<Hunk>,
    k: int,
    left: Seq<char>,
    right: Seq<char>,
    log: SizeLog,
) -> Outcome<(GraphModel, int, int)>
    decreases k,
{
    if k <= 0 {
        Outcome::Next((m, 1, 1))
    } else {
        match hunks_run(m, hunks, k - 1, left, right, log) {
            Outcome::Next((m1, pl, pr)) => hunk_step(m1, pl, pr, hunks[k - 1], left, right, log),
            other => other,
        }
    }
}

/// The unchanged lines after the last hunk, paired up to the end of
/// either version.
pub open spec fn tail_matches(
    m: GraphModel,
    pl: int,
    pr: int,
    left: Seq<char>,
    right: Seq<char>,
    log: SizeLog,
) -> Option<GraphModel> {
    match size_lookup(log, left) {
        None => None,
        Some(sl) => if pl > sl {
            Some(m)
        } else {
            match size_lookup(log, right) {
                None => None,
                Some(sr) => match run_matches(m, left, right, pl, pr, sl as int, sr as int) {
                    Some((m1, _, _)) => Some(m1),
                    None => None,
                },
            }
        },
    }
}

/// One pair of consecutive versions; a pair whose diff could not be made
/// is passed over.
pub open spec fn pair_step(
    m: GraphModel,
    left: Seq<char>,
    right: Seq<char>,
    hunks: Result<Seq<Hunk>, Seq<char>>,
    log: SizeLog,
) -> Outcome<GraphModel> {
    match hunks {
        Err(_) => Outcome::Next(m),
        Ok(hs) => match hunks_run(m, hs, hs.len() as int, left, right, log) {
            Outcome::Next((m1, pl, pr)) => match tail_matches(m1, pl, pr, left, right, log) {
                Some(m2) => Outcome::Next(m2),
                None => Outcome::Panic,
            },
            Outcome::Stop(s) => Outcome::Stop(s),
            Outcome::Panic => Outcome::Panic,
        },
    }
}

/// The first `k` pairs of consecutive versions.
pub open spec fn pairs_run(
    m: GraphModel,
    commits: Seq<Seq<char>>,
    hunks: Seq<Result<Seq<Hunk>, Seq<char>>>,
    log: SizeLog,
    k: int,
) -> Outcome<GraphModel>
    decreases k,
{
    if k <= 0 {
        Outcome::Next(m)
    } else {
        match pairs_run(m, commits, hunks, log, k - 1) {
            Outcome::Next(m1) => pair_step(m1, commits[k - 1], commits[k], hunks[k - 1], log),
            other => other,
        }
    }
}

/// The size of each version: the fixing commit's from the modified file,
/// the others as retrieved.
pub open spec fn version_sizes(
    hash: Seq<char>,
    fixed_len: nat,
    commits: Seq<Seq<char>>,
    sizes: Seq<Option<usize>>,
) -> Seq<Option<nat>> {
    Seq::new(
        commits.len(),
        |i: int|
            if commits[i] == hash {
                Some(fixed_len)
            } else {
                match sizes[i] {
                    Some(s) => Some(s as nat),
                    None => None,
                }
            },
    )
}

/// The number of lines of the first `k` versions whose size is known.
pub open spec fn total_size(sizes: Seq<Option<nat>>, k: int) -> nat
    decreases k,
{
    if k <= 0 {
        0
    } else {
        total_size(sizes, k - 1) + match sizes[k - 1] {
            Some(s) => s,
            None => 0,
        }
    }
}

/// Where building the annotation graph leads.
pub open spec fn build_outcome(
    hash: Seq<char>,
    fixed_len: nat,
    commits: Seq<Seq<char>>,
    sizes: Seq<Option<usize>>,
    hunks: Seq<Result<Seq<Hunk>, Seq<char>>>,
) -> Outcome<GraphModel> {
    match nodes_phase(
        commits,
        version_sizes(hash, fixed_len, commits, sizes),
        commits.len() as int,
    ) {
        None => Outcome::Panic,
        Some((m, log)) => pairs_run(m, commits, hunks, log, commits.len() - 1),
    }
}


/// Pairing unchanged lines moves both sides alike: from `pl`, `pr` it
/// ends at positions equally far on, past one of the bounds (or where it
/// started), having paired old line `pl + t` with new line `pr + t`.
pub proof fn lemma_run_matches_offset(
    m: GraphModel,
    left: Seq<char>,
    right: Seq<char>,
    pl: int,
    pr: int,
    bl: int,
    br: int,
)
    ensures
        run_matches(m, left, right, pl, pr, bl, br) matches Some((m1, a, b)) ==> a - pl == b - pr
            && a >= pl && !(a <= bl && b <= br),
    decreases bl + 1 - pl,
{
    if pl <= bl && pr <= br {
        if let Some(m1) = link(m, left, pl, right, pr) {
            lemma_run_matches_offset(m1, left, right, pl + 1, pr + 1, bl, br);
        }
    }
}

/// Where a hunk leaves the two sides: after a change or a deletion the
/// old side goes on from the line after the hunk's old lines, and after a
/// change or an addition the new side goes on from the line after the
/// hunk's new lines (an addition `l a rf,rt` goes on at new line
/// `rt + 1`, past every line it added). A side the hunk does not touch
/// goes on from where the pairing before the hunk left it, both sides
/// having moved alike.
pub proof fn lemma_hunk_step_positions(
    m: GraphModel,
    pl: int,
    pr: int,
    h: Hunk,
    left: Seq<char>,
    right: Seq<char>,
    log: SizeLog,
)
    ensures
        hunk_step(m, pl, pr, h, left, right, log) matches Outcome::Next((m2, a, b)) ==> {
            &&& (h.kind == KIND_CHANGE || h.kind == KIND_DELETION) ==> a == h.left_to + 1
            &&& (h.kind == KIND_CHANGE || h.kind == KIND_ADDITION) ==> b == h.right_to + 1
            &&& h.kind == KIND_ADDITION ==> a >= pl
            &&& h.kind == KIND_DELETION ==> b >= pr
            &&& (h.kind != KIND_CHANGE && h.kind != KIND_DELETION && h.kind != KIND_ADDITION)
                ==> a - pl == b - pr && a >= pl
        },
{
    lemma_run_matches_offset(m, left, right, pl, pr, h.left_from as int, h.right_from as int);
}

/// Once a first match is found, scanning further does not change it.
pub proof fn lemma_find_in_stable(nodes: Seq<VertexModel>, hash: Seq<char>, line: int, j: int, k: int)
    requires
        j <= k,
        find_in(nodes, hash, line, j) is Some,
    ensures
        find_in(nodes, hash, line, k) == find_in(nodes, hash, line, j),
    decreases k - j,
{
    if j < k {
        lemma_find_in_stable(nodes, hash, line, j, k - 1);
    }
}

/// A match lies in the scanned range and is a node of the wanted line.
pub proof fn lemma_find_in_valid(nodes: Seq<VertexModel>, hash: Seq<char>, line: int, k: int)
    ensures
        find_in(nodes, hash, line, k) matches Some(i) ==> 0 <= i < k && nodes[i].0 == hash
            && nodes[i].1 == line,
    decreases k,
{
    if k > 0 {
        lemma_find_in_valid(nodes, hash, line, k - 1);
    }
}

/// The size log as plain values.
pub open spec fn log_view(v: Seq<(String, usize)>) -> SizeLog {
    v.map_values(|e: (String, usize)| (e.0@, e.1 as nat))
}

/// The size last recorded for commit `c`.
fn lookup_size(log: &Vec<(String, usize)>, c: &String) -> (r: Option<usize>)
    ensures
        match size_lookup(log_view(log@), c@) {
            Some(n) => r == Some(n as usize),
            None => r is None,
        },
{
    let mut i = log.len();
    proof {
        assert(log@.take(i as int) == log@);
    }
    while i > 0
        invariant
            i <= log.len(),
            size_lookup(log_view(log@), c@) == size_lookup(log_view(log@.take(i as int)), c@),
        decreases i,
    {
        proof {
            let t = log@.take(i as int);
            assert(log_view(t).drop_last() == log_view(log@.take(i - 1)));
            assert(log_view(t).last() == (log@[i - 1].0@, log@[i - 1].1 as nat));
        }
        if log[i - 1].0 == *c {
            return Some(log[i - 1].1);
        }
        i = i - 1;
    }
    proof {
        assert(log_view(log@.take(0)) =~= Seq::<(Seq<char>, nat)>::empty());
    }
    None
}

/// The first node of `g` for line `line` of commit `hash`.
fn find_vertex(g: &AnnotationGraph, hash: &String, line: i64) -> (r: Option<usize>)
    requires
        graph_nodes(*g).len() <= INDEX_END,
    ensures
        match find_node(graph_nodes(*g), hash@, line as int) {
            Some(i) => r == Some(i as usize),
            None => r is None,
        },
{
    let n = graph_node_count(g);
    let mut i: usize = 0;
    while i < n
        invariant
            n == graph_nodes(*g).len() <= INDEX_END,
            i <= n,
            find_in(graph_nodes(*g), hash@, line as int, i as int) is None,
        decreases n - i,
    {
        match graph_node_weight(g, i) {
            Some(w) => {
                if w.hash == *hash && w.line == line {
                    proof {
                        lemma_find_in_stable(graph_nodes(*g), hash@, line as int, i + 1, n as int);
                    }
                    return Some(i);
                }
            },
            None => {},
        }
        i = i + 1;
    }
    None
}

/// A node without edges keeps the lists naming nodes.
pub proof fn lemma_with_node_ok(m: GraphModel, v: VertexModel)
    requires
        lists_ok(m),
    ensures
        lists_ok(with_node(m, v)),
{
    let m1 = with_node(m, v);
    let n = m1.nodes.len() as int;
    assert forall|i: int, j: int| 0 <= i < m1.outs.len() && 0 <= j < m1.outs[i].len() implies 0
        <= #[trigger] m1.outs[i][j] < n by {
        assert(m1.outs[i] == m.outs[i]);
    }
    assert forall|i: int, j: int| 0 <= i < m1.ins.len() && 0 <= j < m1.ins[i].len() implies 0
        <= #[trigger] m1.ins[i][j] < n by {
        assert(m1.ins[i] == m.ins[i]);
    }
}

/// An edge between nodes keeps the lists naming nodes.
pub proof fn lemma_with_edge_ok(m: GraphModel, a: int, b: int)
    requires
        lists_ok(m),
        0 <= a < m.nodes.len(),
        0 <= b < m.nodes.len(),
    ensures
        lists_ok(with_edge(m, a, b)),
{
    let m1 = with_edge(m, a, b);
    let n = m.nodes.len() as int;
    assert forall|i: int, j: int| 0 <= i < m1.outs.len() && 0 <= j < m1.outs[i].len() implies 0
        <= #[trigger] m1.outs[i][j] < n by {
        if i == a && j > 0 {
            assert(m1.outs[i][j] == m.outs[a][j - 1]);
        }
    }
    assert forall|i: int, j: int| 0 <= i < m1.ins.len() && 0 <= j < m1.ins[i].len() implies 0
        <= #[trigger] m1.ins[i][j] < n by {
        if i == b && j > 0 {
            assert(m1.ins[i][j] == m.ins[b][j - 1]);
        }
    }
}

/// A list of nodes of `last + 1` nodes names nodes of `last` nodes once
/// node `a` is gone.
proof fn lemma_list_after_removal(list: Seq<int>, a: int, last: int)
    requires
        0 <= a <= last,
        forall|j: int| 0 <= j < list.len() ==> 0 <= #[trigger] list[j] <= last,
    ensures
        forall|j: int|
            0 <= j < list_after_removal(list, a, last).len() ==> 0
                <= #[trigger] list_after_removal(list, a, last)[j] < last,
    decreases list.len(),
{
    if list.len() > 0 {
        let d = list.drop_last();
        assert forall|j: int| 0 <= j < d.len() implies 0 <= #[trigger] d[j] <= last by {
            assert(d[j] == list[j]);
        }
        lemma_list_after_removal(d, a, last);
        assert(list.last() == list[list.len() - 1]);
        let rest = list_after_removal(d, a, last);
        let all = list_after_removal(list, a, last);
        assert forall|j: int| 0 <= j < all.len() implies 0 <= #[trigger] all[j] < last by {
            if j < rest.len() {
                assert(all[j] == rest[j]);
            }
        }
    }
}

/// Lists naming nodes still name nodes once node `a` is gone.
proof fn lemma_lists_after_removal(lists: Seq<Seq<int>>, a: int, n: int)
    requires
        lists.len() == n,
        0 <= a < n,
        entries_in_range(lists, n),
    ensures
        lists_after_removal(lists, a, n - 1).len() == n - 1,
        entries_in_range(lists_after_removal(lists, a, n - 1), n - 1),
{
    let fixed = Seq::new(lists.len(), |i: int| list_after_removal(lists[i], a, n - 1));
    assert forall|i: int| 0 <= i < n implies entries_in_range(seq![#[trigger] fixed[i]], n - 1) by {
        assert forall|j: int| 0 <= j < lists[i].len() implies 0 <= #[trigger] lists[i][j] <= n
            - 1 by {}
        lemma_list_after_removal(lists[i], a, n - 1);
        assert forall|k: int, j: int| 0 <= k < 1 && 0 <= j < seq![fixed[i]][k].len() implies 0
            <= #[trigger] seq![fixed[i]][k][j] < n - 1 by {
            assert(seq![fixed[i]][k] == fixed[i]);
        }
    }
    let after = lists_after_removal(lists, a, n - 1);
    assert(after == swap_out(fixed, a));
    assert forall|i: int, j: int| 0 <= i < after.len() && 0 <= j < after[i].len() implies 0
        <= #[trigger] after[i][j] < n - 1 by {
        let k = if i == a { n - 1 } else { i };
        assert(after[i] == fixed[k]);
        assert(entries_in_range(seq![fixed[k]], n - 1));
        assert(seq![fixed[k]][0] == fixed[k]);
    }
}

/// Removing a node keeps the lists naming nodes.
pub proof fn lemma_removal_in_range(m: GraphModel, b: int)
    requires
        lists_ok(m),
        0 <= b < m.nodes.len(),
    ensures
        lists_ok(without_node(m, b)),
{
    let n = m.nodes.len() as int;
    lemma_lists_after_removal(m.outs, b, n);
    lemma_lists_after_removal(m.ins, b, n);
}

/// A sequence of edge additions that succeeds succeeds on every prefix.
pub proof fn lemma_edges_from_prefix(m: GraphModel, from: int, targets: Seq<int>, k: int)
    requires
        edges_from(m, from, targets) is Some,
        0 <= k <= targets.len(),
    ensures
        edges_from(m, from, targets.take(k)) is Some,
    decreases targets.len(),
{
    if k == targets.len() {
        assert(targets.take(k) == targets);
    } else {
        assert(targets.take(k) == targets.drop_last().take(k));
        lemma_edges_from_prefix(m, from, targets.drop_last(), k);
    }
}

/// Every recorded size fits petgraph's index space.
pub open spec fn log_bounded(log: SizeLog) -> bool {
    forall|i: int| 0 <= i < log.len() ==> (#[trigger] log[i]).1 <= INDEX_END
}

pub proof fn lemma_size_lookup_bounded(log: SizeLog, c: Seq<char>)
    requires
        log_bounded(log),
    ensures
        size_lookup(log, c) matches Some(n) ==> n <= INDEX_END,
    decreases log.len(),
{
    if log.len() > 0 {
        let d = log.drop_last();
        assert forall|i: int| 0 <= i < d.len() implies (#[trigger] d[i]).1 <= INDEX_END by {
            assert(d[i] == log[i]);
        }
        lemma_size_lookup_bounded(d, c);
        assert(log.last() == log[log.len() - 1]);
    }
}

/// The hunks of a pair as plain values.
pub open spec fn hunks_view(r: Result<Vec<Hunk>, String>) -> Result<Seq<Hunk>, Seq<char>> {
    match r {
        Ok(v) => Ok(v@),
        Err(e) => Err(e@),
    }
}

/// Once the hunk loop stops or cannot go on, later hunks change nothing.
pub proof fn lemma_hunks_run_sticks(
    m: GraphModel,
    hs: Seq<Hunk>,
    j: int,
    k: int,
    left: Seq<char>,
    right: Seq<char>,
    log: SizeLog,
)
    requires
        0 <= j <= k,
        !(hunks_run(m, hs, j, left, right, log) is Next),
    ensures
        hunks_run(m, hs, k, left, right, log) == hunks_run(m, hs, j, left, right, log),
    decreases k - j,
{
    if j < k {
        lemma_hunks_run_sticks(m, hs, j, k - 1, left, right, log);
    }
}

/// Adding the nodes of `count` lines adds exactly `count` nodes after the
/// existing ones, and fits the index space; each shorter run fits too.
pub proof fn lemma_line_nodes(m: GraphModel, c: Seq<char>, count: nat, j: nat)
    requires
        line_nodes(m, c, count) is Some,
        j <= count,
        m.nodes.len() <= INDEX_END,
    ensures
        line_nodes(m, c, j) is Some,
        line_nodes(m, c, count)->0.nodes.len() == m.nodes.len() + count,
        line_nodes(m, c, count)->0.nodes.len() <= INDEX_END,
        forall|i: int|
            0 <= i < m.nodes.len() ==> #[trigger] line_nodes(m, c, count)->0.nodes[i]
                == m.nodes[i],
    decreases count,
{
    if count > 0 {
        lemma_line_nodes(m, c, (count - 1) as nat, if j == count {
            (count - 1) as nat
        } else {
            j
        });
        let m1 = line_nodes(m, c, (count - 1) as nat)->0;
        assert forall|i: int| 0 <= i < m.nodes.len() implies #[trigger] line_nodes(
            m,
            c,
            count,
        )->0.nodes[i] == m.nodes[i] by {
            assert(line_nodes(m, c, count)->0.nodes[i] == m1.nodes[i]);
        }
    }
}

/// Once the node phase cannot go on, later versions change nothing.
pub proof fn lemma_nodes_phase_sticks(
    commits: Seq<Seq<char>>,
    sizes: Seq<Option<nat>>,
    j: int,
    k: int,
)
    requires
        0 <= j <= k,
        nodes_phase(commits, sizes, j) is None,
    ensures
        nodes_phase(commits, sizes, k) is None,
    decreases k - j,
{
    if j < k {
        lemma_nodes_phase_sticks(commits, sizes, j, k - 1);
    }
}

/// Once the pair loop stops or cannot go on, later pairs change nothing.
pub proof fn lemma_pairs_run_sticks(
    m: GraphModel,
    commits: Seq<Seq<char>>,
    hunks: Seq<Result<Seq<Hunk>, Seq<char>>>,
    log: SizeLog,
    j: int,
    k: int,
)
    requires
        0 <= j <= k,
        !(pairs_run(m, commits, hunks, log, j) is Next),
    ensures
        pairs_run(m, commits, hunks, log, k) == pairs_run(m, commits, hunks, log, j),
    decreases k - j,
{
    if j < k {
        lemma_pairs_run_sticks(m, commits, hunks, log, j, k - 1);
    }
}

/// The hunks of every pair as plain values.
pub open spec fn all_hunks_view(v: Seq<Result<Vec<Hunk>, String>>) -> Seq<
    Result<Seq<Hunk>, Seq<char>>,
> {
    v.map_values(|r: Result<Vec<Hunk>, String>| hunks_view(r))
}

/// What an executed step gives: go on with a value, stop with the build's
/// error message, or abort where the build cannot go on.
pub enum Flow<T> {
    Go(T),
    Halt(String),
    Abort,
}

/// Line `line` of commit `hash` is a line of a version in `cs` whose size
/// `sizes` records.
pub open spec fn line_in_version(
    cs: Seq<Seq<char>>,
    sizes: Seq<Option<nat>>,
    hash: Seq<char>,
    line: int,
) -> bool {
    exists|i: int|
        0 <= i < cs.len() && #[trigger] cs[i] == hash && sizes[i] is Some && 1 <= line
            <= sizes[i]->0
}

/// `hash` is one of `cs` other than the first.
pub open spec fn later_commit(cs: Seq<Seq<char>>, hash: Seq<char>) -> bool {
    exists|j: int| 1 <= j < cs.len() && #[trigger] cs[j] == hash
}

/// A node for a line of a version whose size was read, with no label or
/// the label `"CHANGE"`, and a `"CHANGE"` node only for a commit after the
/// first.
pub open spec fn node_ok(n: VertexModel, cs: Seq<Seq<char>>, sizes: Seq<Option<nat>>) -> bool {
    &&& line_in_version(cs, sizes, n.0, n.1 as int)
    &&& (n.2 == Seq::<char>::empty() || n.2 == change_label())
    &&& (n.2 == change_label() ==> later_commit(cs, n.0))
}

/// Every node is as `node_ok` says.
pub open spec fn nodes_ok(nodes: Seq<VertexModel>, cs: Seq<Seq<char>>, sizes: Seq<Option<nat>>) -> bool {
    forall|i: int| 0 <= i < nodes.len() ==> node_ok(#[trigger] nodes[i], cs, sizes)
}

/// The graph is within petgraph's index space and its neighbour lists name nodes.
pub open spec fn graph_ok(g: AnnotationGraph) -> bool {
    graph_nodes(g).len() <= INDEX_END && lists_ok(model(g))
}

/// Adds the edge from line `l` of `left` to line `r` of `right`; `false`
/// (and nothing changed) where either line is missing or the edges are
/// full.
fn link_lines(g: &mut AnnotationGraph, left: &String, l: i64, right: &String, r: i64) -> (ok: bool)
    requires
        graph_ok(*old(g)),
    ensures
        ok == link(model(*old(g)), left@, l as int, right@, r as int) is Some,
        ok ==> model(*final(g)) == link(model(*old(g)), left@, l as int, right@, r as int)->0,
        graph_nodes(*final(g)) == graph_nodes(*old(g)),
        graph_ok(*final(g)),
{
    let a = find_vertex(g, left, l);
    let b = find_vertex(g, right, r);
    proof {
        let n = graph_nodes(*g);
        lemma_find_in_valid(n, left@, l as int, n.len() as int);
        lemma_find_in_valid(n, right@, r as int, n.len() as int);
    }
    match (a, b) {
        (Some(a), Some(b)) => {
            if graph_edge_count(g) < INDEX_END {
                proof {
                    lemma_with_edge_ok(model(*g), a as int, b as int);
                }
                graph_add_edge(g, a, b);
                true
            } else {
                false
            }
        },
        _ => false,
    }
}

/// Pairs lines from `pl`, `pr` onwards while they stay within `bl`, `br`;
/// `None` where the pairing cannot go on.
fn run_matches_exec(
    g: &mut AnnotationGraph,
    left: &String,
    right: &String,
    pl: i64,
    pr: i64,
    bl: i64,
    br: i64,
) -> (res: Option<(i64, i64)>)
    requires
        graph_ok(*old(g)),
    ensures
        match run_matches(model(*old(g)), left@, right@, pl as int, pr as int, bl as int, br as int) {
            Some((m, a, b)) => res matches Some(p) && p.0 as int == a && p.1 as int == b && model(
                *final(g),
            ) == m,
            None => res is None,
        },
        graph_nodes(*final(g)) == graph_nodes(*old(g)),
        graph_ok(*final(g)),
{
    let ghost start = run_matches(model(*g), left@, right@, pl as int, pr as int, bl as int, br as int);
    let mut a = pl;
    let mut b = pr;
    while a <= bl && b <= br
        invariant
            run_matches(model(*g), left@, right@, a as int, b as int, bl as int, br as int) == start,
            start == run_matches(model(*old(g)), left@, right@, pl as int, pr as int, bl as int, br as int),
            graph_ok(*g),
            graph_nodes(*g) == graph_nodes(*old(g)),
        decreases bl + 1 - a,
    {
        if !link_lines(g, left, a, right, b) {
            return None;
        }
        if a == i64::MAX || b == i64::MAX {
            return None;
        }
        a = a + 1;
        b = b + 1;
    }
    Some((a, b))
}

/// Edges from line `l` of `left` to lines `rf..=rt` of `right`; `false`
/// where they cannot all be added.
fn cross_row_exec(g: &mut AnnotationGraph, left: &String, l: i64, right: &String, rf: i64, rt: i64) -> (ok: bool)
    requires
        graph_ok(*old(g)),
    ensures
        ok == cross_row(model(*old(g)), left@, l as int, right@, rf as int, rt as int) is Some,
        ok ==> cross_row(model(*old(g)), left@, l as int, right@, rf as int, rt as int) == Some(
            model(*final(g)),
        ),
        graph_nodes(*final(g)) == graph_nodes(*old(g)),
        graph_ok(*final(g)),
{
    if rf > rt {
        return true;
    }
    let ghost start = cross_row(model(*g), left@, l as int, right@, rf as int, rt as int);
    let mut r = rf;
    loop
        invariant_except_break
            rf <= r <= rt,
            cross_row(model(*g), left@, l as int, right@, r as int, rt as int) == start,
        invariant
            start == cross_row(model(*old(g)), left@, l as int, right@, rf as int, rt as int),
            graph_ok(*g),
            graph_nodes(*g) == graph_nodes(*old(g)),
        ensures
            start == Some(model(*g)),
        decreases rt - r,
    {
        if !link_lines(g, left, l, right, r) {
            return false;
        }
        if r == rt {
            assert(cross_row(model(*g), left@, l as int, right@, r + 1, rt as int) == Some(model(*g)));
            break ;
        }
        r = r + 1;
    }
    true
}

/// Edges from every line `l..=lt` of `left` to every line `rf..=rt` of
/// `right`; `false` where they cannot all be added.
fn cross_links_exec(
    g: &mut AnnotationGraph,
    left: &String,
    l: i64,
    lt: i64,
    right: &String,
    rf: i64,
    rt: i64,
) -> (ok: bool)
    requires
        graph_ok(*old(g)),
    ensures
        ok == cross_links(model(*old(g)), left@, l as int, lt as int, right@, rf as int, rt as int) is Some,
        ok ==> cross_links(model(*old(g)), left@, l as int, lt as int, right@, rf as int, rt as int)
            == Some(model(*final(g))),
        graph_nodes(*final(g)) == graph_nodes(*old(g)),
        graph_ok(*final(g)),
{
    if l > lt {
        return true;
    }
    let ghost start = cross_links(model(*g), left@, l as int, lt as int, right@, rf as int, rt as int);
    let mut i = l;
    loop
        invariant_except_break
            l <= i <= lt,
            cross_links(model(*g), left@, i as int, lt as int, right@, rf as int, rt as int)
                == start,
        invariant
            start == cross_links(model(*old(g)), left@, l as int, lt as int, right@, rf as int, rt as int),
            graph_ok(*g),
            graph_nodes(*g) == graph_nodes(*old(g)),
        ensures
            start == Some(model(*g)),
        decreases lt - i,
    {
        if !cross_row_exec(g, left, i, right, rf, rt) {
            return false;
        }
        if i == lt {
            assert(cross_links(model(*g), left@, i + 1, lt as int, right@, rf as int, rt as int)
                == Some(model(*g)));
            break ;
        }
        i = i + 1;
    }
    true
}

/// Turns line `r` of commit `right` into a `"CHANGE"` node.
fn replace_one_exec(
    g: &mut AnnotationGraph,
    right: &String,
    r: i64,
    Ghost(cs): Ghost<Seq<Seq<char>>>,
    Ghost(vs): Ghost<Seq<Option<nat>>>,
) -> (res: Flow<()>)
    requires
        graph_ok(*old(g)),
        nodes_ok(graph_nodes(*old(g)), cs, vs),
        later_commit(cs, right@),
    ensures
        graph_ok(*final(g)),
        nodes_ok(graph_nodes(*final(g)), cs, vs),
        match replace_one(model(*old(g)), right@, r as int) {
            Outcome::Next(m) => res is Go && model(*final(g)) == m && graph_nodes(*final(g)).len()
                == graph_nodes(*old(g)).len(),
            Outcome::Stop(msg) => res matches Flow::Halt(e) && e@ == msg && *final(g) == *old(g),
            Outcome::Panic => res is Abort,
        },
{
    let ghost m0 = model(*g);
    let b = match find_vertex(g, right, r) {
        None => {
            return Flow::Halt(String::from_str("Error in hunk: large modification"));
        },
        Some(b) => b,
    };
    proof {
        lemma_find_in_valid(m0.nodes, right@, r as int, m0.nodes.len() as int);
    }
    if graph_node_count(g) >= INDEX_END {
        return Flow::Abort;
    }
    let replacement = Vertex { hash: right.clone(), line: r, label: String::from_str("CHANGE") };
    let fresh = graph_add_node(g, replacement);
    let ghost m1 = model(*g);
    assert(m1 == with_node(m0, (right@, r as i64, change_label())));
    proof {
        lemma_with_node_ok(m0, (right@, r as i64, change_label()));
        assert(node_ok(m0.nodes[b as int], cs, vs));
        assert forall|i: int| 0 <= i < m1.nodes.len() implies node_ok(#[trigger] m1.nodes[i], cs, vs) by {
            if i < m0.nodes.len() {
                assert(m1.nodes[i] == m0.nodes[i]);
            }
        }
    }
    let sources = graph_incoming_sources(g, b);
    let ghost order = m1.ins[b as int];
    proof {
        assert forall|i: int| 0 <= i < order.len() implies 0 <= #[trigger] order[i] < m1.nodes.len() by {
            assert(0 <= m1.ins[b as int][i] < m1.nodes.len());
        }
        assert(sources@.len() == order.len());
        assert forall|i: int| 0 <= i < sources@.len() implies sources@[i] as int == order[i] by {
            assert(sources@.map_values(|x: usize| x as int)[i] == order[i]);
        }
        assert(order.take(0) =~= Seq::<int>::empty());
    }
    let mut k: usize = 0;
    while k < sources.len()
        invariant
            k <= sources@.len() == order.len(),
            forall|i: int| 0 <= i < sources@.len() ==> sources@[i] as int == order[i],
            forall|i: int| 0 <= i < order.len() ==> 0 <= #[trigger] order[i] < m1.nodes.len(),
            order == m1.ins[b as int],
            edges_from(m1, fresh as int, order.take(k as int)) == Some(model(*g)),
            graph_nodes(*g) == m1.nodes,
            fresh as int == m1.nodes.len() - 1,
            m1.nodes.len() <= INDEX_END,
            lists_ok(model(*g)),
            nodes_ok(graph_nodes(*g), cs, vs),
            b < m1.nodes.len(),
            m1 == with_node(m0, (right@, r as i64, change_label())),
            find_node(m0.nodes, right@, r as int) == Some(b as int),
            m0 == model(*old(g)),
            m0.nodes.len() < INDEX_END,
        decreases sources@.len() - k,
    {
        proof {
            assert(order.take(k + 1).drop_last() == order.take(k as int));
            assert(order.take(k + 1).last() == order[k as int]);
        }
        if graph_edge_count(g) >= INDEX_END {
            proof {
                if edges_from(m1, fresh as int, order) is Some {
                    lemma_edges_from_prefix(m1, fresh as int, order, k + 1);
                }
            }
            return Flow::Abort;
        }
        proof {
            lemma_with_edge_ok(model(*g), fresh as int, sources@[k as int] as int);
        }
        graph_add_edge(g, fresh, sources[k]);
        k = k + 1;
    }
    proof {
        assert(order.take(k as int) == order);
        lemma_removal_in_range(model(*g), b as int);
    }
    let _ = graph_remove_node(g, b);
    proof {
        let pushed = m1.nodes;
        let after = graph_nodes(*g);
        assert forall|i: int| 0 <= i < after.len() implies node_ok(#[trigger] after[i], cs, vs) by {
            if i == b && b != pushed.len() - 1 {
                assert(after[i] == pushed.last());
                assert(node_ok(pushed[pushed.len() - 1], cs, vs));
            } else {
                assert(after[i] == pushed[i]);
            }
        }
    }
    Flow::Go(())
}

/// Turns lines `rf..=rt` of commit `right` into `"CHANGE"` nodes.
fn replace_range_exec(
    g: &mut AnnotationGraph,
    right: &String,
    rf: i64,
    rt: i64,
    Ghost(cs): Ghost<Seq<Seq<char>>>,
    Ghost(vs): Ghost<Seq<Option<nat>>>,
) -> (res: Flow<()>)
    requires
        graph_ok(*old(g)),
        nodes_ok(graph_nodes(*old(g)), cs, vs),
        later_commit(cs, right@),
    ensures
        graph_ok(*final(g)),
        nodes_ok(graph_nodes(*final(g)), cs, vs),
        match replace_range(model(*old(g)), right@, rf as int, rt as int) {
            Outcome::Next(m) => res is Go && model(*final(g)) == m && graph_nodes(*final(g)).len()
                == graph_nodes(*old(g)).len(),
            Outcome::Stop(msg) => res matches Flow::Halt(e) && e@ == msg,
            Outcome::Panic => res is Abort,
        },
{
    if rf > rt {
        return Flow::Go(());
    }
    let ghost start = replace_range(model(*g), right@, rf as int, rt as int);
    let mut r = rf;
    loop
        invariant_except_break
            rf <= r <= rt,
            replace_range(model(*g), right@, r as int, rt as int) == start,
        invariant
            start == replace_range(model(*old(g)), right@, rf as int, rt as int),
            graph_ok(*g),
            nodes_ok(graph_nodes(*g), cs, vs),
            later_commit(cs, right@),
            graph_nodes(*g).len() == graph_nodes(*old(g)).len(),
        ensures
            start == Outcome::Next(model(*g)),
        decreases rt - r,
    {
        let ghost before = model(*g);
        assert(replace_range(before, right@, r as int, rt as int) == match replace_one(
            before,
            right@,
            r as int,
        ) {
            Outcome::Next(m1) => replace_range(m1, right@, r + 1, rt as int),
            other => other,
        });
        match replace_one_exec(g, right, r, Ghost(cs), Ghost(vs)) {
            Flow::Halt(e) => {
                return Flow::Halt(e);
            },
            Flow::Abort => {
                return Flow::Abort;
            },
            Flow::Go(()) => {},
        }
        if r == rt {
            assert(replace_range(model(*g), right@, r + 1, rt as int) == Outcome::Next(
                model(*g),
            ));
            break ;
        }
        r = r + 1;
    }
    Flow::Go(())
}

/// One hunk: the unchanged lines before it, then the hunk itself.
fn hunk_step_exec(
    g: &mut AnnotationGraph,
    pl: i64,
    pr: i64,
    h: &Hunk,
    left: &String,
    right: &String,
    log: &Vec<(String, usize)>,
    Ghost(cs): Ghost<Seq<Seq<char>>>,
    Ghost(vs): Ghost<Seq<Option<nat>>>,
) -> (res: Flow<(i64, i64)>)
    requires
        graph_ok(*old(g)),
        nodes_ok(graph_nodes(*old(g)), cs, vs),
        later_commit(cs, right@),
    ensures
        graph_ok(*final(g)),
        nodes_ok(graph_nodes(*final(g)), cs, vs),
        match hunk_step(model(*old(g)), pl as int, pr as int, *h, left@, right@, log_view(log@)) {
            Outcome::Next((m, a, b)) => res matches Flow::Go(p) && model(*final(g)) == m && p.0 == a
                && p.1 == b && graph_nodes(*final(g)).len() == graph_nodes(*old(g)).len(),
            Outcome::Stop(msg) => res matches Flow::Halt(e) && e@ == msg,
            Outcome::Panic => res is Abort,
        },
{
    let (pl1, pr1) = match run_matches_exec(g, left, right, pl, pr, h.left_from, h.right_from) {
        Some(p) => p,
        None => {
            return Flow::Abort;
        },
    };
    let sa = match lookup_size(log, left) {
        Some(a) => a,
        None => {
            return Flow::Abort;
        },
    };
    let sb = match lookup_size(log, right) {
        Some(b) => b,
        None => {
            return Flow::Abort;
        },
    };
    let left_span = h.left_to as i128 - h.left_from as i128;
    let right_span = h.right_to as i128 - h.right_from as i128;
    if left_span < i64::MIN as i128 || left_span > i64::MAX as i128 || right_span < i64::MIN as i128
        || right_span > i64::MAX as i128 {
        return Flow::Abort;
    }
    let large = match large_modification(h, sa as i64, sb as i64) {
        Ok(b) => b,
        Err(_) => true,
    };
    let change = h.is_change();
    let rewrites = change || h.is_deletion();
    let moves_right = change || h.is_addition();
    if change && !large {
        if !cross_links_exec(g, left, h.left_from, h.left_to, right, h.right_from, h.right_to) {
            return Flow::Abort;
        }
    }
    if !large && rewrites {
        match replace_range_exec(g, right, h.right_from, h.right_to, Ghost(cs), Ghost(vs)) {
            Flow::Halt(e) => {
                return Flow::Halt(e);
            },
            Flow::Abort => {
                return Flow::Abort;
            },
            Flow::Go(()) => {},
        }
    }
    if (rewrites && h.left_to == i64::MAX) || (moves_right && h.right_to == i64::MAX) {
        return Flow::Abort;
    }
    let next_l = if rewrites {
        h.left_to + 1
    } else {
        pl1
    };
    let next_r = if moves_right {
        h.right_to + 1
    } else {
        pr1
    };
    Flow::Go((next_l, next_r))
}

/// The unchanged lines after the last hunk; `false` where they cannot be
/// paired.
fn tail_exec(
    g: &mut AnnotationGraph,
    pl: i64,
    pr: i64,
    left: &String,
    right: &String,
    log: &Vec<(String, usize)>,
) -> (ok: bool)
    requires
        graph_ok(*old(g)),
        log_bounded(log_view(log@)),
    ensures
        ok == tail_matches(model(*old(g)), pl as int, pr as int, left@, right@, log_view(log@)) is Some,
        ok ==> model(*final(g)) == tail_matches(
            model(*old(g)),
            pl as int,
            pr as int,
            left@,
            right@,
            log_view(log@),
        )->0,
        graph_nodes(*final(g)) == graph_nodes(*old(g)),
        graph_ok(*final(g)),
{
    proof {
        lemma_size_lookup_bounded(log_view(log@), left@);
        lemma_size_lookup_bounded(log_view(log@), right@);
    }
    let sl = match lookup_size(log, left) {
        Some(s) => s,
        None => {
            return false;
        },
    };
    if pl as i128 > sl as i128 {
        return true;
    }
    let sr = match lookup_size(log, right) {
        Some(s) => s,
        None => {
            return false;
        },
    };
    match run_matches_exec(g, left, right, pl, pr, sl as i64, sr as i64) {
        Some(_) => true,
        None => false,
    }
}

/// One pair of consecutive versions.
fn pair_exec(
    g: &mut AnnotationGraph,
    left: &String,
    right: &String,
    hunks: &Result<Vec<Hunk>, String>,
    log: &Vec<(String, usize)>,
    Ghost(cs): Ghost<Seq<Seq<char>>>,
    Ghost(vs): Ghost<Seq<Option<nat>>>,
) -> (res: Flow<()>)
    requires
        graph_ok(*old(g)),
        nodes_ok(graph_nodes(*old(g)), cs, vs),
        later_commit(cs, right@),
        log_bounded(log_view(log@)),
    ensures
        graph_ok(*final(g)),
        nodes_ok(graph_nodes(*final(g)), cs, vs),
        match pair_step(model(*old(g)), left@, right@, hunks_view(*hunks), log_view(log@)) {
            Outcome::Next(m) => res is Go && model(*final(g)) == m && graph_nodes(*final(g)).len()
                == graph_nodes(*old(g)).len(),
            Outcome::Stop(msg) => res matches Flow::Halt(e) && e@ == msg,
            Outcome::Panic => res is Abort,
        },
{
    match hunks {
        Err(_) => Flow::Go(()),
        Ok(hs) => {
            let ghost m0 = model(*g);
            let ghost lg = log_view(log@);
            let mut pl: i64 = 1;
            let mut pr: i64 = 1;
            let mut k: usize = 0;
            while k < hs.len()
                invariant
                    k <= hs@.len(),
                    m0 == model(*old(g)),
                    lg == log_view(log@),
                    hunks_view(*hunks) == Ok::<Seq<Hunk>, Seq<char>>(hs@),
                    hunks_run(m0, hs@, k as int, left@, right@, lg) == Outcome::Next(
                        (model(*g), pl as int, pr as int),
                    ),
                    graph_ok(*g),
                    nodes_ok(graph_nodes(*g), cs, vs),
                    later_commit(cs, right@),
                    graph_nodes(*g).len() == graph_nodes(*old(g)).len(),
                decreases hs@.len() - k,
            {
                proof {
                    if !(hunks_run(m0, hs@, k + 1, left@, right@, lg) is Next) {
                        lemma_hunks_run_sticks(
                            m0,
                            hs@,
                            k + 1,
                            hs@.len() as int,
                            left@,
                            right@,
                            lg,
                        );
                    }
                }
                match hunk_step_exec(g, pl, pr, &hs[k], left, right, log, Ghost(cs), Ghost(vs)) {
                    Flow::Halt(e) => {
                        return Flow::Halt(e);
                    },
                    Flow::Abort => {
                        return Flow::Abort;
                    },
                    Flow::Go((a, b)) => {
                        pl = a;
                        pr = b;
                    },
                }
                k = k + 1;
            }
            if tail_exec(g, pl, pr, left, right, log) {
                Flow::Go(())
            } else {
                Flow::Abort
            }
        },
    }
}

/// Once a run of line nodes cannot go on, longer runs cannot either.
pub proof fn lemma_line_nodes_sticks(m: GraphModel, c: Seq<char>, j: nat, k: nat)
    requires
        j <= k,
        line_nodes(m, c, j) is None,
    ensures
        line_nodes(m, c, k) is None,
    decreases k - j,
{
    if j < k {
        lemma_line_nodes_sticks(m, c, j, (k - 1) as nat);
    }
}

/// Adds the nodes for lines `1..=count` of commit `c`, the version at
/// position `at`; `false` where the index space runs out.
fn add_line_nodes(
    g: &mut AnnotationGraph,
    c: &String,
    count: usize,
    Ghost(cs): Ghost<Seq<Seq<char>>>,
    Ghost(vs): Ghost<Seq<Option<nat>>>,
    Ghost(at): Ghost<int>,
) -> (ok: bool)
    requires
        graph_ok(*old(g)),
        nodes_ok(graph_nodes(*old(g)), cs, vs),
        0 <= at < cs.len() == vs.len(),
        cs[at] == c@,
        vs[at] == Some(count as nat),
    ensures
        ok == line_nodes(model(*old(g)), c@, count as nat) is Some,
        ok ==> line_nodes(model(*old(g)), c@, count as nat) == Some(model(*final(g))),
        graph_ok(*final(g)),
        nodes_ok(graph_nodes(*final(g)), cs, vs),
{
    let ghost m0 = model(*g);
    let mut j: usize = 0;
    while j < count
        invariant
            j <= count,
            m0 == model(*old(g)),
            m0.nodes.len() <= INDEX_END,
            line_nodes(m0, c@, j as nat) == Some(model(*g)),
            graph_ok(*g),
            nodes_ok(graph_nodes(*g), cs, vs),
            0 <= at < cs.len() == vs.len(),
            cs[at] == c@,
            vs[at] == Some(count as nat),
        decreases count - j,
    {
        if graph_node_count(g) >= INDEX_END {
            proof {
                lemma_line_nodes_sticks(m0, c@, (j + 1) as nat, count as nat);
            }
            return false;
        }
        let v = Vertex::from_hash_and_line(c.clone(), (j + 1) as i64);
        let ghost before = graph_nodes(*g);
        let ghost vv = v@;
        proof {
            lemma_line_nodes(m0, c@, j as nat, j as nat);
            reveal_strlit("CHANGE");
            assert(vv == (c@, (j + 1) as i64, Seq::<char>::empty()));
            assert(change_label().len() == 6);
            assert(vv.2 != change_label());
            assert(cs[at] == vv.0);
            assert(vs[at]->0 == count as nat);
            assert(1 <= vv.1 as int <= vs[at]->0);
            assert(line_in_version(cs, vs, vv.0, vv.1 as int));
            assert(node_ok(vv, cs, vs));
        }
        let _ = graph_add_node(g, v);
        proof {
            let after = graph_nodes(*g);
            assert(after == before.push(vv));
            assert forall|i: int| 0 <= i < after.len() implies node_ok(#[trigger] after[i], cs, vs) by {
                if i < before.len() {
                    assert(after[i] == before[i]);
                } else {
                    assert(after[i] == vv);
                }
            }
        }
        j = j + 1;
    }
    true
}

/// What the built graph holds beyond its model: it fits petgraph's index
/// space and its neighbour lists name nodes; every node is a line, numbered from 1
/// up to that version's size, of a version whose size was read, with no
/// label or `"CHANGE"`; no `"CHANGE"` node belongs to the oldest commit
/// when the commits are distinct; and there is one node per line read.
pub open spec fn built_graph_facts(
    g: AnnotationGraph,
    commits: Seq<Seq<char>>,
    sizes: Seq<Option<nat>>,
) -> bool {
    &&& graph_ok(g)
    &&& nodes_ok(graph_nodes(g), commits, sizes)
    &&& graph_nodes(g).len() == total_size(sizes, commits.len() as int)
    &&& commits.no_duplicates() ==> forall|i: int|
        0 <= i < graph_nodes(g).len() && (#[trigger] graph_nodes(g)[i]).2 == change_label()
            ==> graph_nodes(g)[i].0 != commits[0]
}

/// A `"CHANGE"` node of a later commit is not one of the oldest commit,
/// when the commits are distinct.
pub proof fn lemma_change_nodes_not_oldest(
    nodes: Seq<VertexModel>,
    commits: Seq<Seq<char>>,
    sizes: Seq<Option<nat>>,
)
    requires
        nodes_ok(nodes, commits, sizes),
        commits.no_duplicates(),
    ensures
        forall|i: int|
            0 <= i < nodes.len() && (#[trigger] nodes[i]).2 == change_label() ==> nodes[i].0
                != commits[0],
{
    assert forall|i: int| 0 <= i < nodes.len() && (#[trigger] nodes[i]).2 == change_label()
        implies nodes[i].0 != commits[0] by {
        assert(node_ok(nodes[i], commits, sizes));
        let j = choose|j: int| 1 <= j < commits.len() && #[trigger] commits[j] == nodes[i].0;
        assert(commits[j] != commits[0]);
    }
}

/// The pairs before `k` decide the outcome of the first `k` pairs: two
/// lists of diffs that agree on their first `k` entries run alike.
pub proof fn lemma_pairs_run_prefix(
    m: GraphModel,
    commits: Seq<Seq<char>>,
    hs1: Seq<Result<Seq<Hunk>, Seq<char>>>,
    hs2: Seq<Result<Seq<Hunk>, Seq<char>>>,
    log: SizeLog,
    k: int,
)
    requires
        0 <= k <= hs1.len(),
        k <= hs2.len(),
        hs1.take(k) == hs2.take(k),
    ensures
        pairs_run(m, commits, hs1, log, k) == pairs_run(m, commits, hs2, log, k),
    decreases k,
{
    if k > 0 {
        assert(hs1.take(k - 1) == hs1.take(k).take(k - 1));
        assert(hs2.take(k - 1) == hs2.take(k).take(k - 1));
        assert(hs1[k - 1] == hs1.take(k)[k - 1]);
        assert(hs2[k - 1] == hs2.take(k)[k - 1]);
        lemma_pairs_run_prefix(m, commits, hs1, hs2, log, k - 1);
    }
}

/// A copy of each string of `v`.
fn copy_strings(v: &Vec<String>) -> (r: Vec<String>)
    ensures
        views(r@) == views(v@),
{
    let mut r: Vec<String> = Vec::new();
    let mut i: usize = 0;
    while i < v.len()
        invariant
            i <= v@.len(),
            views(r@) == views(v@.take(i as int)),
        decreases v@.len() - i,
    {
        let ghost before = r@;
        r.push(v[i].clone());
        proof {
            assert(v@.take(i + 1) == v@.take(i as int).push(v@[i as int]));
            assert(views(r@) =~= views(before).push(v@[i as int]@));
            assert(views(v@.take(i + 1)) =~= views(v@.take(i as int)).push(v@[i as int]@));
        }
        i = i + 1;
    }
    proof {
        assert(v@.take(v@.len() as int) == v@);
    }
    r
}

/// A build of the annotation graph under way: the nodes of every version
/// are in, and the pairs of consecutive versions are added one at a time,
/// each with the diff between its two versions, so that a diff is made only
/// once the build reaches its pair.
pub struct AnnotationBuild {
    graph: AnnotationGraph,
    log: Vec<(String, usize)>,
    commits: Vec<String>,
    added: usize,
    sizes: Ghost<Seq<Option<nat>>>,
    base: Ghost<GraphModel>,
    seen: Ghost<Seq<Result<Seq<Hunk>, Seq<char>>>>,
}

impl AnnotationBuild {
    /// The graph built so far.
    pub closed spec fn graph(&self) -> AnnotationGraph {
        self.graph
    }

    /// The commits whose versions are in the graph, oldest first.
    pub closed spec fn history(&self) -> Seq<Seq<char>> {
        views(self.commits@)
    }

    /// The size of each version, `None` where it could not be read.
    pub closed spec fn versions(&self) -> Seq<Option<nat>> {
        self.sizes@
    }

    /// The graph once the nodes of every version were added.
    pub closed spec fn base(&self) -> GraphModel {
        self.base@
    }

    /// The sizes recorded while the nodes were added.
    pub closed spec fn size_log(&self) -> SizeLog {
        log_view(self.log@)
    }

    /// The diffs of the pairs added so far, in order.
    pub closed spec fn diffs_seen(&self) -> Seq<Result<Seq<Hunk>, Seq<char>>> {
        self.seen@
    }

    /// The graph fits petgraph's index space, its lists name nodes, each
    /// node is a line of a version that was read, and there is one node
    /// per line read.
    pub closed spec fn wf(&self) -> bool {
        &&& graph_ok(self.graph)
        &&& nodes_ok(graph_nodes(self.graph), self.history(), self.sizes@)
        &&& graph_nodes(self.graph).len() == total_size(self.sizes@, self.history().len() as int)
        &&& log_bounded(log_view(self.log@))
        &&& self.sizes@.len() == self.history().len()
        &&& self.added == self.seen@.len()
    }

    /// The pairs added so far went through and gave the graph held.
    pub open spec fn on_track(&self) -> bool {
        pairs_run(
            self.base(),
            self.history(),
            self.diffs_seen(),
            self.size_log(),
            self.diffs_seen().len() as int,
        ) == Outcome::Next(model(self.graph()))
    }

    /// Starts the build for the fixing commit `hash` (see
    /// `try_build_annotation_graph`): adds the nodes of every version whose
    /// size is known. `None` where petgraph's index space runs out.
    pub fn start(
        hash: &String,
        file_modified: &ModifiedFile,
        commits: &Vec<String>,
        sizes: &Vec<Option<usize>>,
    ) -> (r: Option<AnnotationBuild>)
        requires
            sizes@.len() == commits@.len(),
        ensures
            match nodes_phase(
                views(commits@),
                version_sizes(hash@, file_modified.content@.len(), views(commits@), sizes@),
                commits@.len() as int,
            ) {
                None => r is None,
                Some((m, log)) => r matches Some(b) && b.wf() && b.on_track() && b.history()
                    == views(commits@) && b.versions() == version_sizes(
                    hash@,
                    file_modified.content@.len(),
                    views(commits@),
                    sizes@,
                ) && b.base() == m && b.size_log() == log && b.diffs_seen() == Seq::<
                    Result<Seq<Hunk>, Seq<char>>,
                >::empty() && model(b.graph()) == m,
            },
    {
        let ghost cv = views(commits@);
        let ghost vs = version_sizes(hash@, file_modified.content@.len(), cv, sizes@);
        let n = commits.len();
        let mut g = graph_new();
        let mut log: Vec<(String, usize)> = Vec::new();
        proof {
            assert(log_view(log@) =~= Seq::<(Seq<char>, nat)>::empty());
        }
        let mut i: usize = 0;
        while i < n
            invariant
                i <= n == commits@.len() == sizes@.len(),
                cv == views(commits@),
                cv.len() == vs.len(),
                vs == version_sizes(hash@, file_modified.content@.len(), cv, sizes@),
                nodes_phase(cv, vs, i as int) == Some((model(g), log_view(log@))),
                graph_ok(g),
                nodes_ok(graph_nodes(g), cv, vs),
                graph_nodes(g).len() == total_size(vs, i as int),
                log_bounded(log_view(log@)),
            decreases n - i,
        {
            proof {
                assert(cv[i as int] == commits@[i as int]@);
            }
            let size = if commits[i] == *hash {
                Some(file_modified.content.len())
            } else {
                sizes[i]
            };
            match size {
                None => {},
                Some(s) => {
                    let ghost mb = model(g);
                    if !add_line_nodes(&mut g, &commits[i], s, Ghost(cv), Ghost(vs), Ghost(i as int)) {
                        proof {
                            lemma_nodes_phase_sticks(cv, vs, i + 1, n as int);
                        }
                        return None;
                    }
                    proof {
                        lemma_line_nodes(mb, cv[i as int], s as nat, 0);
                    }
                    let ghost prev = log@;
                    log.push((commits[i].clone(), s));
                    proof {
                        assert(log_view(log@) =~= log_view(prev).push((cv[i as int], s as nat)));
                    }
                },
            }
            i = i + 1;
        }
        let ghost m0 = model(g);
        let b = AnnotationBuild {
            graph: g,
            log,
            commits: copy_strings(commits),
            added: 0,
            sizes: Ghost(vs),
            base: Ghost(m0),
            seen: Ghost(Seq::empty()),
        };
        Some(b)
    }

    /// Adds the next pair of consecutive versions with `hunks`, the diff
    /// between them or the error met making it. `Halt` with the build's
    /// error message where a hunk names a line the graph does not hold;
    /// `Abort` where the build cannot go on.
    pub fn add_pair(&mut self, hunks: &Result<Vec<Hunk>, String>) -> (res: Flow<()>)
        requires
            old(self).wf(),
            old(self).on_track(),
            old(self).diffs_seen().len() + 1 < old(self).history().len(),
        ensures
            res is Go ==> final(self).wf(),
            final(self).history() == old(self).history(),
            final(self).versions() == old(self).versions(),
            final(self).base() == old(self).base(),
            final(self).size_log() == old(self).size_log(),
            final(self).diffs_seen() == old(self).diffs_seen().push(hunks_view(*hunks)),
            match pairs_run(
                final(self).base(),
                final(self).history(),
                final(self).diffs_seen(),
                final(self).size_log(),
                final(self).diffs_seen().len() as int,
            ) {
                Outcome::Next(m) => res is Go && model(final(self).graph()) == m,
                Outcome::Stop(msg) => res matches Flow::Halt(e) && e@ == msg,
                Outcome::Panic => res is Abort,
            },
    {
        let k = self.added;
        let ghost cv = views(self.commits@);
        let ghost vs = self.sizes@;
        let ghost old_seen = self.seen@;
        let ghost new_seen = old_seen.push(hunks_view(*hunks));
        proof {
            assert(cv.len() == self.commits@.len());
            assert(new_seen.take(k as int) == old_seen.take(k as int));
            assert(old_seen.take(k as int) == old_seen);
            lemma_pairs_run_prefix(self.base@, cv, new_seen, old_seen, log_view(self.log@), k as int);
            assert(new_seen[k as int] == hunks_view(*hunks));
            assert(cv[k as int] == self.commits@[k as int]@);
            assert(cv[k + 1] == self.commits@[k + 1]@);
            assert(later_commit(cv, cv[k + 1]));
        }
        let count = self.commits.len();
        assert(k + 1 < count);
        let next = k + 1;
        let res = pair_exec(
            &mut self.graph,
            &self.commits[k],
            &self.commits[next],
            hunks,
            &self.log,
            Ghost(cv),
            Ghost(vs),
        );
        self.seen = Ghost(new_seen);
        self.added = next;
        res
    }

    /// Ends the build and gives the graph built.
    pub fn finish(self) -> (g: AnnotationGraph)
        requires
            self.wf(),
        ensures
            g == self.graph(),
            built_graph_facts(g, self.history(), self.versions()),
    {
        proof {
            if self.history().no_duplicates() {
                lemma_change_nodes_not_oldest(graph_nodes(self.graph), self.history(), self.sizes@);
            }
        }
        self.graph
    }
}

/// Builds the annotation graph of a file modified by the fixing commit
/// `hash`, or gives `None` where the build cannot go on (a line that
/// should be in the graph is missing, or petgraph's index space runs out).
///
/// `commits` are the commits that touched the file, oldest first, ending
/// with the fixing commit. `sizes[i]` is the number of lines of the file at
/// `commits[i]`, or `None` when that version could not be read (the fixing
/// commit's own version is `file_modified.content`). `hunks[i]` is the diff
/// between `commits[i]` and `commits[i + 1]`, or the error met making it.
///
/// There is a node for every line of every version that could be read; an
/// edge joins each unchanged line to the same line in the next version, a
/// changed line to every line that replaced it, and a line rewritten or
/// bordering a deletion becomes a `"CHANGE"` node pointing back to the
/// lines it came from. Pairs whose diff failed are passed over. When a
/// hunk names a line the graph does not hold, the build stops with
/// "Error in hunk: large modification".
pub fn try_build_annotation_graph(
    hash: &String,
    file_modified: &ModifiedFile,
    commits: &Vec<String>,
    sizes: &Vec<Option<usize>>,
    hunks: &Vec<Result<Vec<Hunk>, String>>,
) -> (r: Option<Result<AnnotationGraph, String>>)
    requires
        sizes@.len() == commits@.len(),
        hunks@.len() + 1 == commits@.len() || (commits@.len() == 0 && hunks@.len() == 0),
    ensures
        match build_outcome(
            hash@,
            file_modified.content@.len(),
            views(commits@),
            sizes@,
            all_hunks_view(hunks@),
        ) {
            Outcome::Next(m) => r matches Some(Ok(g)) && model(g) == m,
            Outcome::Stop(msg) => r matches Some(Err(e)) && e@ == msg,
            Outcome::Panic => r is None,
        },
        r matches Some(Ok(g)) ==> built_graph_facts(
            g,
            views(commits@),
            version_sizes(hash@, file_modified.content@.len(), views(commits@), sizes@),
        ),
{
    let ghost cv = views(commits@);
    let ghost vs = version_sizes(hash@, file_modified.content@.len(), cv, sizes@);
    let ghost hv = all_hunks_view(hunks@);
    let n = commits.len();
    let mut b = match AnnotationBuild::start(hash, file_modified, commits, sizes) {
        None => {
            return None;
        },
        Some(b) => b,
    };
    let ghost m0 = b.base();
    let ghost lg = b.size_log();
    let pairs = if n == 0 {
        0
    } else {
        n - 1
    };
    let mut k: usize = 0;
    proof {
        assert(hv.take(0) =~= Seq::<Result<Seq<Hunk>, Seq<char>>>::empty());
    }
    while k < pairs
        invariant
            k <= pairs,
            pairs + 1 == n || (n == 0 && pairs == 0),
            n == commits@.len(),
            hunks@.len() == pairs,
            hv.len() == pairs,
            cv == views(commits@),
            hv == all_hunks_view(hunks@),
            b.wf(),
            b.on_track(),
            b.history() == cv,
            b.versions() == vs,
            b.base() == m0,
            b.size_log() == lg,
            b.diffs_seen() == hv.take(k as int),
            build_outcome(hash@, file_modified.content@.len(), cv, sizes@, hv) == pairs_run(
                m0,
                cv,
                hv,
                lg,
                pairs as int,
            ),
            vs == version_sizes(hash@, file_modified.content@.len(), cv, sizes@),
        decreases pairs - k,
    {
        proof {
            assert(hv[k as int] == hunks_view(hunks@[k as int]));
            assert(hv.take(k + 1) =~= hv.take(k as int).push(hv[k as int]));
            assert(hv.take(k + 1).take(k + 1) =~= hv.take(k + 1));
            lemma_pairs_run_prefix(m0, cv, hv.take(k + 1), hv, lg, k + 1);
            if !(pairs_run(m0, cv, hv, lg, k + 1) is Next) {
                lemma_pairs_run_sticks(m0, cv, hv, lg, k + 1, pairs as int);
            }
        }
        match b.add_pair(&hunks[k]) {
            Flow::Halt(e) => {
                return Some(Err(e));
            },
            Flow::Abort => {
                return None;
            },
            Flow::Go(()) => {},
        }
        k = k + 1;
    }
    proof {
        assert(hv.take(pairs as int) =~= hv);
    }
    Some(Ok(b.finish()))
}

/// Builds the annotation graph (see `try_build_annotation_graph`) where
/// the build can go on.
pub fn build_annotation_graph(
    hash: &String,
    file_modified: &ModifiedFile,
    commits: &Vec<String>,
    sizes: &Vec<Option<usize>>,
    hunks: &Vec<Result<Vec<Hunk>, String>>,
) -> (r: Result<AnnotationGraph, String>)
    requires
        sizes@.len() == commits@.len(),
        hunks@.len() + 1 == commits@.len() || (commits@.len() == 0 && hunks@.len() == 0),
        !(build_outcome(
            hash@,
            file_modified.content@.len(),
            views(commits@),
            sizes@,
            all_hunks_view(hunks@),
        ) is Panic),
    ensures
        match build_outcome(
            hash@,
            file_modified.content@.len(),
            views(commits@),
            sizes@,
            all_hunks_view(hunks@),
        ) {
            Outcome::Next(m) => r matches Ok(g) && model(g) == m,
            Outcome::Stop(msg) => r matches Err(e) && e@ == msg,
            Outcome::Panic => false,
        },
        r matches Ok(g) ==> built_graph_facts(
            g,
            views(commits@),
            version_sizes(hash@, file_modified.content@.len(), views(commits@), sizes@),
        ),
{
    match try_build_annotation_graph(hash, file_modified, commits, sizes, hunks) {
        Some(r) => r,
        None => Err(String::new()),
    }
}

/// A copy of `v` with the same hash, line and label.
fn copy_vertex(v: &Vertex) -> (r: Vertex)
    ensures
        r@ == v@,
{
    Vertex { hash: v.hash.clone(), line: v.line, label: v.label.clone() }
}

/// Among the first `k` nodes of `order`, the position of the first that is
/// a `"CHANGE"` node of a commit other than `hash`.
pub open spec fn first_change_in(
    nodes: Seq<VertexModel>,
    order: Seq<int>,
    hash: Seq<char>,
    k: int,
) -> Option<int>
    decreases k,
{
    if k <= 0 {
        None
    } else {
        match first_change_in(nodes, order, hash, k - 1) {
            Some(i) => Some(i),
            None => if nodes[order[k - 1]].2 == change_label() && nodes[order[k - 1]].0 != hash {
                Some(k - 1)
            } else {
                None
            },
        }
    }
}

/// The first node, in breadth-first order from `v`, that is a `"CHANGE"`
/// node of a commit other than `v`'s.
pub open spec fn bfs_target(m: GraphModel, v: int) -> Option<VertexModel> {
    let order = bfs_order(m.outs, v);
    match first_change_in(m.nodes, order, m.nodes[v].0, order.len() as int) {
        Some(i) => Some(m.nodes[order[i]]),
        None => None,
    }
}

proof fn lemma_first_change_stable(
    nodes: Seq<VertexModel>,
    order: Seq<int>,
    hash: Seq<char>,
    j: int,
    k: int,
)
    requires
        j <= k,
        first_change_in(nodes, order, hash, j) is Some,
    ensures
        first_change_in(nodes, order, hash, k) == first_change_in(nodes, order, hash, j),
    decreases k - j,
{
    if j < k {
        lemma_first_change_stable(nodes, order, hash, j, k - 1);
    }
}

/// The node positions of `order` as plain values.
pub open spec fn order_view(order: Seq<usize>) -> Seq<int> {
    order.map_values(|x: usize| x as int)
}

/// Scans `order` for the first `"CHANGE"` node of a commit other than
/// `start_hash`; gives "Not found" when there is none.
pub fn first_change_from(g: &AnnotationGraph, order: &Vec<usize>, start_hash: &String) -> (r:
    Result<Vertex, String>)
    requires
        graph_nodes(*g).len() <= INDEX_END,
        forall|i: int| 0 <= i < order@.len() ==> #[trigger] order@[i] < graph_nodes(*g).len(),
    ensures
        match first_change_in(graph_nodes(*g), order_view(order@), start_hash@, order@.len() as int) {
            Some(i) => r matches Ok(w) && w@ == graph_nodes(*g)[order@[i] as int],
            None => r matches Err(e) && e@ == "Not found"@,
        },
{
    let ghost nodes = graph_nodes(*g);
    let ghost spec_order = order_view(order@);
    let mut k: usize = 0;
    while k < order.len()
        invariant
            k <= order@.len() == spec_order.len(),
            nodes == graph_nodes(*g),
            nodes.len() <= INDEX_END,
            spec_order == order_view(order@),
            forall|i: int| 0 <= i < order@.len() ==> #[trigger] order@[i] < nodes.len(),
            first_change_in(nodes, spec_order, start_hash@, k as int) is None,
        decreases order@.len() - k,
    {
        let node = order[k];
        assert(spec_order[k as int] == node as int);
        match graph_node_weight(g, node) {
            Some(w) => {
                if w.label == String::from_str("CHANGE") && !(w.hash == *start_hash) {
                    proof {
                        lemma_first_change_stable(
                            nodes,
                            spec_order,
                            start_hash@,
                            k + 1,
                            spec_order.len() as int,
                        );
                    }
                    return Ok(copy_vertex(w));
                }
            },
            None => {},
        }
        k = k + 1;
    }
    Err(String::from_str("Not found"))
}

/// Searches the graph breadth-first from node `v` for the first
/// `"CHANGE"` node of another commit: the line that introduced what `v`
/// changed. What it finds is a `"CHANGE"` node of another commit that a path
/// of edges leads to from `v`, and none such is fewer steps away; it gives
/// "Not found" exactly when no node a path leads to is such a node.
pub fn bfs(g: &AnnotationGraph, v: usize) -> (r: Result<Vertex, String>)
    requires
        graph_ok(*g),
        v < graph_nodes(*g).len(),
    ensures
        match bfs_target(model(*g), v as int) {
            Some(w) => r is Ok && r->Ok_0@ == w,
            None => r is Err && r->Err_0@ == "Not found"@,
        },
        r matches Ok(w) ==> w@.2 == change_label() && w@.0 != graph_nodes(*g)[v as int].0
            && exists|i: int|
            #![trigger reaches(graph_out(*g), v as int, i)]
            0 <= i < graph_nodes(*g).len() && reaches(graph_out(*g), v as int, i)
                && graph_nodes(*g)[i] == w@ && forall|x: int, k: nat|
                #![trigger within(graph_out(*g), v as int, x, k)]
                0 <= x < graph_nodes(*g).len() && graph_nodes(*g)[x].2 == change_label()
                    && graph_nodes(*g)[x].0 != graph_nodes(*g)[v as int].0 && within(
                    graph_out(*g),
                    v as int,
                    x,
                    k,
                ) ==> within(graph_out(*g), v as int, i, k),
        r is Err ==> forall|i: int|
            #![trigger reaches(graph_out(*g), v as int, i)]
            0 <= i < graph_nodes(*g).len() && reaches(graph_out(*g), v as int, i) ==> !(
            graph_nodes(*g)[i].2 == change_label() && graph_nodes(*g)[i].0 != graph_nodes(
                *g,
            )[v as int].0),
{
    let start = match graph_node_weight(g, v) {
        Some(w) => copy_vertex(w),
        None => Vertex::new(),
    };
    let order = graph_bfs_order(g, v);
    let ghost nodes = graph_nodes(*g);
    let ghost spec_order = bfs_order(graph_out(*g), v as int);
    proof {
        assert(order_view(order@) =~= spec_order);
        lemma_bfs_in_range(graph_out(*g), v as int);
        lemma_bfs_reaches(graph_out(*g), v as int);
        assert forall|i: int| 0 <= i < order@.len() implies #[trigger] order@[i] < nodes.len() by {
            assert(spec_order[i] == order@[i] as int);
        }
    }
    let r = first_change_from(g, &order, &start.hash);
    proof {
        lemma_first_change_valid(nodes, spec_order, start.hash@, spec_order.len() as int);
        if let Some(f) = first_change_in(nodes, spec_order, start.hash@, spec_order.len() as int) {
            let out = graph_out(*g);
            assert(order@[f] < nodes.len());
            assert(spec_order[f] == order@[f] as int);
            assert(reaches(out, v as int, spec_order[f]));
            lemma_first_change_first(nodes, spec_order, start.hash@, spec_order.len() as int);
            lemma_bfs_nearest_first(out, v as int);
            assert forall|x: int, k: nat|
                #![trigger within(out, v as int, x, k)]
                0 <= x < nodes.len() && nodes[x].2 == change_label() && nodes[x].0 != nodes[v as int].0
                    && within(out, v as int, x, k) implies within(out, v as int, spec_order[f], k) by {
                lemma_within_reaches(out, v as int, x, k);
                lemma_bfs_complete(out, v as int, x);
                let jx = choose|jx: int| 0 <= jx < spec_order.len() && spec_order[jx] == x;
                assert(nodes[spec_order[jx]] == nodes[x]);
                if jx < f {
                    assert(false);
                } else if jx > f {
                    assert(within(out, v as int, spec_order[jx], k));
                }
            }
        } else {
            lemma_first_change_none(nodes, spec_order, start.hash@, spec_order.len() as int);
            assert forall|i: int|
                #![trigger reaches(graph_out(*g), v as int, i)]
                0 <= i < nodes.len() && reaches(graph_out(*g), v as int, i) implies !(
                nodes[i].2 == change_label() && nodes[i].0 != nodes[v as int].0) by {
                lemma_bfs_complete(graph_out(*g), v as int, i);
                let k = choose|k: int| 0 <= k < spec_order.len() && spec_order[k] == i;
                assert(nodes[spec_order[k]] == nodes[i]);
            }
        }
    }
    r
}

/// A scan that finds nothing passed only nodes that are not `"CHANGE"`
/// nodes of another commit.
proof fn lemma_first_change_none(nodes: Seq<VertexModel>, order: Seq<int>, hash: Seq<char>, k: int)
    requires
        first_change_in(nodes, order, hash, k) is None,
    ensures
        forall|i: int|
            0 <= i < k ==> !(nodes[#[trigger] order[i]].2 == change_label() && nodes[order[i]].0
                != hash),
    decreases k,
{
    if k > 0 {
        lemma_first_change_none(nodes, order, hash, k - 1);
    }
}

/// The nodes a scan passes before the one it finds are not `"CHANGE"`
/// nodes of another commit.
proof fn lemma_first_change_first(nodes: Seq<VertexModel>, order: Seq<int>, hash: Seq<char>, k: int)
    ensures
        first_change_in(nodes, order, hash, k) matches Some(f) ==> forall|i: int|
            0 <= i < f ==> !(nodes[#[trigger] order[i]].2 == change_label() && nodes[order[i]].0
                != hash),
    decreases k,
{
    if k > 0 {
        lemma_first_change_first(nodes, order, hash, k - 1);
        if first_change_in(nodes, order, hash, k - 1) is None {
            lemma_first_change_none(nodes, order, hash, k - 1);
        }
    }
}

/// The position a scan finds holds a `"CHANGE"` node of another commit.
proof fn lemma_first_change_valid(nodes: Seq<VertexModel>, order: Seq<int>, hash: Seq<char>, k: int)
    ensures
        first_change_in(nodes, order, hash, k) matches Some(i) ==> 0 <= i < k
            && nodes[order[i]].2 == change_label() && nodes[order[i]].0 != hash,
    decreases k,
{
    if k > 0 {
        lemma_first_change_valid(nodes, order, hash, k - 1);
    }
}

} // verus!
