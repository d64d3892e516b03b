//! The inflexion graph of one word: the segmentation paths merged into a
//! graph whose nodes are numbered in text order, with as few nodes as the
//! paths allow.
use vstd::prelude::*;
use super::analyzer::{achunks_in, copy_analyzer_chunk, BinaryAnalyzerChunk, BinaryAnalyzerPath};

verus! {

/// The target of an edge that ends the word, before the last node is known.
pub const GRAPH_END: usize = usize::MAX;

/// One edge: a run of carried-over chunks and its main chunk, kept in the
/// graph's arena, and the node it leads to.
#[derive(Debug, Clone, Copy, PartialEq, Eq, Structural)]
pub struct GraphEdge {
    pub group: usize,
    pub text_start: usize,
    pub main_start: usize,
    pub text_end: usize,
    pub segment_type: u8,
    pub group_state: usize,
    pub group_index: usize,
    pub next_node: usize,
}

/// The graph being built from the paths of a word.
#[derive(Debug)]
pub struct InflexionGraph {
    graph: Vec<Vec<GraphEdge>>,
    node2start: Vec<usize>,
    arena: Vec<Vec<BinaryAnalyzerChunk>>,
    only_weak_paths: bool,
    groups_len: usize,
}

/// The edge with the word's last node in place of `GRAPH_END`.
pub open spec fn last_node_fixed(e: GraphEdge, size: usize) -> GraphEdge {
    if e.next_node == GRAPH_END { GraphEdge { next_node: size, ..e } } else { e }
}

/// What a chunk holds, its text taken by its view.
pub open spec fn chunk_key(c: BinaryAnalyzerChunk) -> (Seq<char>, usize, usize, bool, u8, usize, usize, bool, usize) {
    (c.orth@, c.original_start, c.original_end, c.shift_orth, c.segment_type, c.group_state, c.group_index,
        c.case_matches, c.interpretations)
}

/// What each chunk of a run holds.
pub open spec fn chunk_keys(s: Seq<BinaryAnalyzerChunk>) -> Seq<(Seq<char>, usize, usize, bool, u8, usize, usize, bool, usize)> {
    s.map_values(|c: BinaryAnalyzerChunk| chunk_key(c))
}

/// The last chunk of the run that starts at `i`: the run goes on while a
/// chunk is carried over to the next one.
pub open spec fn run_end(chunks: Seq<BinaryAnalyzerChunk>, i: int) -> int
    decreases chunks.len() - i,
{
    if 0 <= i && i + 1 < chunks.len() && chunks[i].shift_orth {
        run_end(chunks, i + 1)
    } else {
        i
    }
}

pub proof fn lemma_run_end(chunks: Seq<BinaryAnalyzerChunk>, i: int)
    requires
        0 <= i < chunks.len(),
    ensures
        i <= run_end(chunks, i) < chunks.len(),
    decreases chunks.len() - i,
{
    if i + 1 < chunks.len() && chunks[i].shift_orth {
        lemma_run_end(chunks, i + 1);
    }
}

/// The runs of a path from chunk `i`: each run of carried-over chunks with
/// the main chunk that ends it.
pub open spec fn path_runs(chunks: Seq<BinaryAnalyzerChunk>, i: int) -> Seq<Seq<BinaryAnalyzerChunk>>
    decreases chunks.len() - i,
{
    if i < 0 || i >= chunks.len() {
        Seq::empty()
    } else {
        let e = run_end(chunks, i);
        proof {
            lemma_run_end(chunks, i);
        }
        seq![chunks.subrange(i, e + 1)] + path_runs(chunks, e + 1)
    }
}

/// What the chunks of each run hold.
pub open spec fn runs_keys(r: Seq<Seq<BinaryAnalyzerChunk>>) -> Seq<Seq<(Seq<char>, usize, usize, bool, u8, usize, usize, bool, usize)>> {
    r.map_values(|g: Seq<BinaryAnalyzerChunk>| chunk_keys(g))
}

/// What the chunks of each arena entry hold.
pub open spec fn arena_keys(a: Seq<Vec<BinaryAnalyzerChunk>>) -> Seq<Seq<(Seq<char>, usize, usize, bool, u8, usize, usize, bool, usize)>> {
    a.map_values(|g: Vec<BinaryAnalyzerChunk>| chunk_keys(g@))
}

/// Every edge's chunks are in the arena and each arena entry is non-empty.
pub open spec fn edges_in_arena(graph: Seq<Vec<GraphEdge>>, arena_len: int) -> bool {
    forall|n: int, e: int| 0 <= n < graph.len() && 0 <= e < graph[n]@.len() ==> #[trigger] graph[n]@[e].group < arena_len
}

impl InflexionGraph {
    pub closed spec fn wf(&self) -> bool {
        &&& self.graph@.len() == self.node2start@.len()
        &&& edges_in_arena(self.graph@, self.arena@.len() as int)
        &&& forall|a: int| 0 <= a < self.arena@.len() ==> (#[trigger] self.arena@[a])@.len() > 0
            && achunks_in(self.arena@[a]@, self.groups_len as int)
    }

    /// The bound on the decoded-group indices of the chunks.
    pub closed spec fn spec_groups_len(&self) -> int {
        self.groups_len as int
    }

    /// The number of nodes.
    pub closed spec fn spec_node_len(&self) -> int {
        self.graph@.len() as int
    }

    /// What the chunks of each arena entry hold, in the order the entries
    /// were added.
    pub closed spec fn spec_arena(&self) -> Seq<Seq<(Seq<char>, usize, usize, bool, u8, usize, usize, bool, usize)>> {
        arena_keys(self.arena@)
    }

    /// The arena entry that an edge holds.
    pub closed spec fn spec_edge_group(&self, node: int, index: int) -> int {
        self.graph@[node]@[index].group as int
    }

    /// Some edge holds arena entry `a`.
    pub closed spec fn spec_has_edge_for(&self, a: int) -> bool {
        exists|n: int, e: int| 0 <= n < self.graph@.len() && 0 <= e < self.graph@[n]@.len()
            && #[trigger] self.graph@[n]@[e].group == a
    }

    /// The node an edge leads to.
    pub closed spec fn spec_edge_next(&self, node: int, index: int) -> int {
        self.graph@[node]@[index].next_node as int
    }

    /// Whether only weak paths were added so far.
    pub closed spec fn spec_only_weak(&self) -> bool {
        self.only_weak_paths
    }

    /// The number of edges that leave a node.
    pub closed spec fn spec_edges_at(&self, node: int) -> int {
        self.graph@[node]@.len() as int
    }

    /// An empty graph over chunks whose groups are below `groups_len`.
    pub fn new(groups_len: usize) -> (g: Self)
        ensures
            g.wf(),
            g.spec_node_len() == 0,
            g.spec_groups_len() == groups_len,
    {
        InflexionGraph { graph: Vec::new(), node2start: Vec::new(), arena: Vec::new(), only_weak_paths: true, groups_len }
    }

    pub fn is_empty(&self) -> (r: bool)
        ensures
            r == (self.spec_node_len() == 0),
    {
        self.graph.len() == 0
    }

    pub fn node_len(&self) -> (n: usize)
        ensures
            n == self.spec_node_len(),
    {
        self.graph.len()
    }

    pub fn edges_at(&self, node: usize) -> (n: usize)
        requires
            node < self.spec_node_len(),
        ensures
            n == self.spec_edges_at(node as int),
    {
        self.graph[node].len()
    }

    /// The chunks of an edge and the node it leads to.
    pub fn edge(&self, node: usize, index: usize) -> (r: (&[BinaryAnalyzerChunk], usize))
        requires
            self.wf(),
            node < self.spec_node_len(),
            index < self.spec_edges_at(node as int),
        ensures
            r.0@.len() > 0,
            achunks_in(r.0@, self.spec_groups_len()),
            0 <= self.spec_edge_group(node as int, index as int) < self.spec_arena().len(),
            chunk_keys(r.0@) == self.spec_arena()[self.spec_edge_group(node as int, index as int)],
            r.1 == self.spec_edge_next(node as int, index as int),
    {
        let edge = self.graph[node][index];
        (self.arena[edge.group].as_slice(), edge.next_node)
    }

    fn add_start_edge(&mut self, edge: GraphEdge)
        requires
            old(self).wf(),
            edge.group < old(self).arena@.len(),
        ensures
            final(self).groups_len == old(self).groups_len,
            final(self).wf(),
            final(self).arena@ == old(self).arena@,
            final(self).graph@.len() >= old(self).graph@.len(),
            final(self).graph@.len() >= 1,
            final(self).graph@.len() <= old(self).graph@.len() + 1,
            final(self).only_weak_paths == old(self).only_weak_paths,
            final(self).graph@[0]@ == (if old(self).graph@.len() == 0 { Seq::<GraphEdge>::empty() }
                else { old(self).graph@[0]@ }).push(edge),
            forall|n: int| 0 < n < old(self).graph@.len() ==> #[trigger] final(self).graph@[n] == old(self).graph@[n],
    {
        if self.graph.len() == 0 {
            self.graph.push(Vec::new());
            self.node2start.push(edge.text_start);
        }
        let mut first = self.graph.remove(0);
        first.push(edge);
        self.graph.insert(0, first);
        proof {
            assert forall|n: int, e: int| 0 <= n < self.graph@.len() && 0 <= e < self.graph@[n]@.len()
                implies #[trigger] self.graph@[n]@[e].group < self.arena@.len() by {
                if n > 0 {
                    assert(self.graph@[n] == old(self).graph@[n]);
                }
            }
        }
    }

    fn add_middle_edge(&mut self, start_node: usize, edge: GraphEdge)
        requires
            old(self).wf(),
            start_node <= old(self).graph@.len(),
            edge.group < old(self).arena@.len(),
        ensures
            final(self).groups_len == old(self).groups_len,
            final(self).wf(),
            final(self).arena@ == old(self).arena@,
            final(self).graph@.len() >= old(self).graph@.len(),
            final(self).graph@.len() <= old(self).graph@.len() + 1,
            final(self).graph@.len() == if start_node == old(self).graph@.len() { start_node + 1 } else { old(self).graph@.len() as int },
            final(self).graph@[start_node as int]@ == (if start_node == old(self).graph@.len() { Seq::<GraphEdge>::empty() }
                else { old(self).graph@[start_node as int]@ }).push(edge),
            forall|n: int| 0 <= n < old(self).graph@.len() && n != start_node ==> #[trigger] final(self).graph@[n] == old(self).graph@[n],
            final(self).only_weak_paths == old(self).only_weak_paths,
    {
        if start_node == self.graph.len() {
            self.graph.push(Vec::new());
            self.node2start.push(edge.text_start);
        }
        let ghost before = self.graph@;
        let mut edges = self.graph.remove(start_node);
        edges.push(edge);
        self.graph.insert(start_node, edges);
        proof {
            assert forall|n: int, e: int| 0 <= n < self.graph@.len() && 0 <= e < self.graph@[n]@.len()
                implies #[trigger] self.graph@[n]@[e].group < self.arena@.len() by {
                if n != start_node {
                    assert(self.graph@[n] == before[n]);
                }
            }
        }
    }

    fn push_group(&mut self, group: Vec<BinaryAnalyzerChunk>) -> (index: usize)
        requires
            old(self).wf(),
            group@.len() > 0,
            achunks_in(group@, old(self).groups_len as int),
        ensures
            final(self).wf(),
            final(self).groups_len == old(self).groups_len,
            index == old(self).arena@.len(),
            final(self).arena@ == old(self).arena@.push(group),
            final(self).graph@ == old(self).graph@,
            final(self).only_weak_paths == old(self).only_weak_paths,
    {
        let index = self.arena.len();
        self.arena.push(group);
        index
    }

    /// Adds the edges of a path: each run of carried-over chunks with its
    /// main chunk becomes one edge. A weak path is dropped once a strong one
    /// was added; the first strong path clears the weak ones.
    pub fn add_path(&mut self, path: &BinaryAnalyzerPath, weak: bool)
        requires
            old(self).wf(),
            achunks_in(path.chunks@, old(self).spec_groups_len()),
        ensures
            final(self).wf(),
            final(self).spec_groups_len() == old(self).spec_groups_len(),
            weak && old(self).spec_node_len() > 0 && !old(self).spec_only_weak() ==> *final(self) == *old(self),
            !(weak && old(self).spec_node_len() > 0 && !old(self).spec_only_weak()) && path.chunks@.len() > 0
                ==> final(self).spec_node_len() >= 1,
            !weak ==> !final(self).spec_only_weak(),
            weak ==> final(self).spec_only_weak() == old(self).spec_only_weak(),
            !(weak && old(self).spec_node_len() > 0 && !old(self).spec_only_weak()) ==> final(self).spec_arena()
                == (if old(self).spec_only_weak() && !weak { Seq::empty() } else { old(self).spec_arena() })
                    + runs_keys(path_runs(path.chunks@, 0)),
            !(weak && old(self).spec_node_len() > 0 && !old(self).spec_only_weak()) ==> forall|a: int|
                (if old(self).spec_only_weak() && !weak { 0 } else { old(self).spec_arena().len() as int }) <= a
                    < final(self).spec_arena().len() ==> #[trigger] final(self).spec_has_edge_for(a),
    {
        if weak && self.graph.len() > 0 && !self.only_weak_paths {
            return;
        } else if self.only_weak_paths && !weak {
            self.graph = Vec::new();
            self.node2start = Vec::new();
            self.arena = Vec::new();
            self.only_weak_paths = false;
        }
        let ghost base = self.spec_arena();
        let ghost all_runs = runs_keys(path_runs(path.chunks@, 0));
        proof {
            assert(base + all_runs.take(0) =~= base);
        }
        let edges_num = analyzer_path_edge_count(path.chunks.as_slice());
        let chunks_len = path.chunks.len();
        let mut position: usize = 0;
        let mut index: usize = 0;
        while index < path.chunks.len()
            invariant
                self.wf(),
                self.groups_len == old(self).groups_len,
                achunks_in(path.chunks@, self.groups_len as int),
                path.chunks@.len() == chunks_len,
                index <= path.chunks@.len(),
                position <= index,
                path.chunks@.len() <= usize::MAX,
                index > 0 ==> self.graph@.len() >= 1,
                !weak ==> !self.only_weak_paths,
                weak ==> self.only_weak_paths == old(self).only_weak_paths,
                all_runs == runs_keys(path_runs(path.chunks@, 0)),
                exists|d: int| 0 <= d <= all_runs.len() && #[trigger] all_runs.take(d) + runs_keys(path_runs(path.chunks@, index as int))
                    == all_runs && self.spec_arena() == base + all_runs.take(d),
                base.len() <= self.arena@.len(),
                forall|a: int| base.len() <= a < self.arena@.len() ==> #[trigger] self.spec_has_edge_for(a),
            decreases path.chunks@.len() - index,
        {
            let ghost d = choose|d: int| 0 <= d <= all_runs.len() && #[trigger] all_runs.take(d) + runs_keys(path_runs(path.chunks@, index as int))
                    == all_runs && self.spec_arena() == base + all_runs.take(d);
            let ghost s0 = *self;
            let mut shifted_end = index;
            while shifted_end + 1 < path.chunks.len() && path.chunks[shifted_end].shift_orth
                invariant
                    index <= shifted_end < path.chunks@.len(),
                    path.chunks@.len() <= usize::MAX,
                    run_end(path.chunks@, index as int) == run_end(path.chunks@, shifted_end as int),
                decreases path.chunks@.len() - shifted_end,
            {
                shifted_end = shifted_end + 1;
            }
            let mut group: Vec<BinaryAnalyzerChunk> = Vec::new();
            let mut k: usize = index;
            proof {
                assert(chunk_keys(group@) =~= chunk_keys(path.chunks@.subrange(index as int, k as int)));
            }
            while k <= shifted_end
                invariant
                    index <= k <= shifted_end + 1,
                    shifted_end < path.chunks@.len(),
                    path.chunks@.len() == chunks_len,
                    group@.len() == k - index,
                    achunks_in(path.chunks@, self.groups_len as int),
                    achunks_in(group@, self.groups_len as int),
                    chunk_keys(group@) == chunk_keys(path.chunks@.subrange(index as int, k as int)),
                decreases shifted_end + 1 - k,
            {
                let c = copy_analyzer_chunk(&path.chunks[k]);
                proof {
                    let sub = path.chunks@.subrange(index as int, k + 1);
                    assert(chunk_key(c) == chunk_key(path.chunks@[k as int]));
                    assert forall|j: int| 0 <= j < sub.len() implies #[trigger] chunk_keys(group@.push(c))[j] == chunk_keys(sub)[j] by {
                        if j < k - index {
                            assert(chunk_keys(group@)[j] == chunk_keys(path.chunks@.subrange(index as int, k as int))[j]);
                        }
                    }
                    assert(chunk_keys(group@.push(c)) =~= chunk_keys(sub));
                }
                group.push(c);
                k = k + 1;
            }
            proof {
                let rest = path_runs(path.chunks@, index as int);
                assert(run_end(path.chunks@, index as int) == shifted_end as int);
                assert(rest == seq![path.chunks@.subrange(index as int, shifted_end + 1)] + path_runs(path.chunks@, shifted_end + 1));
                assert(runs_keys(rest) =~= seq![chunk_keys(group@)] + runs_keys(path_runs(path.chunks@, shifted_end + 1)));
                assert(all_runs.take(d + 1) =~= all_runs.take(d).push(chunk_keys(group@)));
                assert(all_runs.take(d + 1) + runs_keys(path_runs(path.chunks@, shifted_end + 1)) =~= all_runs);
            }
            let main = &path.chunks[shifted_end];
            let text_start = path.chunks[index].original_start;
            let is_front = position == 0;
            let is_back = position + 1 == edges_num;
            let next_node = if is_front && is_back {
                GRAPH_END
            } else if is_front {
                if self.graph.len() == 0 { 1 } else { self.graph.len() }
            } else if is_back {
                GRAPH_END
            } else {
                if self.graph.len() == usize::MAX {
                    GRAPH_END
                } else {
                    self.graph.len() + 1
                }
            };
            let start_node = self.graph.len();
            let ghost arena_before = self.arena@;
            let ghost gv = group@;
            let arena_index = self.push_group(group);
            proof {
                let pushed = self.arena@;
                assert(arena_keys(pushed) =~= arena_keys(arena_before).push(chunk_keys(gv)));
            }
            let edge = GraphEdge {
                group: arena_index,
                text_start,
                main_start: main.original_start,
                text_end: main.original_end,
                segment_type: main.segment_type,
                group_state: main.group_state,
                group_index: main.group_index,
                next_node,
            };
            let ghost graph_before = self.graph@;
            if is_front {
                self.add_start_edge(edge);
            } else {
                self.add_middle_edge(start_node, edge);
            }
            proof {
                let at = if is_front { 0int } else { start_node as int };
                assert(self.graph@[at]@.last() == edge);
                assert(self.spec_edge_group(at, self.graph@[at]@.len() - 1) == arena_index);
                assert forall|a: int| base.len() <= a < self.arena@.len() implies #[trigger] self.spec_has_edge_for(a) by {
                    if a == arena_index {
                        assert(self.graph@[at]@[self.graph@[at]@.len() - 1].group == a);
                    } else {
                        assert(s0.spec_has_edge_for(a));
                        assert(graph_before == s0.graph@);
                        let (n, e) = choose|n: int, e: int| 0 <= n < graph_before.len() && 0 <= e < graph_before[n]@.len()
                            && #[trigger] graph_before[n]@[e].group == a;
                        assert(self.graph@[n]@[e] == graph_before[n]@[e]);
                        assert(self.graph@[n]@[e].group == a);
                    }
                }
            }
            proof {
                assert(self.spec_arena() =~= base + all_runs.take(d + 1));
            }
            position = position + 1;
            index = shifted_end + 1;
        }
        proof {
            let d = choose|d: int| 0 <= d <= all_runs.len() && #[trigger] all_runs.take(d) + runs_keys(path_runs(path.chunks@, index as int))
                    == all_runs && self.spec_arena() == base + all_runs.take(d);
            assert(runs_keys(path_runs(path.chunks@, index as int)) =~= Seq::empty());
            assert(all_runs.take(d) =~= all_runs);
        }
    }

    /// Minimizes the graph, numbers its nodes in text order and points the
    /// word's last edges at the last node; the number of nodes.
    pub fn finish(&mut self) -> (n: usize)
        requires
            old(self).wf(),
        ensures
            final(self).wf(),
            final(self).spec_groups_len() == old(self).spec_groups_len(),
            n == final(self).spec_node_len(),
    {
        self.minimize();
        if self.graph.len() > 2 {
            self.sort_nodes_topologically();
        }
        self.repair_last_node_numbers();
        self.graph.len()
    }

    fn minimize(&mut self)
        requires
            old(self).wf(),
        ensures
            final(self).groups_len == old(self).groups_len,
            final(self).wf(),
            final(self).arena@.len() == old(self).arena@.len(),
    {
        if self.graph.len() > 2 {
            let mut fuel: usize = self.graph.len();
            while fuel > 0 && self.try_to_merge_two_nodes()
                invariant
                    self.wf(),
                    self.arena@.len() == old(self).arena@.len(),
                    self.groups_len == old(self).groups_len,
                decreases fuel,
            {
                fuel = fuel - 1;
            }
        }
    }

    fn try_to_merge_two_nodes(&mut self) -> (merged: bool)
        requires
            old(self).wf(),
        ensures
            final(self).groups_len == old(self).groups_len,
            final(self).wf(),
            final(self).arena@.len() == old(self).arena@.len(),
            merged ==> final(self).graph@.len() == old(self).graph@.len() - 1,
            !merged ==> *final(self) == *old(self),
    {
        let n = self.graph.len();
        let mut node1: usize = 0;
        while node1 < n
            invariant
                self.wf(),
                n == self.graph@.len(),
                self.arena@.len() == old(self).arena@.len(),
                self.groups_len == old(self).groups_len,
                *self == *old(self),
            decreases n - node1,
        {
            let mut node2: usize = n;
            while node2 > node1 + 1
                invariant
                    self.wf(),
                    n == self.graph@.len(),
                    node1 < n,
                    node1 + 1 <= node2 <= n,
                    self.arena@.len() == old(self).arena@.len(),
                    self.groups_len == old(self).groups_len,
                    *self == *old(self),
                decreases node2,
            {
                node2 = node2 - 1;
                if self.can_merge_nodes(node1, node2) {
                    self.do_merge_nodes(node1, node2);
                    return true;
                }
            }
            node1 = node1 + 1;
        }
        false
    }

    fn can_merge_nodes(&self, node1: usize, node2: usize) -> (r: bool)
        requires
            self.wf(),
            node1 < self.graph@.len(),
            node2 < self.graph@.len(),
        ensures
            r ==> self.node2start@[node1 as int] == self.node2start@[node2 as int],
    {
        if self.node2start[node1] != self.node2start[node2] {
            return false;
        }
        let fuel = self.graph.len();
        let p1 = self.possible_paths(node1, fuel);
        let p2 = self.possible_paths(node2, fuel);
        same_path_sets(&p1, &p2)
    }

    /// The sets of (text start, segment type) along the paths from `node` to
    /// the last node, each path as a set.
    fn possible_paths(&self, node: usize, fuel: usize) -> (r: Vec<Vec<(usize, u8)>>)
        requires
            self.wf(),
        ensures
            node == GRAPH_END || node >= self.graph@.len() || node + 1 == self.graph@.len() || fuel == 0 ==> r@.len() == 0,
        decreases fuel,
    {
        let mut res: Vec<Vec<(usize, u8)>> = Vec::new();
        if node == GRAPH_END || node >= self.graph.len() || node + 1 == self.graph.len() || fuel == 0 {
            return res;
        }
        let edges = &self.graph[node];
        let mut e: usize = 0;
        while e < edges.len()
            invariant
                self.wf(),
                fuel > 0,
            decreases edges@.len() - e,
        {
            let edge = edges[e];
            e = e + 1;
            let elem = (edge.text_start, edge.segment_type);
            if edge.next_node != self.graph.len() {
                let sub = self.possible_paths(edge.next_node, fuel - 1);
                let mut k: usize = 0;
                while k < sub.len()
                    invariant
                        k <= sub@.len(),
                    decreases sub@.len() - k,
                {
                    let mut path = copy_pairs(&sub[k]);
                    if !contains_pair(&path, elem) {
                        path.push(elem);
                    }
                    if !contains_path_set(&res, &path) {
                        res.push(path);
                    }
                    k = k + 1;
                }
            }
        }
        res
    }

    fn do_merge_nodes(&mut self, node1: usize, node2: usize)
        requires
            old(self).wf(),
            node1 < node2 < old(self).graph@.len(),
        ensures
            final(self).groups_len == old(self).groups_len,
            final(self).wf(),
            final(self).arena@.len() == old(self).arena@.len(),
            final(self).graph@.len() == old(self).graph@.len() - 1,
    {
        let incoming = copy_edges(&self.graph[node2]);
        let mut target = self.graph.remove(node1);
        let mut i: usize = 0;
        while i < incoming.len()
            invariant
                i <= incoming@.len(),
                forall|e: int| 0 <= e < incoming@.len() ==> (#[trigger] incoming@[e]).group < self.arena@.len(),
                forall|e: int| 0 <= e < target@.len() ==> (#[trigger] target@[e]).group < self.arena@.len(),
            decreases incoming@.len() - i,
        {
            if !edge_in(target.as_slice(), &incoming[i]) {
                target.push(incoming[i]);
            }
            i = i + 1;
        }
        self.graph.insert(node1, target);
        proof {
            assert forall|n: int, e: int| 0 <= n < self.graph@.len() && 0 <= e < self.graph@[n]@.len()
                implies #[trigger] self.graph@[n]@[e].group < self.arena@.len() by {
                if n != node1 {
                    assert(self.graph@[n] == old(self).graph@[n]);
                }
            }
        }
        self.redirect_edges(node2, node1);
        self.do_remove_node(node2);
    }

    fn redirect_edges(&mut self, from_node: usize, to_node: usize)
        requires
            old(self).wf(),
            from_node <= old(self).graph@.len(),
        ensures
            final(self).groups_len == old(self).groups_len,
            final(self).wf(),
            final(self).graph@.len() == old(self).graph@.len(),
            final(self).arena@ == old(self).arena@,
            final(self).node2start@ == old(self).node2start@,
            forall|n: int| from_node <= n < old(self).graph@.len() ==> #[trigger] final(self).graph@[n] == old(self).graph@[n],
            forall|n: int| 0 <= n < from_node ==> (#[trigger] final(self).graph@[n])@.len() <= old(self).graph@[n]@.len(),
            from_node != to_node ==> forall|n: int, k: int| 0 <= n < from_node && 0 <= k < final(self).graph@[n]@.len()
                ==> (#[trigger] final(self).graph@[n]@[k]).next_node != from_node,
    {
        let mut node: usize = 0;
        while node < from_node
            invariant
                self.wf(),
                from_node <= self.graph@.len(),
                self.graph@.len() == old(self).graph@.len(),
                self.arena@ == old(self).arena@,
                self.groups_len == old(self).groups_len,
                self.node2start@ == old(self).node2start@,
                node <= from_node,
                forall|n: int| node <= n < old(self).graph@.len() ==> #[trigger] self.graph@[n] == old(self).graph@[n],
                forall|n: int| 0 <= n < node ==> (#[trigger] self.graph@[n])@.len() <= old(self).graph@[n]@.len(),
                from_node != to_node ==> forall|n: int, k: int| 0 <= n < node && 0 <= k < self.graph@[n]@.len()
                    ==> (#[trigger] self.graph@[n]@[k]).next_node != from_node,
            decreases from_node - node,
        {
            let ghost before = self.graph@;
            let mut edges = self.graph.remove(node);
            let ghost orig_len = edges@.len();
            let mut i: usize = 0;
            while i < edges.len()
                invariant
                    forall|e: int| 0 <= e < edges@.len() ==> (#[trigger] edges@[e]).group < self.arena@.len(),
                    i <= edges@.len(),
                    edges@.len() <= orig_len,
                    from_node != to_node ==> forall|k: int| 0 <= k < i ==> (#[trigger] edges@[k]).next_node != from_node,
                decreases edges@.len() - i,
            {
                if edges[i].next_node == from_node {
                    let mut redirected = edges[i];
                    redirected.next_node = to_node;
                    if edge_in(edges.as_slice(), &redirected) {
                        edges.remove(i);
                    } else {
                        edges.set(i, redirected);
                        i = i + 1;
                    }
                } else {
                    i = i + 1;
                }
            }
            let ghost done = edges@;
            self.graph.insert(node, edges);
            proof {
                assert(self.graph@ =~= before.update(node as int, self.graph@[node as int]));
                assert(self.graph@[node as int]@ == done);
                assert forall|n: int, e: int| 0 <= n < self.graph@.len() && 0 <= e < self.graph@[n]@.len()
                    implies #[trigger] self.graph@[n]@[e].group < self.arena@.len() by {
                    if n != node {
                        assert(self.graph@[n] == before[n]);
                    }
                }
            }
            node = node + 1;
        }
    }

    fn do_remove_node(&mut self, node: usize)
        requires
            old(self).wf(),
            node < old(self).graph@.len(),
        ensures
            final(self).groups_len == old(self).groups_len,
            final(self).wf(),
            final(self).graph@.len() == old(self).graph@.len() - 1,
            final(self).arena@ == old(self).arena@,
    {
        let n = self.graph.len();
        let mut i: usize = node + 1;
        while i < n
            invariant
                self.wf(),
                n == self.graph@.len(),
                node + 1 <= i <= n,
                self.arena@ == old(self).arena@,
                self.groups_len == old(self).groups_len,
            decreases n - i,
        {
            self.redirect_edges(i, i - 1);
            let moved = copy_edges(&self.graph[i]);
            let start = self.node2start[i];
            let ghost before = self.graph@;
            self.graph.set(i - 1, moved);
            self.node2start.set(i - 1, start);
            proof {
                assert forall|m: int, e: int| 0 <= m < self.graph@.len() && 0 <= e < self.graph@[m]@.len()
                    implies #[trigger] self.graph@[m]@[e].group < self.arena@.len() by {
                    if m != i - 1 {
                        assert(self.graph@[m] == before[m]);
                    } else {
                        assert(self.graph@[m]@[e] == before[i as int]@[e]);
                    }
                }
            }
            i = i + 1;
        }
        let ghost before = self.graph@;
        self.graph.pop();
        self.node2start.pop();
        proof {
            assert forall|m: int, e: int| 0 <= m < self.graph@.len() && 0 <= e < self.graph@[m]@.len()
                implies #[trigger] self.graph@[m]@[e].group < self.arena@.len() by {
                assert(self.graph@[m] == before[m]);
            }
        }
    }

    fn repair_last_node_numbers(&mut self)
        requires
            old(self).wf(),
        ensures
            final(self).wf(),
            final(self).groups_len == old(self).groups_len,
            final(self).graph@.len() == old(self).graph@.len(),
            forall|m: int| 0 <= m < old(self).graph@.len() ==> (#[trigger] final(self).graph@[m])@
                == old(self).graph@[m]@.map_values(|e: GraphEdge| last_node_fixed(e, old(self).graph@.len() as usize)),
            final(self).node2start@ == old(self).node2start@,
    {
        let size = self.graph.len();
        let mut node: usize = 0;
        while node < size
            invariant
                self.wf(),
                size == self.graph@.len(),
                self.graph@.len() == old(self).graph@.len(),
                self.arena@ == old(self).arena@,
                self.groups_len == old(self).groups_len,
                self.node2start@ == old(self).node2start@,
                node <= size,
                forall|m: int| 0 <= m < node ==> (#[trigger] self.graph@[m])@
                    == old(self).graph@[m]@.map_values(|e: GraphEdge| last_node_fixed(e, size)),
                forall|m: int| node <= m < size ==> #[trigger] self.graph@[m] == old(self).graph@[m],
            decreases size - node,
        {
            let ghost before = self.graph@;
            let mut edges = self.graph.remove(node);
            let ghost orig = edges@;
            let mut i: usize = 0;
            while i < edges.len()
                invariant
                    edges@.len() == orig.len(),
                    i <= edges@.len(),
                    forall|e: int| 0 <= e < edges@.len() ==> (#[trigger] edges@[e]).group == orig[e].group,
                    forall|e: int| 0 <= e < i ==> #[trigger] edges@[e] == last_node_fixed(orig[e], size),
                    forall|e: int| i <= e < edges@.len() ==> #[trigger] edges@[e] == orig[e],
                decreases edges@.len() - i,
            {
                if edges[i].next_node == GRAPH_END {
                    let mut fixed = edges[i];
                    fixed.next_node = size;
                    edges.set(i, fixed);
                }
                i = i + 1;
            }
            assert(edges@ =~= orig.map_values(|e: GraphEdge| last_node_fixed(e, size)));
            let ghost fixed_edges = edges;
            self.graph.insert(node, edges);
            assert(self.graph@ =~= before.update(node as int, fixed_edges));
            proof {
                assert forall|m: int, e: int| 0 <= m < self.graph@.len() && 0 <= e < self.graph@[m]@.len()
                    implies #[trigger] self.graph@[m]@[e].group < self.arena@.len() by {
                    if m != node {
                        assert(self.graph@[m] == before[m]);
                    } else {
                        assert(self.graph@[m]@[e].group == orig[e].group);
                        assert(orig == before[m]@);
                    }
                }
            }
            node = node + 1;
        }
    }

    fn sort_nodes_topologically(&mut self)
        requires
            old(self).wf(),
        ensures
            final(self).groups_len == old(self).groups_len,
            final(self).wf(),
            final(self).graph@.len() == old(self).graph@.len(),
            final(self).arena@ == old(self).arena@,
            final(self).node2start@.len() == old(self).node2start@.len(),
            forall|a: int, b: int| 0 <= a < b < final(self).node2start@.len()
                ==> final(self).node2start@[a] <= final(self).node2start@[b],
    {
        let n = self.graph.len();
        let ghost starts0 = self.node2start@;
        let sorted = stable_order_by_start(self.node2start.as_slice());
        let mut old_to_new: Vec<usize> = Vec::new();
        let mut k: usize = 0;
        while k < n
            invariant
                k <= n,
                old_to_new@.len() == k,
            decreases n - k,
        {
            old_to_new.push(0);
            k = k + 1;
        }
        let mut new_node: usize = 0;
        while new_node < sorted.len()
            invariant
                old_to_new@.len() == n,
                sorted@.len() == n,
                new_node <= n,
                forall|i: int| 0 <= i < sorted@.len() ==> #[trigger] sorted@[i] < n,
                forall|x: int, y: int| 0 <= x < y < sorted@.len() ==> sorted@[x] != sorted@[y],
                forall|j: int| 0 <= j < new_node ==> old_to_new@[#[trigger] sorted@[j] as int] == j,
            decreases sorted@.len() - new_node,
        {
            old_to_new.set(sorted[new_node], new_node);
            new_node = new_node + 1;
        }
        proof {
            assert forall|o: int| 0 <= o < n implies (#[trigger] old_to_new@[o]) < n && sorted@[old_to_new@[o] as int] == o by {
                assert(sorted@.contains(o as usize));
                let j = choose|j: int| 0 <= j < sorted@.len() && sorted@[j] == o as usize;
                assert(old_to_new@[sorted@[j] as int] == j);
            }
        }
        let mut node: usize = 0;
        while node < n
            invariant
                self.wf(),
                n == self.graph@.len(),
                old_to_new@.len() == n,
                self.arena@ == old(self).arena@,
                self.groups_len == old(self).groups_len,
                self.node2start@ == starts0,
                starts0 == old(self).node2start@,
                sorted@.len() == n,
                forall|o: int| 0 <= o < n ==> (#[trigger] old_to_new@[o]) < n && sorted@[old_to_new@[o] as int] == o,
                forall|x: int, y: int| 0 <= x < y < n ==> starts0[sorted@[x] as int] <= starts0[sorted@[y] as int],
            decreases n - node,
        {
            let ghost before = self.graph@;
            let mut edges = self.graph.remove(node);
            let ghost orig = edges@;
            let mut i: usize = 0;
            while i < edges.len()
                invariant
                    old_to_new@.len() == n,
                    edges@.len() == orig.len(),
                    forall|e: int| 0 <= e < edges@.len() ==> (#[trigger] edges@[e]).group == orig[e].group,
                decreases edges@.len() - i,
            {
                if edges[i].next_node < n {
                    let mut moved = edges[i];
                    moved.next_node = old_to_new[edges[i].next_node];
                    edges.set(i, moved);
                }
                i = i + 1;
            }
            self.graph.insert(node, edges);
            proof {
                assert forall|m: int, e: int| 0 <= m < self.graph@.len() && 0 <= e < self.graph@[m]@.len()
                    implies #[trigger] self.graph@[m]@[e].group < self.arena@.len() by {
                    if m != node {
                        assert(self.graph@[m] == before[m]);
                    } else {
                        assert(orig == before[m]@);
                    }
                }
            }
            node = node + 1;
        }
        let mut graph_copy: Vec<Vec<GraphEdge>> = Vec::new();
        let mut starts_copy: Vec<usize> = Vec::new();
        let mut old_node: usize = 0;
        while old_node < n
            invariant
                self.wf(),
                n == self.graph@.len(),
                old_node <= n,
                graph_copy@.len() == old_node,
                starts_copy@.len() == old_node,
                edges_in_arena(graph_copy@, self.arena@.len() as int),
                self.arena@ == old(self).arena@,
                self.groups_len == old(self).groups_len,
                self.node2start@ == starts0,
                starts0 == old(self).node2start@,
                forall|k: int| 0 <= k < old_node ==> #[trigger] starts_copy@[k] == starts0[k],
                old_to_new@.len() == n,
                sorted@.len() == n,
                forall|o: int| 0 <= o < n ==> (#[trigger] old_to_new@[o]) < n && sorted@[old_to_new@[o] as int] == o,
                forall|x: int, y: int| 0 <= x < y < n ==> starts0[sorted@[x] as int] <= starts0[sorted@[y] as int],
            decreases n - old_node,
        {
            let ghost before = graph_copy@;
            graph_copy.push(copy_edges(&self.graph[old_node]));
            starts_copy.push(self.node2start[old_node]);
            proof {
                assert forall|m: int, e: int| 0 <= m < graph_copy@.len() && 0 <= e < graph_copy@[m]@.len()
                    implies #[trigger] graph_copy@[m]@[e].group < self.arena@.len() by {
                    if m < old_node {
                        assert(graph_copy@[m] == before[m]);
                    }
                }
            }
            old_node = old_node + 1;
        }
        let mut old_node: usize = 0;
        while old_node < n
            invariant
                self.wf(),
                n == self.graph@.len(),
                graph_copy@.len() == n,
                starts_copy@.len() == n,
                old_to_new@.len() == n,
                edges_in_arena(graph_copy@, self.arena@.len() as int),
                self.arena@ == old(self).arena@,
                self.groups_len == old(self).groups_len,
                old_node <= n,
                self.node2start@.len() == n,
                starts0 == old(self).node2start@,
                forall|k: int| 0 <= k < n ==> #[trigger] starts_copy@[k] == starts0[k],
                sorted@.len() == n,
                forall|o: int| 0 <= o < n ==> (#[trigger] old_to_new@[o]) < n && sorted@[old_to_new@[o] as int] == o,
                forall|x: int, y: int| 0 <= x < y < n ==> starts0[sorted@[x] as int] <= starts0[sorted@[y] as int],
                forall|o: int| 0 <= o < old_node ==> self.node2start@[#[trigger] old_to_new@[o] as int] == starts_copy@[o],
            decreases n - old_node,
        {
            let target = old_to_new[old_node];
            if target < n {
                let ghost before = self.graph@;
                let ghost starts_before = self.node2start@;
                self.graph.set(target, copy_edges(&graph_copy[old_node]));
                self.node2start.set(target, starts_copy[old_node]);
                proof {
                    assert forall|o: int| 0 <= o < old_node + 1 implies self.node2start@[#[trigger] old_to_new@[o] as int]
                        == starts_copy@[o] by {
                        if o < old_node {
                            assert(sorted@[old_to_new@[o] as int] == o);
                            assert(sorted@[old_to_new@[old_node as int] as int] == old_node);
                            assert(old_to_new@[o] != target);
                            assert(self.node2start@[old_to_new@[o] as int] == starts_before[old_to_new@[o] as int]);
                        }
                    }
                }
                proof {
                    assert forall|m: int, e: int| 0 <= m < self.graph@.len() && 0 <= e < self.graph@[m]@.len()
                        implies #[trigger] self.graph@[m]@[e].group < self.arena@.len() by {
                        if m != target {
                            assert(self.graph@[m] == before[m]);
                        } else {
                            assert(self.graph@[m]@[e] == graph_copy@[old_node as int]@[e]);
                        }
                    }
                }
            }
            old_node = old_node + 1;
        }
        proof {
            assert forall|x: int, y: int| 0 <= x < y < self.node2start@.len()
                implies self.node2start@[x] <= self.node2start@[y] by {
                let ox = sorted@[x] as int;
                let oy = sorted@[y] as int;
                assert(sorted@[old_to_new@[ox] as int] == ox);
                assert(self.node2start@[old_to_new@[ox] as int] == starts_copy@[ox]);
                assert(self.node2start@[old_to_new@[oy] as int] == starts_copy@[oy]);
                assert(old_to_new@[ox] as int == x) by {
                    let j = old_to_new@[ox] as int;
                    assert(sorted@[j] as int == ox);
                    if j != x {
                        assert(sorted@[j] != sorted@[x]);
                    }
                }
                assert(old_to_new@[oy] as int == y) by {
                    let j = old_to_new@[oy] as int;
                    assert(sorted@[j] as int == oy);
                    if j != y {
                        assert(sorted@[j] != sorted@[y]);
                    }
                }
            }
        }
    }
}

/// The nodes in order of their text start; nodes with the same start keep
/// their order.
pub fn stable_order_by_start(starts: &[usize]) -> (r: Vec<usize>)
    ensures
        r@.len() == starts@.len(),
        forall|i: int| 0 <= i < r@.len() ==> #[trigger] r@[i] < starts@.len(),
        forall|a: int, b: int| 0 <= a < b < r@.len() ==> r@[a] != r@[b],
        forall|x: usize| x < starts@.len() ==> #[trigger] r@.contains(x),
        forall|a: int, b: int| 0 <= a < b < r@.len() ==> starts@[r@[a] as int] <= starts@[r@[b] as int],
{
    let n = starts.len();
    let mut order: Vec<usize> = Vec::new();
    let mut i: usize = 0;
    while i < n
        invariant
            i <= n,
            n == starts@.len(),
            order@.len() == i,
            forall|k: int| 0 <= k < i ==> #[trigger] order@[k] < i,
            forall|a: int, b: int| 0 <= a < b < order@.len() ==> order@[a] != order@[b],
            forall|x: usize| x < i ==> #[trigger] order@.contains(x),
            forall|a: int, b: int| 0 <= a < b < order@.len() ==> starts@[order@[a] as int] <= starts@[order@[b] as int],
        decreases n - i,
    {
        let mut pos: usize = order.len();
        while pos > 0 && starts[order[pos - 1]] > starts[i]
            invariant
                pos <= order@.len(),
                i < n,
                n == starts@.len(),
                forall|k: int| 0 <= k < order@.len() ==> #[trigger] order@[k] < i,
                forall|k: int| pos <= k < order@.len() ==> starts@[(#[trigger] order@[k]) as int] > starts@[i as int],
            decreases pos,
        {
            pos = pos - 1;
        }
        let ghost before = order@;
        order.insert(pos, i);
        proof {
            assert(order@ == before.insert(pos as int, i));
            assert forall|x: usize| x < i + 1 implies #[trigger] order@.contains(x) by {
                if x < i {
                    assert(before.contains(x));
                    let w = choose|w: int| 0 <= w < before.len() && before[w] == x;
                    if w < pos {
                        assert(order@[w] == x);
                    } else {
                        assert(order@[w + 1] == x);
                    }
                } else {
                    assert(order@[pos as int] == x);
                }
            }
            assert forall|a: int, b: int| 0 <= a < b < order@.len() implies starts@[order@[a] as int] <= starts@[order@[b] as int] by {
                if b < pos {
                    assert(order@[a] == before[a] && order@[b] == before[b]);
                } else if b == pos {
                    assert(order@[a] == before[a]);
                    if pos > 0 {
                        assert(starts@[before[pos - 1] as int] <= starts@[i as int]);
                        if a < pos - 1 {
                            assert(starts@[before[a] as int] <= starts@[before[pos - 1] as int]);
                        }
                    }
                } else if a == pos {
                    assert(order@[b] == before[b - 1]);
                } else if a < pos {
                    assert(order@[a] == before[a] && order@[b] == before[b - 1]);
                } else {
                    assert(order@[a] == before[a - 1] && order@[b] == before[b - 1]);
                }
            }
            assert forall|a: int, b: int| 0 <= a < b < order@.len() implies order@[a] != order@[b] by {
                if b < pos {
                    assert(order@[a] == before[a] && order@[b] == before[b]);
                } else if b == pos {
                    assert(order@[a] == before[a]);
                } else if a == pos {
                    assert(order@[b] == before[b - 1]);
                } else if a < pos {
                    assert(order@[a] == before[a] && order@[b] == before[b - 1]);
                } else {
                    assert(order@[a] == before[a - 1] && order@[b] == before[b - 1]);
                }
            }
            assert forall|k: int| 0 <= k < i + 1 implies #[trigger] order@[k] < i + 1 by {
                if k < pos {
                    assert(order@[k] == before[k]);
                } else if k > pos {
                    assert(order@[k] == before[k - 1]);
                }
            }
        }
        i = i + 1;
    }
    order
}

/// A copy of the edges.
pub fn copy_edges(edges: &Vec<GraphEdge>) -> (r: Vec<GraphEdge>)
    ensures
        r@ == edges@,
{
    let mut out: Vec<GraphEdge> = Vec::new();
    let mut i: usize = 0;
    while i < edges.len()
        invariant
            i <= edges@.len(),
            out@ == edges@.take(i as int),
        decreases edges@.len() - i,
    {
        out.push(edges[i]);
        i = i + 1;
        assert(out@ =~= edges@.take(i as int));
    }
    assert(out@ =~= edges@);
    out
}

fn copy_pairs(v: &Vec<(usize, u8)>) -> (r: Vec<(usize, u8)>)
    ensures
        r@ == v@,
{
    let mut out: Vec<(usize, u8)> = Vec::new();
    let mut i: usize = 0;
    while i < v.len()
        invariant
            i <= v@.len(),
            out@ == v@.take(i as int),
        decreases v@.len() - i,
    {
        out.push(v[i]);
        i = i + 1;
        assert(out@ =~= v@.take(i as int));
    }
    assert(out@ =~= v@);
    out
}

/// Whether the pair is in the list.
pub fn contains_pair(v: &Vec<(usize, u8)>, p: (usize, u8)) -> (r: bool)
    ensures
        r == v@.contains(p),
{
    let mut i: usize = 0;
    while i < v.len()
        invariant
            i <= v@.len(),
            forall|k: int| 0 <= k < i ==> v@[k] != p,
        decreases v@.len() - i,
    {
        if v[i].0 == p.0 && v[i].1 == p.1 {
            assert(v@[i as int] == p);
            return true;
        }
        i = i + 1;
    }
    false
}

/// Whether two lists hold the same pairs, as sets.
pub fn same_pair_set(a: &Vec<(usize, u8)>, b: &Vec<(usize, u8)>) -> (r: bool)
    ensures
        r == (a@.to_set() == b@.to_set()),
{
    let mut i: usize = 0;
    while i < a.len()
        invariant
            i <= a@.len(),
            forall|k: int| 0 <= k < i ==> b@.contains(#[trigger] a@[k]),
        decreases a@.len() - i,
    {
        if !contains_pair(b, a[i]) {
            assert(!b@.to_set().contains(a@[i as int]));
            assert(a@.to_set().contains(a@[i as int]));
            return false;
        }
        i = i + 1;
    }
    let mut j: usize = 0;
    while j < b.len()
        invariant
            j <= b@.len(),
            forall|k: int| 0 <= k < a@.len() ==> b@.contains(#[trigger] a@[k]),
            forall|k: int| 0 <= k < j ==> a@.contains(#[trigger] b@[k]),
        decreases b@.len() - j,
    {
        if !contains_pair(a, b[j]) {
            assert(!a@.to_set().contains(b@[j as int]));
            assert(b@.to_set().contains(b@[j as int]));
            return false;
        }
        j = j + 1;
    }
    assert(a@.to_set() =~= b@.to_set()) by {
        assert forall|x: (usize, u8)| a@.to_set().contains(x) implies b@.to_set().contains(x) by {
            let k = choose|k: int| 0 <= k < a@.len() && a@[k] == x;
            assert(b@.contains(a@[k]));
        }
        assert forall|x: (usize, u8)| b@.to_set().contains(x) implies a@.to_set().contains(x) by {
            let k = choose|k: int| 0 <= k < b@.len() && b@[k] == x;
            assert(a@.contains(b@[k]));
        }
    }
    true
}

/// Whether one of the lists holds exactly the set `s`.
pub open spec fn set_in(sets: Seq<Vec<(usize, u8)>>, s: Set<(usize, u8)>) -> bool {
    exists|k: int| 0 <= k < sets.len() && (#[trigger] sets[k])@.to_set() == s
}

/// Whether a set equal to `path` is in the list.
pub fn contains_path_set(sets: &Vec<Vec<(usize, u8)>>, path: &Vec<(usize, u8)>) -> (r: bool)
    ensures
        r == set_in(sets@, path@.to_set()),
{
    let mut i: usize = 0;
    while i < sets.len()
        invariant
            i <= sets@.len(),
            forall|k: int| 0 <= k < i ==> (#[trigger] sets@[k])@.to_set() != path@.to_set(),
        decreases sets@.len() - i,
    {
        if same_pair_set(&sets[i], path) {
            assert(sets@[i as int]@.to_set() == path@.to_set());
            return true;
        }
        i = i + 1;
    }
    false
}

/// Whether two lists of sets hold the same sets.
pub fn same_path_sets(a: &Vec<Vec<(usize, u8)>>, b: &Vec<Vec<(usize, u8)>>) -> (r: bool)
    ensures
        r == ((forall|i: int| 0 <= i < a@.len() ==> set_in(b@, (#[trigger] a@[i])@.to_set()))
            && (forall|i: int| 0 <= i < b@.len() ==> set_in(a@, (#[trigger] b@[i])@.to_set()))),
{
    let mut i: usize = 0;
    while i < a.len()
        invariant
            i <= a@.len(),
            forall|j: int| 0 <= j < i ==> set_in(b@, (#[trigger] a@[j])@.to_set()),
        decreases a@.len() - i,
    {
        if !contains_path_set(b, &a[i]) {
            return false;
        }
        i = i + 1;
    }
    let mut j: usize = 0;
    while j < b.len()
        invariant
            j <= b@.len(),
            forall|x: int| 0 <= x < a@.len() ==> set_in(b@, (#[trigger] a@[x])@.to_set()),
            forall|x: int| 0 <= x < j ==> set_in(a@, (#[trigger] b@[x])@.to_set()),
        decreases b@.len() - j,
    {
        if !contains_path_set(a, &b[j]) {
            return false;
        }
        j = j + 1;
    }
    true
}

/// The number of edges of a path: one per run of carried-over chunks.
pub fn analyzer_path_edge_count(chunks: &[BinaryAnalyzerChunk]) -> (count: usize)
    ensures
        count <= chunks@.len(),
        chunks@.len() > 0 ==> count > 0,
{
    let mut count: usize = 0;
    let mut index: usize = 0;
    let n = chunks.len();
    while index < chunks.len()
        invariant
            index <= chunks@.len(),
            count <= index,
            index > 0 ==> count > 0,
            chunks@.len() <= usize::MAX,
        decreases chunks@.len() - index,
    {
        let mut shifted_end = index;
        while shifted_end + 1 < chunks.len() && chunks[shifted_end].shift_orth
            invariant
                index <= shifted_end < chunks@.len(),
                chunks@.len() <= usize::MAX,
            decreases chunks@.len() - shifted_end,
        {
            shifted_end = shifted_end + 1;
        }
        count = count + 1;
        index = shifted_end + 1;
    }
    count
}

/// Edges are equal by span, segment identity and target, whatever chunks
/// they keep.
pub open spec fn same_edge(a: GraphEdge, b: GraphEdge) -> bool {
    &&& a.text_start == b.text_start
    &&& a.main_start == b.main_start
    &&& a.text_end == b.text_end
    &&& a.segment_type == b.segment_type
    &&& a.next_node == b.next_node
    &&& a.group_state == b.group_state
    &&& a.group_index == b.group_index
}

/// Whether an equal edge is in the list.
pub fn edge_in(edges: &[GraphEdge], edge: &GraphEdge) -> (r: bool)
    ensures
        r == exists|k: int| 0 <= k < edges@.len() && same_edge(#[trigger] edges@[k], *edge),
{
    let mut i: usize = 0;
    while i < edges.len()
        invariant
            i <= edges@.len(),
            forall|k: int| 0 <= k < i ==> !same_edge(#[trigger] edges@[k], *edge),
        decreases edges@.len() - i,
    {
        let other = edges[i];
        if other.text_start == edge.text_start && other.main_start == edge.main_start
            && other.text_end == edge.text_end && other.segment_type == edge.segment_type
            && other.next_node == edge.next_node && other.group_state == edge.group_state
            && other.group_index == edge.group_index {
            assert(same_edge(edges@[i as int], *edge));
            return true;
        }
        i = i + 1;
    }
    false
}

} // verus!
