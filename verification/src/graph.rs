//! Compressed adjacency lists and their mutable builder.

use vstd::prelude::*;
use crate::error::{
    invalid_format, invalid_input, overflow, refused_format, refused_input, refused_size,
    PrismResult,
};
use crate::order::{ascending, ascending_is_sorted, ascending_is_unique, ascending_set};

verus! {

/// A directed graph: the neighbors of node `i` are
/// `neighbors[offsets[i] .. offsets[i + 1]]`.
pub struct Graph {
    pub offsets: Vec<u32>,
    pub neighbors: Vec<u32>,
    pub n: usize,
}

/// Offsets start at zero, never decrease and end at the neighbor count.
pub open spec fn offsets_fit(offsets: Seq<u32>, neighbor_count: int, n: int) -> bool {
    &&& offsets.len() == n + 1
    &&& offsets[0] == 0
    &&& offsets[n] == neighbor_count
    &&& forall|i: int, j: int| 0 <= i <= j <= n ==> offsets[i] <= offsets[j]
}

/// Every entry names a node.
pub open spec fn names_nodes(ids: Seq<u32>, n: int) -> bool {
    forall|i: int| 0 <= i < ids.len() ==> #[trigger] ids[i] < n
}

/// Every adjacency list names nodes only.
pub open spec fn lists_name_nodes(adj: Seq<Vec<u32>>, n: int) -> bool {
    forall|i: int| 0 <= i < adj.len() ==> names_nodes((#[trigger] adj[i])@, n)
}

/// Number of entries of all lists together.
pub open spec fn entry_count(adj: Seq<Vec<u32>>) -> nat
    decreases adj.len(),
{
    if adj.len() == 0 {
        0
    } else {
        entry_count(adj.drop_last()) + adj.last()@.len()
    }
}

/// Number of distinct entries, list by list.
pub open spec fn distinct_count(adj: Seq<Vec<u32>>) -> nat
    decreases adj.len(),
{
    if adj.len() == 0 {
        0
    } else {
        distinct_count(adj.drop_last()) + adj.last()@.to_set().len()
    }
}

/// Node count and offsets that a 32-bit graph can represent.
pub open spec fn countable(n: int) -> bool {
    n <= u32::MAX && n < usize::MAX
}

/// The graph holds the lists of `adj`, each in ascending order without
/// repetitions.
pub open spec fn freezes(graph: &Graph, adj: Seq<Vec<u32>>) -> bool {
    &&& graph.wf()
    &&& graph.n == adj.len()
    &&& forall|i: int|
        0 <= i < adj.len() ==> ascending(#[trigger] graph.row(i)) && forall|x: u32|
            graph.row(i).contains(x) <==> adj[i]@.contains(x)
}

impl Graph {
    /// What holds of every valid value.
    pub open spec fn wf(&self) -> bool {
        &&& self.n <= u32::MAX
        &&& offsets_fit(self.offsets@, self.neighbors@.len() as int, self.n as int)
        &&& names_nodes(self.neighbors@, self.n as int)
    }

    /// Neighbors of node `i`.
    pub open spec fn row(&self, i: int) -> Seq<u32> {
        self.neighbors@.subrange(self.offsets@[i] as int, self.offsets@[i + 1] as int)
    }

    /// There is an edge from `a` to `b`.
    pub open spec fn edge(&self, a: int, b: u32) -> bool {
        self.row(a).contains(b)
    }

    /// A graph with the given adjacency lists, kept in their order.
    pub fn from_adj(adj: &[Vec<u32>]) -> (result: PrismResult<Graph>)
        ensures
            refused_size(result) <==> !countable(adj@.len() as int) || entry_count(adj@) > u32::MAX,
            refused_input(result) <==> !refused_size(result) && !lists_name_nodes(
                adj@,
                adj@.len() as int,
            ),
            result is Err ==> refused_size(result) || refused_input(result),
            result matches Ok(graph) ==> graph.wf() && graph.n == adj@.len() && forall|i: int|
                0 <= i < adj@.len() ==> #[trigger] graph.row(i) == adj@[i]@,
    {
        let n: usize = adj.len();
        if n > u32::MAX as usize || n == usize::MAX {
            return Err(overflow("graph node count exceeds the u32 identifier space"));
        }
        let mut total: usize = 0;
        let mut i: usize = 0;
        while i < n
            invariant
                i <= n,
                n == adj@.len(),
                total == entry_count(adj@.take(i as int)),
                total <= u32::MAX,
            decreases n - i,
        {
            proof {
                assert(adj@.take(i + 1).drop_last() =~= adj@.take(i as int));
                entry_count_grows(adj@, i + 1);
            }
            let length: usize = adj[i].len();
            if length > u32::MAX as usize || total > u32::MAX as usize - length {
                return Err(overflow("graph edge count exceeds the u32 offset space"));
            }
            total = total + length;
            i = i + 1;
        }
        assert(adj@.take(n as int) =~= adj@);
        let mut offsets: Vec<u32> = Vec::new();
        let mut neighbors: Vec<u32> = Vec::new();
        offsets.push(0);
        let mut node: usize = 0;
        while node < n
            invariant
                node <= n,
                n == adj@.len(),
                n <= u32::MAX,
                countable(n as int),
                entry_count(adj@) <= u32::MAX,
                neighbors@.len() == entry_count(adj@.take(node as int)),
                lists_name_nodes(adj@.take(node as int), n as int),
                holds_rows(offsets@, neighbors@, adj@, node as int, n as int),
            decreases n - node,
        {
            let list = adj[node].as_slice();
            let mut c: usize = 0;
            while c < list.len()
                invariant
                    c <= list@.len(),
                    list@ == adj@[node as int]@,
                    node < n,
                    n == adj@.len(),
                    countable(n as int),
                    entry_count(adj@) <= u32::MAX,
                    forall|j: int| 0 <= j < c ==> #[trigger] list@[j] < n,
                decreases list@.len() - c,
            {
                if list[c] as usize >= n {
                    assert(!names_nodes(adj@[node as int]@, n as int)) by {
                        assert(adj@[node as int]@[c as int] >= n);
                    }
                    return Err(invalid_input("graph node has an out-of-range neighbor"));
                }
                c = c + 1;
            }
            let ghost before = neighbors@;
            proof {
                assert(adj@.take(node + 1).drop_last() =~= adj@.take(node as int));
                entry_count_grows(adj@, node + 1);
            }
            neighbors.extend_from_slice(list);
            assert(neighbors@ =~= before + list@);
            proof {
                assert(adj@.take(node + 1) =~= adj@.take(node as int).push(adj@[node as int]));
                assert forall|j: int| 0 <= j < node + 1 implies names_nodes(
                    (#[trigger] adj@.take(node + 1)[j])@,
                    n as int,
                ) by {
                    if j < node {
                        assert(adj@.take(node as int)[j] == adj@[j]);
                    }
                }
                next_row(offsets@, before, list@, adj@, node as int, n as int);
            }
            offsets.push(neighbors.len() as u32);
            node = node + 1;
        }
        let graph = Graph { offsets, neighbors, n };
        assert(adj@.take(n as int) =~= adj@);
        Ok(graph)
    }

    /// A graph from its persisted arrays.
    pub fn from_parts(offsets: Vec<u32>, neighbors: Vec<u32>, n: usize) -> (result: PrismResult<
        Graph,
    >)
        ensures
            refused_size(result) <==> !countable(n as int) || (offsets@.len() == n + 1
                && neighbors@.len() > u32::MAX),
            refused_format(result) <==> !refused_size(result) && !(offsets_fit(
                offsets@,
                neighbors@.len() as int,
                n as int,
            ) && names_nodes(neighbors@, n as int)),
            result is Err ==> refused_size(result) || refused_format(result),
            result matches Ok(graph) ==> graph.wf() && graph.n == n && graph.offsets@ == offsets@
                && graph.neighbors@ == neighbors@,
    {
        if n > u32::MAX as usize || n == usize::MAX {
            return Err(overflow("graph node count exceeds the u32 identifier space"));
        }
        if offsets.len() != n + 1 {
            return Err(invalid_format("graph must have one offset more than nodes"));
        }
        if neighbors.len() > u32::MAX as usize {
            return Err(overflow("graph edge count exceeds the u32 offset space"));
        }
        if offsets[0] != 0 {
            return Err(invalid_format("graph offsets must start at zero"));
        }
        let edge_count: u32 = neighbors.len() as u32;
        let mut i: usize = 0;
        while i < n
            invariant
                i <= n,
                countable(n as int),
                offsets@.len() == n + 1,
                neighbors@.len() <= u32::MAX,
                edge_count == neighbors@.len(),
                forall|a: int, b: int| 0 <= a <= b <= i ==> offsets@[a] <= offsets@[b],
                offsets@[i as int] <= edge_count,
            decreases n - i,
        {
            if offsets[i] > offsets[i + 1] || offsets[i + 1] > edge_count {
                proof {
                    let w = i as int;
                    if offsets_fit(offsets@, neighbors@.len() as int, n as int) {
                        assert(offsets@[w] <= offsets@[w + 1]);
                        assert(offsets@[w + 1] <= offsets@[n as int]);
                    }
                }
                return Err(
                    invalid_format("graph offsets are not monotone and within neighbor storage"),
                );
            }
            i = i + 1;
        }
        if offsets[n] != edge_count {
            return Err(invalid_format("graph final offset must equal the neighbor count"));
        }
        let mut c: usize = 0;
        while c < neighbors.len()
            invariant
                c <= neighbors@.len(),
                countable(n as int),
                neighbors@.len() <= u32::MAX,
                forall|j: int| 0 <= j < c ==> #[trigger] neighbors@[j] < n,
            decreases neighbors@.len() - c,
        {
            if neighbors[c] as usize >= n {
                assert(!(neighbors@[c as int] < n));
                return Err(invalid_format("graph contains an out-of-range neighbor"));
            }
            c = c + 1;
        }
        Ok(Graph { offsets, neighbors, n })
    }

    /// A graph with `n` nodes and no edges.
    pub fn empty(n: usize) -> (result: PrismResult<Graph>)
        ensures
            result is Ok <==> countable(n as int),
            result is Err ==> refused_size(result),
            result matches Ok(graph) ==> graph.wf() && graph.n == n && graph.neighbors@.len() == 0,
    {
        if n > u32::MAX as usize || n == usize::MAX {
            return Err(overflow("graph node count exceeds the u32 identifier space"));
        }
        let mut offsets: Vec<u32> = Vec::new();
        offsets.push(0);
        while offsets.len() < n + 1
            invariant
                1 <= offsets@.len() <= n + 1,
                n < usize::MAX,
                forall|i: int| 0 <= i < offsets@.len() ==> offsets@[i] == 0,
            decreases n + 1 - offsets@.len(),
        {
            offsets.push(0);
        }
        Ok(Graph { offsets, neighbors: Vec::new(), n })
    }

    /// Number of nodes.
    pub fn len(&self) -> (n: usize)
        ensures
            n == self.n,
    {
        self.n
    }

    /// Whether there are no nodes.
    pub fn is_empty(&self) -> (empty: bool)
        ensures
            empty == (self.n == 0),
    {
        self.n == 0
    }

    /// The offsets.
    pub fn offsets(&self) -> (offsets: &[u32])
        ensures
            offsets@ == self.offsets@,
    {
        self.offsets.as_slice()
    }

    /// The neighbors of all nodes, node after node.
    pub fn neighbor_ids(&self) -> (ids: &[u32])
        ensures
            ids@ == self.neighbors@,
    {
        self.neighbors.as_slice()
    }

    /// Number of neighbors of node `i`.
    pub fn degree(&self, i: u32) -> (degree: Option<usize>)
        requires
            self.wf(),
        ensures
            degree is Some <==> i < self.n,
            degree matches Some(d) ==> d == self.row(i as int).len(),
    {
        if (i as usize) < self.n {
            Some(self.degree_unchecked(i))
        } else {
            None
        }
    }

    /// Number of neighbors of a node that is known to exist.
    pub fn degree_unchecked(&self, i: u32) -> (degree: usize)
        requires
            self.wf(),
            i < self.n,
        ensures
            degree == self.row(i as int).len(),
    {
        proof {
            self.row_within(i as int);
        }
        let start: u32 = self.offsets[i as usize];
        let end: u32 = self.offsets[i as usize + 1];
        (end - start) as usize
    }

    /// Neighbors of node `i`.
    pub fn neighbors(&self, i: u32) -> (neighbors: Option<&[u32]>)
        requires
            self.wf(),
        ensures
            neighbors is Some <==> i < self.n,
            neighbors matches Some(ids) ==> ids@ == self.row(i as int),
    {
        if (i as usize) < self.n {
            Some(self.neighbors_unchecked(i))
        } else {
            None
        }
    }

    /// Neighbors of a node that is known to exist.
    pub fn neighbors_unchecked(&self, i: u32) -> (neighbors: &[u32])
        requires
            self.wf(),
            i < self.n,
        ensures
            neighbors@ == self.row(i as int),
            names_nodes(neighbors@, self.n as int),
    {
        proof {
            self.row_within(i as int);
        }
        let start: u32 = self.offsets[i as usize];
        let end: u32 = self.offsets[i as usize + 1];
        vstd::slice::slice_subrange(self.neighbors.as_slice(), start as usize, end as usize)
    }

    /// Number of edges.
    pub fn num_edges(&self) -> (count: usize)
        ensures
            count == self.neighbors@.len(),
    {
        self.neighbors.len()
    }

    /// Each row lies within the neighbour list.
    pub proof fn row_within(&self, i: int)
        requires
            self.wf(),
            0 <= i < self.n,
        ensures
            0 <= self.offsets@[i] <= self.offsets@[i + 1] <= self.neighbors@.len(),
            names_nodes(self.row(i), self.n as int),
            self.row(i).len() == self.offsets@[i + 1] - self.offsets@[i],
    {
        assert(self.offsets@[i] <= self.offsets@[i + 1]);
        assert(self.offsets@[i + 1] <= self.offsets@[self.n as int]);
        assert forall|j: int| 0 <= j < self.row(i).len() implies #[trigger] self.row(i)[j] < self.n by {
            assert(self.neighbors@[self.offsets@[i] + j] < self.n);
        }
    }
}

/// The first `done` rows of a graph under construction are those of `adj`.
spec fn holds_rows(
    offsets: Seq<u32>,
    neighbors: Seq<u32>,
    adj: Seq<Vec<u32>>,
    done: int,
    n: int,
) -> bool {
    &&& offsets_fit(offsets, neighbors.len() as int, done)
    &&& names_nodes(neighbors, n)
    &&& forall|i: int|
        0 <= i < done ==> neighbors.subrange(
            offsets[i] as int,
            (#[trigger] offsets[i + 1]) as int,
        ) == adj[i]@
}

proof fn next_row(
    offsets: Seq<u32>,
    neighbors: Seq<u32>,
    list: Seq<u32>,
    adj: Seq<Vec<u32>>,
    done: int,
    n: int,
)
    requires
        0 <= done < adj.len(),
        holds_rows(offsets, neighbors, adj, done, n),
        list == adj[done]@,
        names_nodes(list, n),
        neighbors.len() + list.len() <= u32::MAX,
    ensures
        holds_rows(
            offsets.push((neighbors.len() + list.len()) as u32),
            neighbors + list,
            adj,
            done + 1,
            n,
        ),
{
    let next = offsets.push((neighbors.len() + list.len()) as u32);
    let all = neighbors + list;
    assert forall|i: int, j: int| 0 <= i <= j <= done + 1 implies next[i] <= next[j] by {
        if j == done + 1 && i <= done {
            assert(offsets[i] <= offsets[done]);
        }
    }
    assert forall|i: int| 0 <= i < done + 1 implies all.subrange(
        next[i] as int,
        (#[trigger] next[i + 1]) as int,
    ) == adj[i]@ by {
        if i < done {
            assert(offsets[i] <= offsets[i + 1]);
            assert(offsets[i + 1] <= offsets[done]);
            assert(neighbors.subrange(offsets[i] as int, offsets[i + 1] as int) == adj[i]@);
            assert(all.subrange(next[i] as int, next[i + 1] as int) =~= neighbors.subrange(
                offsets[i] as int,
                offsets[i + 1] as int,
            ));
        } else {
            assert(all.subrange(next[i] as int, next[i + 1] as int) =~= list);
        }
    }
    assert forall|i: int| 0 <= i < all.len() implies #[trigger] all[i] < n by {
        if i < neighbors.len() {
            assert(all[i] == neighbors[i]);
        } else {
            assert(all[i] == list[i - neighbors.len()]);
        }
    }
}

proof fn entry_count_grows(adj: Seq<Vec<u32>>, i: int)
    requires
        0 <= i <= adj.len(),
    ensures
        entry_count(adj.take(i)) <= entry_count(adj),
    decreases adj.len(),
{
    if i == adj.len() {
        assert(adj.take(i) =~= adj);
    } else {
        entry_count_grows(adj.drop_last(), i);
        assert(adj.drop_last().take(i) =~= adj.take(i));
    }
}

proof fn distinct_count_grows(adj: Seq<Vec<u32>>, i: int)
    requires
        0 <= i <= adj.len(),
    ensures
        distinct_count(adj.take(i)) <= distinct_count(adj),
    decreases adj.len(),
{
    if i == adj.len() {
        assert(adj.take(i) =~= adj);
    } else {
        distinct_count_grows(adj.drop_last(), i);
        assert(adj.drop_last().take(i) =~= adj.take(i));
    }
}

/// A graph is determined by its rows.
pub proof fn rows_determine_graph(a: &Graph, b: &Graph)
    requires
        a.wf(),
        b.wf(),
        a.n == b.n,
        forall|i: int| 0 <= i < a.n ==> #[trigger] a.row(i) == b.row(i),
    ensures
        a.offsets@ == b.offsets@,
        a.neighbors@ == b.neighbors@,
{
    assert forall|i: int| 0 <= i <= a.n implies a.offsets@[i] == b.offsets@[i] by {
        rows_determine_offsets(a, b, i);
    }
    assert(a.offsets@ =~= b.offsets@);
    assert forall|p: int| 0 <= p < a.neighbors@.len() implies a.neighbors@[p] == b.neighbors@[p] by {
        let i = row_holding(a, p, a.n as int);
        assert(a.row(i) == b.row(i));
        assert(a.row(i)[p - a.offsets@[i]] == a.neighbors@[p]);
        assert(b.row(i)[p - a.offsets@[i]] == b.neighbors@[p]);
    }
    assert(a.neighbors@ =~= b.neighbors@);
}

proof fn rows_determine_offsets(a: &Graph, b: &Graph, i: int)
    requires
        a.wf(),
        b.wf(),
        a.n == b.n,
        forall|i: int| 0 <= i < a.n ==> #[trigger] a.row(i) == b.row(i),
        0 <= i <= a.n,
    ensures
        a.offsets@[i] == b.offsets@[i],
    decreases i,
{
    if i > 0 {
        rows_determine_offsets(a, b, i - 1);
        a.row_within(i - 1);
        b.row_within(i - 1);
        assert(a.row(i - 1) == b.row(i - 1));
    }
}

/// The node whose row holds position `p` of the neighbor storage.
proof fn row_holding(a: &Graph, p: int, bound: int) -> (i: int)
    requires
        a.wf(),
        0 < bound <= a.n || bound == 0,
        0 <= p < a.offsets@[bound],
    ensures
        0 <= i < a.n,
        a.offsets@[i] <= p < a.offsets@[i + 1],
    decreases bound,
{
    if a.offsets@[bound - 1] <= p {
        bound - 1
    } else {
        row_holding(a, p, bound - 1)
    }
}

/// A frozen graph has as many entries before row `i` as the lists there have
/// different ones.
proof fn frozen_before(graph: &Graph, adj: Seq<Vec<u32>>, i: int)
    requires
        freezes(graph, adj),
        0 <= i <= adj.len(),
    ensures
        graph.offsets@[i] == distinct_count(adj.take(i)),
    decreases i,
{
    if i > 0 {
        frozen_before(graph, adj, i - 1);
        assert(adj.take(i).drop_last() =~= adj.take(i - 1));
        let row = graph.row(i - 1);
        assert(ascending(row));
        ascending_is_sorted(row);
        row.unique_seq_to_set();
        assert(row.to_set() =~= adj[i - 1]@.to_set()) by {
            assert forall|x: u32| row.to_set().contains(x) <==> adj[i - 1]@.to_set().contains(x) by {
                assert(row.contains(x) <==> adj[i - 1]@.contains(x));
            }
        }
        assert(graph.offsets@[i - 1] <= graph.offsets@[i] <= graph.offsets@[graph.n as int]);
    }
}

/// Lists that a graph holds have no more different entries than its offsets
/// count.
pub proof fn frozen_lists_are_few(graph: &Graph, adj: Seq<Vec<u32>>)
    requires
        freezes(graph, adj),
    ensures
        distinct_count(adj) <= u32::MAX,
{
    frozen_before(graph, adj, adj.len() as int);
    assert(adj.take(adj.len() as int) =~= adj);
}

/// Leaving out repetitions leaves no more entries, and as many only where
/// there are none.
pub proof fn distinct_is_fewer(adj: Seq<Vec<u32>>)
    ensures
        distinct_count(adj) <= entry_count(adj),
        distinct_count(adj) == entry_count(adj) <==> forall|i: int|
            0 <= i < adj.len() ==> (#[trigger] adj[i])@.no_duplicates(),
    decreases adj.len(),
{
    if adj.len() > 0 {
        let few = adj.drop_last();
        let last = adj.last()@;
        distinct_is_fewer(few);
        last.lemma_cardinality_of_set();
        if last.no_duplicates() {
            last.unique_seq_to_set();
        }
        if last.to_set().len() == last.len() {
            last.lemma_no_dup_set_cardinality();
        }
        assert(last == adj[adj.len() - 1]@);
        assert forall|i: int| 0 <= i < few.len() implies (#[trigger] few[i]) == adj[i] by {}
        if forall|i: int| 0 <= i < adj.len() ==> (#[trigger] adj[i])@.no_duplicates() {
            assert forall|i: int| 0 <= i < few.len() implies (#[trigger] few[i])@.no_duplicates() by {
                assert(adj[i]@.no_duplicates());
            }
        }
        if distinct_count(adj) == entry_count(adj) {
            assert forall|i: int| 0 <= i < adj.len() implies (#[trigger] adj[i])@.no_duplicates() by {
                if i < few.len() {
                    assert(few[i]@.no_duplicates());
                }
            }
        }
    }
}

/// A snapshot has no more edges than the builder's lists have entries, and as
/// many exactly where no list repeats an identifier.
pub proof fn snapshot_leaves_out_repeats(builder: &AdjBuilder, graph: &Graph)
    requires
        freezes(graph, builder.adj@),
    ensures
        graph.neighbors@.len() <= entry_count(builder.adj@),
        graph.neighbors@.len() == entry_count(builder.adj@) <==> forall|i: int|
            0 <= i < builder.adj@.len() ==> (#[trigger] builder.adj@[i])@.no_duplicates(),
{
    let adj = builder.adj@;
    frozen_before(graph, adj, adj.len() as int);
    assert(adj.take(adj.len() as int) =~= adj);
    distinct_is_fewer(adj);
}

/// Freezing the same lists twice gives the same arrays: a snapshot and a final
/// build of one builder agree.
pub proof fn frozen_graph_is_unique(a: &Graph, b: &Graph, adj: Seq<Vec<u32>>)
    requires
        freezes(a, adj),
        freezes(b, adj),
    ensures
        a.offsets@ == b.offsets@,
        a.neighbors@ == b.neighbors@,
        a.n == b.n,
{
    assert forall|i: int| 0 <= i < a.n implies #[trigger] a.row(i) == b.row(i) by {
        assert(ascending(b.row(i)));
        ascending_is_unique(a.row(i), b.row(i));
    }
    rows_determine_graph(a, b);
}

/// Adjacency lists under construction.
pub struct AdjBuilder {
    pub adj: Vec<Vec<u32>>,
}

impl AdjBuilder {
    /// What holds of every valid value.
    pub open spec fn wf(&self) -> bool {
        &&& self.adj@.len() <= u32::MAX
        &&& lists_name_nodes(self.adj@, self.adj@.len() as int)
    }

    /// The builder with the edge from `src` to `dst` added.
    pub open spec fn with_edge(lists: Seq<Vec<u32>>, src: u32, dst: u32, after: Seq<Vec<u32>>) -> bool {
        &&& after.len() == lists.len()
        &&& after[src as int]@ == lists[src as int]@.push(dst)
        &&& forall|i: int| 0 <= i < lists.len() && i != src ==> #[trigger] after[i] == lists[i]
    }

    /// A builder for `n` nodes without edges.
    pub fn new(n: usize) -> (result: PrismResult<AdjBuilder>)
        ensures
            result is Ok <==> n <= u32::MAX,
            result is Err ==> refused_size(result),
            result matches Ok(builder) ==> builder.wf() && builder.adj@.len() == n && forall|i: int|
                0 <= i < n ==> (#[trigger] builder.adj@[i])@.len() == 0,
    {
        if n > u32::MAX as usize {
            return Err(overflow("graph node count exceeds the u32 identifier space"));
        }
        let mut adj: Vec<Vec<u32>> = Vec::new();
        while adj.len() < n
            invariant
                adj@.len() <= n,
                forall|i: int| 0 <= i < adj@.len() ==> (#[trigger] adj@[i])@.len() == 0,
            decreases n - adj@.len(),
        {
            adj.push(Vec::new());
        }
        Ok(AdjBuilder { adj })
    }

    /// Adds the edge from `src` to `dst`.
    pub fn add_edge(&mut self, src: u32, dst: u32) -> (result: PrismResult<()>)
        requires
            old(self).wf(),
        ensures
            final(self).wf(),
            result is Ok <==> src < old(self).adj@.len() && dst < old(self).adj@.len(),
            result is Err ==> refused_input(result) && final(self).adj@ == old(self).adj@,
            result is Ok ==> AdjBuilder::with_edge(old(self).adj@, src, dst, final(self).adj@),
    {
        if !self.has_node(src) || !self.has_node(dst) {
            return Err(invalid_input("graph node is outside the builder's range"));
        }
        let ghost before = self.adj@;
        self.adj[src as usize].push(dst);
        proof {
            still_names_nodes(before, self.adj@, src, dst);
        }
        Ok(())
    }

    /// Adds the edges between `a` and `b` in both directions.
    pub fn add_undirected(&mut self, a: u32, b: u32) -> (result: PrismResult<()>)
        requires
            old(self).wf(),
        ensures
            final(self).wf(),
            result is Ok <==> a < old(self).adj@.len() && b < old(self).adj@.len(),
            result is Err ==> refused_input(result) && final(self).adj@ == old(self).adj@,
            result is Ok ==> exists|mid: Seq<Vec<u32>>|
                #[trigger] AdjBuilder::with_edge(old(self).adj@, a, b, mid) && AdjBuilder::with_edge(
                    mid,
                    b,
                    a,
                    final(self).adj@,
                ),
    {
        if !self.has_node(a) || !self.has_node(b) {
            return Err(invalid_input("graph node is outside the builder's range"));
        }
        let ghost before = self.adj@;
        self.adj[a as usize].push(b);
        let ghost mid = self.adj@;
        proof {
            still_names_nodes(before, mid, a, b);
        }
        self.adj[b as usize].push(a);
        proof {
            still_names_nodes(mid, self.adj@, b, a);
            assert(AdjBuilder::with_edge(before, a, b, mid));
        }
        Ok(())
    }

    /// Current neighbors of node `i`.
    pub fn neighbors(&self, i: u32) -> (neighbors: Option<&[u32]>)
        ensures
            neighbors is Some <==> i < self.adj@.len(),
            neighbors matches Some(ids) ==> ids@ == self.adj@[i as int]@,
    {
        if (i as usize) < self.adj.len() {
            Some(self.adj[i as usize].as_slice())
        } else {
            None
        }
    }

    /// Number of edges added so far.
    pub fn total_edges(&self) -> (count: usize)
        requires
            entry_count(self.adj@) <= usize::MAX,
        ensures
            count == entry_count(self.adj@),
    {
        let mut total: usize = 0;
        let mut i: usize = 0;
        while i < self.adj.len()
            invariant
                i <= self.adj@.len(),
                total == entry_count(self.adj@.take(i as int)),
                entry_count(self.adj@) <= usize::MAX,
            decreases self.adj@.len() - i,
        {
            proof {
                assert(self.adj@.take(i + 1).drop_last() =~= self.adj@.take(i as int));
                entry_count_grows(self.adj@, i + 1);
            }
            total = total + self.adj[i].len();
            i = i + 1;
        }
        assert(self.adj@.take(self.adj@.len() as int) =~= self.adj@);
        total
    }

    /// The graph of the edges so far, without repeated edges.
    pub fn snapshot(&self) -> (result: PrismResult<Graph>)
        requires
            self.wf(),
        ensures
            result is Ok <==> countable(self.adj@.len() as int) && distinct_count(self.adj@)
                <= u32::MAX,
            result is Err ==> refused_size(result),
            result matches Ok(graph) ==> freezes(&graph, self.adj@),
    {
        freeze_adjacency_rows(&self.adj)
    }

    /// The final graph, without repeated edges.
    pub fn build(self) -> (result: PrismResult<Graph>)
        requires
            self.wf(),
        ensures
            result is Ok <==> countable(self.adj@.len() as int) && distinct_count(self.adj@)
                <= u32::MAX,
            result is Err ==> refused_size(result),
            result matches Ok(graph) ==> freezes(&graph, self.adj@),
    {
        freeze_adjacency_rows(&self.adj)
    }

    fn has_node(&self, node: u32) -> (known: bool)
        ensures
            known == (node < self.adj@.len()),
    {
        (node as usize) < self.adj.len()
    }
}

proof fn still_names_nodes(before: Seq<Vec<u32>>, after: Seq<Vec<u32>>, src: u32, dst: u32)
    requires
        lists_name_nodes(before, before.len() as int),
        src < before.len(),
        dst < before.len(),
        AdjBuilder::with_edge(before, src, dst, after),
    ensures
        lists_name_nodes(after, after.len() as int),
{
    assert forall|i: int| 0 <= i < after.len() implies names_nodes(
        (#[trigger] after[i])@,
        after.len() as int,
    ) by {
        assert(names_nodes(before[i]@, before.len() as int));
        if i == src {
            assert forall|c: int| 0 <= c < after[i]@.len() implies #[trigger] after[i]@[c] < after.len() by {
                if c < before[i]@.len() {
                    assert(before[i]@[c] < before.len());
                }
            }
        }
    }
}

/// Sorts each list, drops repetitions and packs the lists into a graph.
fn freeze_adjacency_rows(rows: &Vec<Vec<u32>>) -> (result: PrismResult<Graph>)
    requires
        rows@.len() <= u32::MAX,
        lists_name_nodes(rows@, rows@.len() as int),
    ensures
        result is Ok <==> countable(rows@.len() as int) && distinct_count(rows@) <= u32::MAX,
        result is Err ==> refused_size(result),
        result matches Ok(graph) ==> freezes(&graph, rows@),
{
    let n: usize = rows.len();
    if n == usize::MAX {
        return Err(overflow("graph offset count exceeds addressable memory"));
    }
    let mut offsets: Vec<u32> = Vec::new();
    let mut neighbors: Vec<u32> = Vec::new();
    offsets.push(0);
    let ghost mut packed: Seq<Vec<u32>> = Seq::empty();
    let mut node: usize = 0;
    while node < n
        invariant
            node <= n,
            n == rows@.len(),
            n <= u32::MAX,
            n < usize::MAX,
            lists_name_nodes(rows@, n as int),
            packed.len() == node,
            neighbors@.len() == distinct_count(rows@.take(node as int)),
            neighbors@.len() <= u32::MAX,
            holds_rows(offsets@, neighbors@, packed, node as int, n as int),
            forall|i: int|
                0 <= i < node ==> ascending((#[trigger] packed[i])@) && forall|x: u32|
                    packed[i]@.contains(x) <==> rows@[i]@.contains(x),
        decreases n - node,
    {
        let row = ascending_set(rows[node].as_slice());
        let ghost before = neighbors@;
        let ghost packed_before = packed;
        proof {
            packed = packed.push(row);
            assert(rows@.take(node + 1).drop_last() =~= rows@.take(node as int));
            distinct_count_grows(rows@, node + 1);
            ascending_is_sorted(row@);
            row@.unique_seq_to_set();
            assert(row@.to_set() =~= rows@[node as int]@.to_set());
            assert(names_nodes(row@, n as int)) by {
                assert forall|c: int| 0 <= c < row@.len() implies #[trigger] row@[c] < n by {
                    assert(row@.contains(row@[c]));
                    let list = rows@[node as int]@;
                    assert(names_nodes(list, n as int));
                    let w = choose|w: int| 0 <= w < list.len() && list[w] == row@[c];
                    assert(list[w] < n);
                }
            }
        }
        neighbors.extend_from_slice(row.as_slice());
        assert(neighbors@ =~= before + row@);
        if neighbors.len() > u32::MAX as usize {
            return Err(overflow("graph edge count exceeds the u32 offset space"));
        }
        proof {
            assert(holds_rows(offsets@, before, packed, node as int, n as int)) by {
                assert forall|i: int| 0 <= i < node implies before.subrange(
                    offsets@[i] as int,
                    (#[trigger] offsets@[i + 1]) as int,
                ) == packed[i]@ by {
                    assert(packed[i] == packed_before[i]);
                }
            }
            next_row(offsets@, before, row@, packed, node as int, n as int);
            assert forall|i: int| 0 <= i < node + 1 implies ascending((#[trigger] packed[i])@) && forall|x: u32|
                packed[i]@.contains(x) <==> rows@[i]@.contains(x) by {
                if i < node {
                    assert(packed[i] == packed_before[i]);
                }
            }
        }
        offsets.push(neighbors.len() as u32);
        node = node + 1;
    }
    let graph = Graph { offsets, neighbors, n };
    proof {
        assert(rows@.take(n as int) =~= rows@);
        assert forall|i: int| 0 <= i < n implies ascending(#[trigger] graph.row(i)) && forall|x: u32|
            graph.row(i).contains(x) <==> rows@[i]@.contains(x) by {
            assert(graph.row(i) == packed[i]@) by {
                assert(graph.neighbors@.subrange(
                    graph.offsets@[i] as int,
                    graph.offsets@[i + 1] as int,
                ) == packed[i]@);
            }
        }
    }
    Ok(graph)
}

} // verus!
