use crate::rank::{hrr, hrr_spec, is_square, magnitude, magnitude_of, names_of, rows};
use vstd::prelude::*;

verus! {

/// An undirected edge between `node_1` and `node_2`, with the correlation
/// image of the pair and a rank weight. It is stored at `node_1`, the
/// query side.
#[derive(Debug, Clone, Copy, PartialEq, Eq)]
pub struct Edge<T> {
    pub node_1: usize,
    pub node_2: usize,
    pub corr: i64,
    pub rank: T,
}

impl<T: Copy> Edge<T> {
    pub fn new(node_1: usize, node_2: usize, corr: i64, rank: T) -> (r: Self)
        ensures
            r == (Edge { node_1, node_2, corr, rank }),
    {
        Edge { node_1, node_2, corr, rank }
    }

    pub fn query(&self) -> (r: usize)
        ensures
            r == self.node_1,
    {
        self.node_1
    }

    pub fn target(&self) -> (r: usize)
        ensures
            r == self.node_2,
    {
        self.node_2
    }

    /// The names of both endpoints.
    pub fn node_names(&self, nodes: &Vec<Node<T>>) -> (r: (String, String))
        requires
            self.node_1 < nodes@.len(),
            self.node_2 < nodes@.len(),
        ensures
            r.0@ == nodes@[self.node_1 as int].name(),
            r.1@ == nodes@[self.node_2 as int].name(),
    {
        (nodes[self.node_1].to_string(), nodes[self.node_2].to_string())
    }
}

/// A named node and the edges stored at it.
#[derive(Debug, Clone)]
pub struct Node<T> {
    node_name: String,
    edges: Vec<Edge<T>>,
}

impl<T: Copy> Node<T> {
    pub closed spec fn name(&self) -> Seq<char> {
        self.node_name@
    }

    pub closed spec fn edge_list(&self) -> Seq<Edge<T>> {
        self.edges@
    }

    pub fn new(node_name: String) -> (r: Self)
        ensures
            r.name() == node_name@,
            r.edge_list() == Seq::<Edge<T>>::empty(),
    {
        Node { node_name, edges: Vec::new() }
    }

    pub fn push(&mut self, edge: Edge<T>)
        ensures
            final(self).name() == old(self).name(),
            final(self).edge_list() == old(self).edge_list().push(edge),
    {
        self.edges.push(edge);
    }

    pub fn edges(&self) -> (r: Vec<Edge<T>>)
        ensures
            r@ == self.edge_list(),
    {
        let mut out: Vec<Edge<T>> = Vec::new();
        let mut k: usize = 0;
        while k < self.edges.len()
            invariant
                k <= self.edges@.len(),
                out@ == self.edges@.take(k as int),
            decreases self.edges@.len() - k,
        {
            out.push(self.edges[k]);
            k += 1;
            assert(out@ =~= self.edges@.take(k as int));
        }
        assert(out@ =~= self.edges@);
        out
    }

    pub fn to_string(&self) -> (r: String)
        ensures
            r@ == self.name(),
    {
        self.node_name.clone()
    }
}

/// The rows of `rows`, one after another.
pub open spec fn concat_rows<E>(rows: Seq<Seq<E>>) -> Seq<E>
    decreases rows.len(),
{
    if rows.len() == 0 {
        Seq::empty()
    } else {
        concat_rows(rows.drop_last()) + rows.last()
    }
}

/// The edges of `edges` whose query side is `i`, in their order.
pub open spec fn edges_at<T>(edges: Seq<Edge<T>>, i: int) -> Seq<Edge<T>>
    decreases edges.len(),
{
    if edges.len() == 0 {
        Seq::empty()
    } else {
        let prev = edges_at(edges.drop_last(), i);
        if edges.last().node_1 == i {
            prev.push(edges.last())
        } else {
            prev
        }
    }
}

/// Whether a pair passes the correlation cutoff: its magnitude is not below
/// the cutoff.
pub open spec fn pcc_passes(c: i64, pcc_cutoff: Option<i64>) -> bool {
    match pcc_cutoff {
        None => true,
        Some(p) => magnitude(c) >= p,
    }
}

/// Whether a rank weight passes the rank cutoff: it is not above it.
pub open spec fn rank_passes(w: int, rank_cutoff: Option<usize>) -> bool {
    match rank_cutoff {
        None => true,
        Some(r) => w <= r,
    }
}

pub open spec fn hrr_weight(rank: Seq<Seq<usize>>, i: int, j: int) -> int {
    hrr_spec(rank[i][j] as int, rank[j][i] as int)
}

/// Whether the pair `i`, `j` becomes an edge of the HRR network.
pub open spec fn hrr_keeps(
    corr: Seq<Seq<i64>>,
    rank: Seq<Seq<usize>>,
    rank_cutoff: Option<usize>,
    pcc_cutoff: Option<i64>,
    i: int,
    j: int,
) -> bool {
    pcc_passes(corr[i][j], pcc_cutoff) && rank_passes(hrr_weight(rank, i, j), rank_cutoff)
}

pub open spec fn hrr_edge(corr: Seq<Seq<i64>>, rank: Seq<Seq<usize>>, i: int, j: int) -> Edge<
    usize,
> {
    Edge { node_1: i as usize, node_2: j as usize, corr: corr[i][j], rank: hrr_weight(rank, i, j) as usize }
}

/// The HRR edges stored at node `i` among the partners `j < upto`, in
/// ascending `j`.
pub open spec fn hrr_row(
    corr: Seq<Seq<i64>>,
    rank: Seq<Seq<usize>>,
    rank_cutoff: Option<usize>,
    pcc_cutoff: Option<i64>,
    i: int,
    upto: int,
) -> Seq<Edge<usize>>
    decreases upto - i,
{
    if upto <= i + 1 {
        Seq::empty()
    } else {
        let prev = hrr_row(corr, rank, rank_cutoff, pcc_cutoff, i, upto - 1);
        if hrr_keeps(corr, rank, rank_cutoff, pcc_cutoff, i, upto - 1) {
            prev.push(hrr_edge(corr, rank, i, upto - 1))
        } else {
            prev
        }
    }
}

/// The squared mutual rank of a pair: the product of its two directional
/// ranks. The mutual rank is its square root.
pub open spec fn mr_weight(rank: Seq<Seq<usize>>, i: int, j: int) -> int {
    rank[i][j] * rank[j][i]
}

/// Whether a squared mutual rank passes the rank cutoff, given as the
/// floor of the cutoff's square: for an integer `w` and a cutoff `c >= 0`,
/// `sqrt(w) <= c` exactly when `w <= floor(c * c)`.
pub open spec fn mr_passes(w: int, rank_cutoff: Option<u128>) -> bool {
    match rank_cutoff {
        None => true,
        Some(r) => w <= r,
    }
}

pub open spec fn mr_keeps(
    corr: Seq<Seq<i64>>,
    rank: Seq<Seq<usize>>,
    rank_cutoff: Option<u128>,
    pcc_cutoff: Option<i64>,
    i: int,
    j: int,
) -> bool {
    pcc_passes(corr[i][j], pcc_cutoff) && mr_passes(mr_weight(rank, i, j), rank_cutoff)
}

pub open spec fn mr_edge(corr: Seq<Seq<i64>>, rank: Seq<Seq<usize>>, i: int, j: int) -> Edge<u128> {
    Edge { node_1: i as usize, node_2: j as usize, corr: corr[i][j], rank: mr_weight(rank, i, j) as u128 }
}

/// The MR edges stored at node `i` among the partners `j < upto`, in
/// ascending `j`.
pub open spec fn mr_row(
    corr: Seq<Seq<i64>>,
    rank: Seq<Seq<usize>>,
    rank_cutoff: Option<u128>,
    pcc_cutoff: Option<i64>,
    i: int,
    upto: int,
) -> Seq<Edge<u128>>
    decreases upto - i,
{
    if upto <= i + 1 {
        Seq::empty()
    } else {
        let prev = mr_row(corr, rank, rank_cutoff, pcc_cutoff, i, upto - 1);
        if mr_keeps(corr, rank, rank_cutoff, pcc_cutoff, i, upto - 1) {
            prev.push(mr_edge(corr, rank, i, upto - 1))
        } else {
            prev
        }
    }
}

/// The HRR edges of every node of an `n`-node network, by node.
pub open spec fn hrr_rows(
    corr: Seq<Seq<i64>>,
    rank: Seq<Seq<usize>>,
    rank_cutoff: Option<usize>,
    pcc_cutoff: Option<i64>,
    n: int,
) -> Seq<Seq<Edge<usize>>> {
    Seq::new(n as nat, |i: int| hrr_row(corr, rank, rank_cutoff, pcc_cutoff, i, n))
}

/// The HRR edge set: one edge for each pair `i < j` that passes both
/// cutoffs, whatever order the pairs are visited in.
pub open spec fn hrr_edge_set(
    corr: Seq<Seq<i64>>,
    rank: Seq<Seq<usize>>,
    rank_cutoff: Option<usize>,
    pcc_cutoff: Option<i64>,
    n: int,
) -> Set<Edge<usize>> {
    Set::new(
        |e: Edge<usize>|
            exists|i: int, j: int|
                0 <= i < j < n && hrr_keeps(corr, rank, rank_cutoff, pcc_cutoff, i, j) && e
                    == #[trigger] hrr_edge(corr, rank, i, j),
    )
}

pub proof fn lemma_concat_rows_contains<E>(rows: Seq<Seq<E>>, e: E)
    ensures
        concat_rows(rows).contains(e) <==> exists|r: int|
            0 <= r < rows.len() && #[trigger] rows[r].contains(e),
    decreases rows.len(),
{
    if rows.len() > 0 {
        let prev = rows.drop_last();
        lemma_concat_rows_contains(prev, e);
        let all = concat_rows(rows);
        assert(all == concat_rows(prev) + rows.last());
        if all.contains(e) {
            let k = choose|k: int| 0 <= k < all.len() && all[k] == e;
            if k < concat_rows(prev).len() {
                assert(concat_rows(prev)[k] == e);
                let r = choose|r: int| 0 <= r < prev.len() && #[trigger] prev[r].contains(e);
                assert(rows[r] == prev[r]);
            } else {
                assert(rows.last()[k - concat_rows(prev).len()] == e);
                assert(rows[rows.len() - 1].contains(e));
            }
        }
        if exists|r: int| 0 <= r < rows.len() && #[trigger] rows[r].contains(e) {
            let r = choose|r: int| 0 <= r < rows.len() && #[trigger] rows[r].contains(e);
            let k = choose|k: int| 0 <= k < rows[r].len() && rows[r][k] == e;
            if r < rows.len() - 1 {
                assert(prev[r] == rows[r]);
                assert(concat_rows(prev).contains(e));
                let k2 = choose|k2: int| 0 <= k2 < concat_rows(prev).len() && concat_rows(prev)[k2] == e;
                assert(all[k2] == e);
            } else {
                assert(all[concat_rows(prev).len() + k] == e);
            }
        }
    }
}

pub proof fn lemma_hrr_row_contains(
    corr: Seq<Seq<i64>>,
    rank: Seq<Seq<usize>>,
    rank_cutoff: Option<usize>,
    pcc_cutoff: Option<i64>,
    i: int,
    upto: int,
    e: Edge<usize>,
)
    ensures
        hrr_row(corr, rank, rank_cutoff, pcc_cutoff, i, upto).contains(e) <==> exists|j: int|
            i < j < upto && hrr_keeps(corr, rank, rank_cutoff, pcc_cutoff, i, j) && e
                == #[trigger] hrr_edge(corr, rank, i, j),
    decreases upto - i,
{
    if upto > i + 1 {
        let prev = hrr_row(corr, rank, rank_cutoff, pcc_cutoff, i, upto - 1);
        lemma_hrr_row_contains(corr, rank, rank_cutoff, pcc_cutoff, i, upto - 1, e);
        let row = hrr_row(corr, rank, rank_cutoff, pcc_cutoff, i, upto);
        if row.contains(e) {
            let k = choose|k: int| 0 <= k < row.len() && row[k] == e;
            if k < prev.len() {
                assert(prev[k] == e);
            }
        }
        if exists|j: int|
            i < j < upto && hrr_keeps(corr, rank, rank_cutoff, pcc_cutoff, i, j) && e
                == #[trigger] hrr_edge(corr, rank, i, j) {
            let j = choose|j: int|
                i < j < upto && hrr_keeps(corr, rank, rank_cutoff, pcc_cutoff, i, j) && e
                    == #[trigger] hrr_edge(corr, rank, i, j);
            if j < upto - 1 {
                let k = choose|k: int| 0 <= k < prev.len() && prev[k] == e;
                assert(row[k] == e);
            } else {
                assert(row[row.len() - 1] == e);
            }
        }
    }
}

/// HRR construction is a function of the matrices and the cutoffs alone:
/// the edges of the network, taken over all nodes, are exactly the HRR edge
/// set, so no order of visiting the pairs gives another network.
pub proof fn lemma_hrr_network_is_edge_set(
    corr: Seq<Seq<i64>>,
    rank: Seq<Seq<usize>>,
    rank_cutoff: Option<usize>,
    pcc_cutoff: Option<i64>,
    n: int,
)
    requires
        n >= 0,
    ensures
        concat_rows(hrr_rows(corr, rank, rank_cutoff, pcc_cutoff, n)).to_set() == hrr_edge_set(
            corr,
            rank,
            rank_cutoff,
            pcc_cutoff,
            n,
        ),
{
    let rows = hrr_rows(corr, rank, rank_cutoff, pcc_cutoff, n);
    let all = concat_rows(rows);
    let set = hrr_edge_set(corr, rank, rank_cutoff, pcc_cutoff, n);
    assert forall|e: Edge<usize>| all.to_set().contains(e) <==> set.contains(e) by {
        lemma_concat_rows_contains(rows, e);
        if all.contains(e) {
            let r = choose|r: int| 0 <= r < rows.len() && #[trigger] rows[r].contains(e);
            lemma_hrr_row_contains(corr, rank, rank_cutoff, pcc_cutoff, r, n, e);
            let j = choose|j: int|
                r < j < n && hrr_keeps(corr, rank, rank_cutoff, pcc_cutoff, r, j) && e
                    == #[trigger] hrr_edge(corr, rank, r, j);
            assert(set.contains(e));
        }
        if set.contains(e) {
            let (i, j) = choose|i: int, j: int|
                0 <= i < j < n && hrr_keeps(corr, rank, rank_cutoff, pcc_cutoff, i, j) && e
                    == #[trigger] hrr_edge(corr, rank, i, j);
            lemma_hrr_row_contains(corr, rank, rank_cutoff, pcc_cutoff, i, n, e);
            assert(rows[i].contains(e));
        }
    }
    assert(all.to_set() =~= set);
}

/// Number of pairs `(i, j)`, `i < j < upto`, that the correlation cutoff
/// filters out.
pub open spec fn pcc_filtered_in_row(
    corr: Seq<Seq<i64>>,
    pcc_cutoff: Option<i64>,
    i: int,
    upto: int,
) -> nat
    decreases upto - i,
{
    if upto <= i + 1 {
        0
    } else {
        pcc_filtered_in_row(corr, pcc_cutoff, i, upto - 1) + if pcc_passes(
            corr[i][upto - 1],
            pcc_cutoff,
        ) {
            0nat
        } else {
            1nat
        }
    }
}

/// Number of pairs `i < j` of an `n`-node network, with `i < rows`, that
/// the correlation cutoff filters out.
pub open spec fn pcc_filtered(corr: Seq<Seq<i64>>, pcc_cutoff: Option<i64>, n: int, rows: int) -> nat
    decreases rows,
{
    if rows <= 0 {
        0
    } else {
        pcc_filtered(corr, pcc_cutoff, n, rows - 1) + pcc_filtered_in_row(
            corr,
            pcc_cutoff,
            rows - 1,
            n,
        )
    }
}

proof fn lemma_pcc_filtered_in_row_monotone(
    corr: Seq<Seq<i64>>,
    low: i64,
    high: i64,
    i: int,
    upto: int,
)
    requires
        low <= high,
    ensures
        pcc_filtered_in_row(corr, Some(low), i, upto) <= pcc_filtered_in_row(
            corr,
            Some(high),
            i,
            upto,
        ),
    decreases upto - i,
{
    if upto > i + 1 {
        lemma_pcc_filtered_in_row_monotone(corr, low, high, i, upto - 1);
    }
}

/// Raising the correlation cutoff filters out every pair it filtered out
/// before, and so never fewer pairs; every HRR edge kept under the higher
/// cutoff is kept under the lower one.
pub proof fn lemma_raising_pcc_cutoff_filters_more(
    corr: Seq<Seq<i64>>,
    rank: Seq<Seq<usize>>,
    rank_cutoff: Option<usize>,
    low: i64,
    high: i64,
    n: int,
)
    requires
        low <= high,
    ensures
        forall|c: i64| !pcc_passes(c, Some(low)) ==> !pcc_passes(c, Some(high)),
        pcc_filtered(corr, Some(low), n, n) <= pcc_filtered(corr, Some(high), n, n),
        forall|i: int, e: Edge<usize>|
            #[trigger] hrr_row(corr, rank, rank_cutoff, Some(high), i, n).contains(e) ==> hrr_row(
                corr,
                rank,
                rank_cutoff,
                Some(low),
                i,
                n,
            ).contains(e),
{
    lemma_pcc_filtered_monotone(corr, low, high, n, n);
    assert forall|i: int, e: Edge<usize>|
        #[trigger] hrr_row(corr, rank, rank_cutoff, Some(high), i, n).contains(e) implies hrr_row(
            corr,
            rank,
            rank_cutoff,
            Some(low),
            i,
            n,
        ).contains(e) by {
        lemma_hrr_row_contains(corr, rank, rank_cutoff, Some(high), i, n, e);
        lemma_hrr_row_contains(corr, rank, rank_cutoff, Some(low), i, n, e);
        let j = choose|j: int|
            i < j < n && hrr_keeps(corr, rank, rank_cutoff, Some(high), i, j) && e
                == #[trigger] hrr_edge(corr, rank, i, j);
        assert(hrr_keeps(corr, rank, rank_cutoff, Some(low), i, j));
    }
}

proof fn lemma_pcc_filtered_monotone(corr: Seq<Seq<i64>>, low: i64, high: i64, n: int, rows: int)
    requires
        low <= high,
    ensures
        pcc_filtered(corr, Some(low), n, rows) <= pcc_filtered(corr, Some(high), n, rows),
    decreases rows,
{
    if rows > 0 {
        lemma_pcc_filtered_monotone(corr, low, high, n, rows - 1);
        lemma_pcc_filtered_in_row_monotone(corr, low, high, rows - 1, n);
    }
}

/// The squared mutual rank of two directional ranks.
pub fn mr_squared(a: usize, b: usize) -> (r: u128)
    ensures
        r == a * b,
{
    let x = a as u128;
    let y = b as u128;
    assert(x * y <= u128::MAX) by (nonlinear_arith)
        requires
            x <= u64::MAX,
            y <= u64::MAX,
    ;
    x * y
}

pub(crate) fn pcc_check(c: i64, pcc_cutoff: Option<i64>) -> (r: bool)
    ensures
        r == pcc_passes(c, pcc_cutoff),
{
    match pcc_cutoff {
        None => true,
        Some(p) => p < 0 || magnitude_of(c) >= p as u64,
    }
}

/// A graph over named nodes. Each edge is stored once, at its query side.
#[derive(Debug, Clone)]
pub struct Graph<T> {
    nodes: Vec<Node<T>>,
}

impl<T: Copy> Graph<T> {
    /// The names of the nodes, by index.
    pub closed spec fn names(&self) -> Seq<Seq<char>> {
        self.nodes@.map_values(|n: Node<T>| n.name())
    }

    /// The edges stored at each node, by index.
    pub closed spec fn adjacency(&self) -> Seq<Seq<Edge<T>>> {
        self.nodes@.map_values(|n: Node<T>| n.edge_list())
    }

    /// Every edge is stored at its query side and ends at a node of the graph.
    pub open spec fn wf(&self) -> bool {
        &&& self.names().len() == self.adjacency().len()
        &&& forall|i: int, k: int|
            0 <= i < self.adjacency().len() && 0 <= k < self.adjacency()[i].len() ==> {
                let e = #[trigger] self.adjacency()[i][k];
                &&& e.node_1 == i
                &&& e.node_2 < self.adjacency().len()
            }
    }

    pub fn new(nodes: &Vec<String>) -> (r: Self)
        ensures
            r.wf(),
            r.names() == names_of(nodes@),
            r.adjacency().len() == nodes@.len(),
            forall|i: int| 0 <= i < nodes@.len() ==> #[trigger] r.adjacency()[i] == Seq::<
                Edge<T>,
            >::empty(),
    {
        let mut out: Vec<Node<T>> = Vec::new();
        let mut i: usize = 0;
        while i < nodes.len()
            invariant
                i <= nodes@.len(),
                out@.len() == i,
                forall|k: int| 0 <= k < i ==> (#[trigger] out@[k]).name() == nodes@[k]@,
                forall|k: int| 0 <= k < i ==> (#[trigger] out@[k]).edge_list() == Seq::<
                    Edge<T>,
                >::empty(),
            decreases nodes@.len() - i,
        {
            out.push(Node::new(nodes[i].clone()));
            i += 1;
        }
        let g = Graph { nodes: out };
        assert(g.names() =~= names_of(nodes@));
        g
    }

    /// A graph over `nodes` holding `edges`, each stored at its query side.
    pub fn from_edges(nodes: &Vec<String>, edges: &Vec<Edge<T>>) -> (r: Self)
        requires
            forall|k: int|
                0 <= k < edges@.len() ==> (#[trigger] edges@[k]).node_1 < nodes@.len()
                    && edges@[k].node_2 < nodes@.len(),
        ensures
            r.wf(),
            r.names() == names_of(nodes@),
            r.adjacency().len() == nodes@.len(),
            forall|i: int| 0 <= i < nodes@.len() ==> #[trigger] r.adjacency()[i] == edges_at(edges@, i),
    {
        let mut g = Graph::new(nodes);
        let mut k: usize = 0;
        while k < edges.len()
            invariant
                k <= edges@.len(),
                g.wf(),
                g.names() == names_of(nodes@),
                g.adjacency().len() == nodes@.len(),
                forall|k2: int|
                    0 <= k2 < edges@.len() ==> (#[trigger] edges@[k2]).node_1 < nodes@.len()
                        && edges@[k2].node_2 < nodes@.len(),
                forall|i: int|
                    0 <= i < nodes@.len() ==> #[trigger] g.adjacency()[i] == edges_at(
                        edges@.take(k as int),
                        i,
                    ),
            decreases edges@.len() - k,
        {
            let e = edges[k];
            g.push(e);
            k += 1;
            assert forall|i: int| 0 <= i < nodes@.len() implies #[trigger] g.adjacency()[i]
                == edges_at(edges@.take(k as int), i) by {
                assert(edges@.take(k as int).drop_last() =~= edges@.take(k - 1));
            }
        }
        assert(edges@.take(k as int) =~= edges@);
        g
    }

    /// Stores `edge` at its query side.
    fn push(&mut self, edge: Edge<T>)
        requires
            old(self).wf(),
            edge.node_1 < old(self).adjacency().len(),
            edge.node_2 < old(self).adjacency().len(),
        ensures
            final(self).wf(),
            final(self).names() == old(self).names(),
            final(self).adjacency() == old(self).adjacency().update(
                edge.node_1 as int,
                old(self).adjacency()[edge.node_1 as int].push(edge),
            ),
    {
        let query = edge.query();
        let ghost before = self.nodes@;
        self.nodes[query].push(edge);
        assert(self.nodes@ =~= before.update(query as int, self.nodes@[query as int]));
        assert(self.names() =~= before.map_values(|n: Node<T>| n.name()));
        assert(self.adjacency() =~= before.map_values(|n: Node<T>| n.edge_list()).update(
            query as int,
            before[query as int].edge_list().push(edge),
        ));
        assert forall|i: int, k: int|
            0 <= i < self.adjacency().len() && 0 <= k < self.adjacency()[i].len() implies {
            let e = #[trigger] self.adjacency()[i][k];
            &&& e.node_1 == i
            &&& e.node_2 < self.adjacency().len()
        } by {
            if i != query as int || k < self.adjacency()[i].len() - 1 {
                assert(self.adjacency()[i][k] == old(self).adjacency()[i][k]);
            }
        }
    }

    fn size(&self) -> (r: usize)
        ensures
            r == self.adjacency().len(),
    {
        self.nodes.len()
    }

    pub fn nodes(&self) -> (r: &Vec<Node<T>>)
        ensures
            r@.len() == self.adjacency().len(),
            forall|i: int| 0 <= i < r@.len() ==> (#[trigger] r@[i]).name() == self.names()[i],
            forall|i: int|
                0 <= i < r@.len() ==> (#[trigger] r@[i]).edge_list() == self.adjacency()[i],
    {
        &self.nodes
    }

    /// Every edge, node by node in index order, and in insertion order at
    /// each node.
    pub fn edges(&self) -> (r: Vec<Edge<T>>)
        ensures
            r@ == concat_rows(self.adjacency()),
    {
        let mut edges: Vec<Edge<T>> = Vec::new();
        let mut i: usize = 0;
        while i < self.nodes.len()
            invariant
                i <= self.nodes@.len(),
                edges@ == concat_rows(self.adjacency().take(i as int)),
            decreases self.nodes@.len() - i,
        {
            let mut more = self.nodes[i].edges();
            edges.append(&mut more);
            i += 1;
            assert(self.adjacency().take(i as int).drop_last() =~= self.adjacency().take(
                i - 1,
            ));
        }
        assert(self.adjacency().take(i as int) =~= self.adjacency());
        edges
    }
}

impl Graph<usize> {
    /// Adds the HRR network of `corr` and `rank`: for each pair `i < j`
    /// whose correlation magnitude is not below `pcc_cutoff` and whose
    /// highest reciprocal rank is not above `rank_cutoff`, an edge at `i`
    /// weighted by that rank.
    pub fn construct_hrr_network(
        &mut self,
        corr: &Vec<Vec<i64>>,
        rank: &Vec<Vec<usize>>,
        rank_cutoff: Option<usize>,
        pcc_cutoff: Option<i64>,
    )
        requires
            old(self).wf(),
            is_square(rows(corr@), old(self).adjacency().len() as int),
            is_square(rows(rank@), old(self).adjacency().len() as int),
        ensures
            final(self).wf(),
            final(self).names() == old(self).names(),
            final(self).adjacency().len() == old(self).adjacency().len(),
            forall|i: int|
                0 <= i < old(self).adjacency().len() ==> #[trigger] final(self).adjacency()[i]
                    == old(self).adjacency()[i] + hrr_row(
                    rows(corr@),
                    rows(rank@),
                    rank_cutoff,
                    pcc_cutoff,
                    i,
                    old(self).adjacency().len() as int,
                ),
    {
        let ghost c = rows(corr@);
        let ghost rk = rows(rank@);
        let ghost start = self.adjacency();
        let n = self.size();
        let mut i: usize = 0;
        while i < n
            invariant
                i <= n == start.len(),
                self.wf(),
                self.names() == old(self).names(),
                start == old(self).adjacency(),
                c == rows(corr@),
                rk == rows(rank@),
                is_square(c, n as int),
                is_square(rk, n as int),
                self.adjacency().len() == n,
                forall|k: int|
                    0 <= k < i ==> #[trigger] self.adjacency()[k] == start[k] + hrr_row(
                        c,
                        rk,
                        rank_cutoff,
                        pcc_cutoff,
                        k,
                        n as int,
                    ),
                forall|k: int| i <= k < n ==> #[trigger] self.adjacency()[k] == start[k],
            decreases n - i,
        {
            let mut j: usize = i + 1;
            assert(hrr_row(c, rk, rank_cutoff, pcc_cutoff, i as int, j as int) =~= Seq::empty());
            while j < n
                invariant
                    i < n == start.len(),
                    i + 1 <= j <= n,
                    self.wf(),
                    self.names() == old(self).names(),
                    c == rows(corr@),
                    rk == rows(rank@),
                    is_square(c, n as int),
                    is_square(rk, n as int),
                    self.adjacency().len() == n,
                    forall|k: int|
                        0 <= k < i ==> #[trigger] self.adjacency()[k] == start[k] + hrr_row(
                            c,
                            rk,
                            rank_cutoff,
                            pcc_cutoff,
                            k,
                            n as int,
                        ),
                    forall|k: int| i < k < n ==> #[trigger] self.adjacency()[k] == start[k],
                    self.adjacency()[i as int] == start[i as int] + hrr_row(
                        c,
                        rk,
                        rank_cutoff,
                        pcc_cutoff,
                        i as int,
                        j as int,
                    ),
                decreases n - j,
            {
                assert(c[i as int] == corr@[i as int]@);
                assert(rk[i as int] == rank@[i as int]@);
                assert(rk[j as int] == rank@[j as int]@);
                let cij = corr[i][j];
                let passes_pcc = pcc_check(cij, pcc_cutoff);
                if passes_pcc {
                    let w = hrr(rank[i][j], rank[j][i]);
                    let passes_rank = match rank_cutoff {
                        None => true,
                        Some(r) => w <= r,
                    };
                    if passes_rank {
                        self.push(Edge::new(i, j, cij, w));
                    }
                }
                j += 1;
                assert(self.adjacency()[i as int] =~= start[i as int] + hrr_row(
                    c,
                    rk,
                    rank_cutoff,
                    pcc_cutoff,
                    i as int,
                    j as int,
                ));
            }
            i += 1;
        }
    }
}

impl Graph<u128> {
    /// Adds the MR network of `corr` and `rank`: for each pair `i < j`
    /// whose correlation magnitude is not below `pcc_cutoff` and whose
    /// squared mutual rank is not above `rank_cutoff`, an edge at `i`
    /// weighted by the squared mutual rank. A cutoff `c` on the mutual rank
    /// is given as `floor(c * c)`, which keeps it exact.
    pub fn construct_mr_network(
        &mut self,
        corr: &Vec<Vec<i64>>,
        rank: &Vec<Vec<usize>>,
        rank_cutoff: Option<u128>,
        pcc_cutoff: Option<i64>,
    )
        requires
            old(self).wf(),
            is_square(rows(corr@), old(self).adjacency().len() as int),
            is_square(rows(rank@), old(self).adjacency().len() as int),
        ensures
            final(self).wf(),
            final(self).names() == old(self).names(),
            final(self).adjacency().len() == old(self).adjacency().len(),
            forall|i: int|
                0 <= i < old(self).adjacency().len() ==> #[trigger] final(self).adjacency()[i]
                    == old(self).adjacency()[i] + mr_row(
                    rows(corr@),
                    rows(rank@),
                    rank_cutoff,
                    pcc_cutoff,
                    i,
                    old(self).adjacency().len() as int,
                ),
    {
        let ghost c = rows(corr@);
        let ghost rk = rows(rank@);
        let ghost start = self.adjacency();
        let n = self.size();
        let mut i: usize = 0;
        while i < n
            invariant
                i <= n == start.len(),
                self.wf(),
                self.names() == old(self).names(),
                start == old(self).adjacency(),
                c == rows(corr@),
                rk == rows(rank@),
                is_square(c, n as int),
                is_square(rk, n as int),
                self.adjacency().len() == n,
                forall|k: int|
                    0 <= k < i ==> #[trigger] self.adjacency()[k] == start[k] + mr_row(
                        c,
                        rk,
                        rank_cutoff,
                        pcc_cutoff,
                        k,
                        n as int,
                    ),
                forall|k: int| i <= k < n ==> #[trigger] self.adjacency()[k] == start[k],
            decreases n - i,
        {
            let mut j: usize = i + 1;
            assert(mr_row(c, rk, rank_cutoff, pcc_cutoff, i as int, j as int) =~= Seq::empty());
            while j < n
                invariant
                    i < n == start.len(),
                    i + 1 <= j <= n,
                    self.wf(),
                    self.names() == old(self).names(),
                    c == rows(corr@),
                    rk == rows(rank@),
                    is_square(c, n as int),
                    is_square(rk, n as int),
                    self.adjacency().len() == n,
                    forall|k: int|
                        0 <= k < i ==> #[trigger] self.adjacency()[k] == start[k] + mr_row(
                            c,
                            rk,
                            rank_cutoff,
                            pcc_cutoff,
                            k,
                            n as int,
                        ),
                    forall|k: int| i < k < n ==> #[trigger] self.adjacency()[k] == start[k],
                    self.adjacency()[i as int] == start[i as int] + mr_row(
                        c,
                        rk,
                        rank_cutoff,
                        pcc_cutoff,
                        i as int,
                        j as int,
                    ),
                decreases n - j,
            {
                assert(c[i as int] == corr@[i as int]@);
                assert(rk[i as int] == rank@[i as int]@);
                assert(rk[j as int] == rank@[j as int]@);
                let cij = corr[i][j];
                let passes_pcc = pcc_check(cij, pcc_cutoff);
                if passes_pcc {
                    let w = mr_squared(rank[i][j], rank[j][i]);
                    let passes_rank = match rank_cutoff {
                        None => true,
                        Some(r) => w <= r,
                    };
                    if passes_rank {
                        self.push(Edge::new(i, j, cij, w));
                    }
                }
                j += 1;
                assert(self.adjacency()[i as int] =~= start[i as int] + mr_row(
                    c,
                    rk,
                    rank_cutoff,
                    pcc_cutoff,
                    i as int,
                    j as int,
                ));
            }
            i += 1;
        }
    }
}

} // verus!
