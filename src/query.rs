use vstd::prelude::*;

verus! {

/// An edge read back from the edge-list form: its endpoints as node
/// indices, its correlation and its rank as images of the written numbers.
#[derive(Debug, Clone, Copy, PartialEq, Eq, Structural)]
pub struct QueryRecord {
    pub gene_1: usize,
    pub gene_2: usize,
    pub corr: i64,
    pub rank: i64,
}

/// A partner of a node in the symmetric adjacency, with the numbers of the
/// edge that joins them.
#[derive(Debug, Clone, Copy, PartialEq, Eq, Structural)]
pub struct Neighbor {
    pub node: usize,
    pub corr: i64,
    pub rank: i64,
}

/// Whether a record passes the cutoffs of the query: its correlation is not
/// below `pcc_cutoff` and its rank is not above `rank_cutoff`. The
/// correlation is compared with its sign.
pub open spec fn record_passes(r: QueryRecord, pcc_cutoff: Option<i64>, rank_cutoff: Option<i64>) -> bool {
    &&& match pcc_cutoff {
        None => true,
        Some(p) => r.corr >= p,
    }
    &&& match rank_cutoff {
        None => true,
        Some(c) => r.rank <= c,
    }
}

pub open spec fn touches(r: QueryRecord, node: int) -> bool {
    r.gene_1 == node || r.gene_2 == node
}

/// The records of `records` that touch `node` and pass both cutoffs, in
/// their order.
pub open spec fn touching(
    records: Seq<QueryRecord>,
    node: int,
    pcc_cutoff: Option<i64>,
    rank_cutoff: Option<i64>,
) -> Seq<QueryRecord>
    decreases records.len(),
{
    if records.len() == 0 {
        Seq::empty()
    } else {
        let prev = touching(records.drop_last(), node, pcc_cutoff, rank_cutoff);
        let r = records.last();
        if touches(r, node) && record_passes(r, pcc_cutoff, rank_cutoff) {
            prev.push(r)
        } else {
            prev
        }
    }
}

pub open spec fn has_neighbor(list: Seq<Neighbor>, node: int) -> bool {
    exists|k: int| 0 <= k < list.len() && (#[trigger] list[k]).node == node
}

/// Adds `to` as a partner of `from`, unless it is one already.
pub open spec fn link(adj: Seq<Seq<Neighbor>>, from: int, to: int, corr: i64, rank: i64) -> Seq<
    Seq<Neighbor>,
> {
    if has_neighbor(adj[from], to) {
        adj
    } else {
        adj.update(from, adj[from].push(Neighbor { node: to as usize, corr, rank }))
    }
}

/// The symmetric adjacency of `n` nodes after reading `records`: each
/// record that passes both cutoffs links both of its endpoints to each
/// other. The first record read between two nodes is the one kept.
pub open spec fn adjacency_of(
    n: nat,
    records: Seq<QueryRecord>,
    pcc_cutoff: Option<i64>,
    rank_cutoff: Option<i64>,
) -> Seq<Seq<Neighbor>>
    decreases records.len(),
{
    if records.len() == 0 {
        Seq::new(n, |i: int| Seq::<Neighbor>::empty())
    } else {
        let prev = adjacency_of(n, records.drop_last(), pcc_cutoff, rank_cutoff);
        let r = records.last();
        if record_passes(r, pcc_cutoff, rank_cutoff) {
            let once = link(prev, r.gene_1 as int, r.gene_2 as int, r.corr, r.rank);
            link(once, r.gene_2 as int, r.gene_1 as int, r.corr, r.rank)
        } else {
            prev
        }
    }
}

pub open spec fn edge_to(node: int, nb: Neighbor) -> QueryRecord {
    QueryRecord { gene_1: node as usize, gene_2: nb.node, corr: nb.corr, rank: nb.rank }
}

/// The records a depth-bounded walk emits from `node`, with `depth` steps
/// left, starting at its partner number `i`: for each partner, the edge to
/// it, then the walk from it with one step less.
pub open spec fn walk_from(adj: Seq<Seq<Neighbor>>, node: int, depth: nat, i: int) -> Seq<
    QueryRecord,
>
    decreases depth, adj[node].len() - i,
{
    if depth == 0 || node < 0 || node >= adj.len() || i < 0 || i >= adj[node].len() {
        Seq::empty()
    } else {
        let nb = adj[node][i];
        seq![edge_to(node, nb)] + walk_from(adj, nb.node as int, (depth - 1) as nat, 0)
            + walk_from(adj, node, depth, i + 1)
    }
}

/// Every partner in the adjacency is a node of it.
pub open spec fn adjacency_wf(adj: Seq<Seq<Neighbor>>) -> bool {
    forall|v: int, k: int|
        0 <= v < adj.len() && 0 <= k < adj[v].len() ==> (#[trigger] adj[v][k]).node < adj.len()
}

/// The partners of each node of a graph read back from its edge list,
/// whichever endpoint each edge was stored at.
pub struct Adjacency {
    neighbors: Vec<Vec<Neighbor>>,
}

impl Adjacency {
    pub closed spec fn view(&self) -> Seq<Seq<Neighbor>> {
        self.neighbors@.map_values(|l: Vec<Neighbor>| l@)
    }

    /// The symmetric adjacency of `n` nodes holding the records that pass
    /// both cutoffs.
    pub fn from_records(
        n: usize,
        records: &Vec<QueryRecord>,
        pcc_cutoff: Option<i64>,
        rank_cutoff: Option<i64>,
    ) -> (r: Self)
        requires
            forall|k: int|
                0 <= k < records@.len() ==> (#[trigger] records@[k]).gene_1 < n && records@[k].gene_2
                    < n,
        ensures
            r.view() == adjacency_of(n as nat, records@, pcc_cutoff, rank_cutoff),
            adjacency_wf(r.view()),
    {
        let mut neighbors: Vec<Vec<Neighbor>> = Vec::new();
        let mut i: usize = 0;
        while i < n
            invariant
                i <= n,
                neighbors@.len() == i,
                forall|k: int| 0 <= k < i ==> (#[trigger] neighbors@[k])@ == Seq::<Neighbor>::empty(),
            decreases n - i,
        {
            neighbors.push(Vec::new());
            i += 1;
        }
        let mut adj = Adjacency { neighbors };
        assert(adj.view() =~= adjacency_of(n as nat, records@.take(0), pcc_cutoff, rank_cutoff));
        let mut k: usize = 0;
        while k < records.len()
            invariant
                k <= records@.len(),
                forall|k2: int|
                    0 <= k2 < records@.len() ==> (#[trigger] records@[k2]).gene_1 < n
                        && records@[k2].gene_2 < n,
                adj.view() == adjacency_of(n as nat, records@.take(k as int), pcc_cutoff, rank_cutoff),
                adj.view().len() == n,
                adjacency_wf(adj.view()),
            decreases records@.len() - k,
        {
            let r = records[k];
            assert(records@.take(k + 1).drop_last() =~= records@.take(k as int));
            if passes_cutoffs(&r, pcc_cutoff, rank_cutoff) {
                adj.link(r.gene_1, r.gene_2, r.corr, r.rank);
                adj.link(r.gene_2, r.gene_1, r.corr, r.rank);
            }
            k += 1;
        }
        assert(records@.take(k as int) =~= records@);
        adj
    }

    fn link(&mut self, from: usize, to: usize, corr: i64, rank: i64)
        requires
            from < old(self).view().len(),
            to < old(self).view().len(),
            adjacency_wf(old(self).view()),
        ensures
            final(self).view() == link(old(self).view(), from as int, to as int, corr, rank),
            adjacency_wf(final(self).view()),
    {
        let ghost v = self.view();
        let mut k: usize = 0;
        let len = self.neighbors[from].len();
        assert(v[from as int] == self.neighbors@[from as int]@);
        while k < len
            invariant
                k <= len == v[from as int].len(),
                v == self.view(),
                adjacency_wf(v),
                from < v.len(),
                forall|j: int| 0 <= j < k ==> (#[trigger] v[from as int][j]).node != to,
            decreases len - k,
        {
            if self.neighbors[from][k].node == to {
                assert(has_neighbor(v[from as int], to as int));
                return;
            }
            k += 1;
        }
        self.neighbors[from].push(Neighbor { node: to, corr, rank });
        assert(self.view() =~= v.update(
            from as int,
            v[from as int].push(Neighbor { node: to, corr, rank }),
        ));
        assert forall|a: int, b: int|
            0 <= a < self.view().len() && 0 <= b < self.view()[a].len() implies (
            #[trigger] self.view()[a][b]).node < self.view().len() by {
            if a != from as int || b < v[a].len() {
                assert(self.view()[a][b] == v[a][b]);
            }
        }
    }

    /// Appends to `edges` the records of a walk from `query` that takes at
    /// most `depth_limit - depth` steps: for each partner, the edge to it,
    /// then the walk from it. Nodes may be visited again; only the depth
    /// bounds the walk.
    pub fn dfs(&self, query: usize, depth: usize, depth_limit: usize, edges: &mut Vec<QueryRecord>)
        requires
            depth <= depth_limit,
            adjacency_wf(self.view()),
        ensures
            final(edges)@ == old(edges)@ + walk_from(
                self.view(),
                query as int,
                (depth_limit - depth) as nat,
                0,
            ),
        decreases depth_limit - depth,
    {
        let ghost adj = self.view();
        let ghost d = (depth_limit - depth) as nat;
        let ghost start = edges@;
        if depth == depth_limit || query >= self.neighbors.len() {
            return;
        }
        let list = &self.neighbors[query];
        assert(list@ == adj[query as int]);
        let mut i: usize = 0;
        while i < list.len()
            invariant
                i <= list@.len(),
                list@ == adj[query as int],
                adj == self.view(),
                adjacency_wf(adj),
                query < adj.len(),
                depth < depth_limit,
                d == depth_limit - depth,
                start + walk_from(adj, query as int, d, 0) == edges@ + walk_from(
                    adj,
                    query as int,
                    d,
                    i as int,
                ),
            decreases list@.len() - i,
        {
            let nb = list[i];
            let ghost before = edges@;
            edges.push(QueryRecord { gene_1: query, gene_2: nb.node, corr: nb.corr, rank: nb.rank });
            self.dfs(nb.node, depth + 1, depth_limit, edges);
            assert(walk_from(adj, query as int, d, i as int) == seq![edge_to(query as int, nb)]
                + walk_from(adj, nb.node as int, (d - 1) as nat, 0) + walk_from(
                adj,
                query as int,
                d,
                i + 1,
            ));
            assert(edges@ == before + seq![edge_to(query as int, nb)] + walk_from(
                adj,
                nb.node as int,
                (d - 1) as nat,
                0,
            )) by {
                assert(edges@ =~= before.push(edge_to(query as int, nb)) + walk_from(
                    adj,
                    nb.node as int,
                    (d - 1) as nat,
                    0,
                ));
            }
            i += 1;
            assert(start + walk_from(adj, query as int, d, 0) =~= edges@ + walk_from(
                adj,
                query as int,
                d,
                i as int,
            ));
        }
    }
}

/// Whether record `r` joins `node` to the partner `nb`, with the numbers
/// that `nb` carries.
pub open spec fn joins(r: QueryRecord, node: int, nb: Neighbor) -> bool {
    &&& (r.gene_1 == node && r.gene_2 == nb.node) || (r.gene_2 == node && r.gene_1 == nb.node)
    &&& r.corr == nb.corr
    &&& r.rank == nb.rank
}

/// Some record of `records` that passes both cutoffs joins `node` to `nb`.
pub open spec fn read_from(
    records: Seq<QueryRecord>,
    pcc_cutoff: Option<i64>,
    rank_cutoff: Option<i64>,
    node: int,
    nb: Neighbor,
) -> bool {
    exists|k: int|
        0 <= k < records.len() && record_passes(records[k], pcc_cutoff, rank_cutoff) && joins(
            #[trigger] records[k],
            node,
            nb,
        )
}

/// Each partner in the adjacency comes from a record that passes both
/// cutoffs and joins the two nodes.
pub proof fn lemma_adjacency_from_records(
    n: nat,
    records: Seq<QueryRecord>,
    pcc_cutoff: Option<i64>,
    rank_cutoff: Option<i64>,
)
    requires
        forall|k: int|
            0 <= k < records.len() ==> (#[trigger] records[k]).gene_1 < n && records[k].gene_2 < n,
    ensures
        adjacency_of(n, records, pcc_cutoff, rank_cutoff).len() == n,
        forall|v: int, k: int|
            0 <= v < n && 0 <= k < adjacency_of(n, records, pcc_cutoff, rank_cutoff)[v].len()
                ==> read_from(
                records,
                pcc_cutoff,
                rank_cutoff,
                v,
                #[trigger] adjacency_of(n, records, pcc_cutoff, rank_cutoff)[v][k],
            ),
    decreases records.len(),
{
    if records.len() > 0 {
        let front = records.drop_last();
        lemma_adjacency_from_records(n, front, pcc_cutoff, rank_cutoff);
        let prev = adjacency_of(n, front, pcc_cutoff, rank_cutoff);
        let adj = adjacency_of(n, records, pcc_cutoff, rank_cutoff);
        let r = records.last();
        let last = records.len() - 1;
        assert forall|v: int, k: int| 0 <= v < n && 0 <= k < adj[v].len() implies read_from(
            records,
            pcc_cutoff,
            rank_cutoff,
            v,
            #[trigger] adj[v][k],
        ) by {
            if k < prev[v].len() && adj[v][k] == prev[v][k] {
                let k2 = choose|k2: int|
                    0 <= k2 < front.len() && record_passes(front[k2], pcc_cutoff, rank_cutoff)
                        && joins(#[trigger] front[k2], v, prev[v][k]);
                assert(records[k2] == front[k2]);
            } else {
                let once = link(prev, r.gene_1 as int, r.gene_2 as int, r.corr, r.rank);
                assert(records[last] == r);
                if k < once[v].len() && adj[v][k] == once[v][k] {
                    assert(joins(records[last], v, adj[v][k]));
                } else {
                    assert(joins(records[last], v, adj[v][k]));
                }
            }
        }
    }
}

/// With one step left, a walk from `node` emits exactly the edges from
/// `node` to its partners from number `i` on.
proof fn lemma_walk_one_step(adj: Seq<Seq<Neighbor>>, node: int, i: int, e: QueryRecord)
    requires
        0 <= i,
    ensures
        walk_from(adj, node, 1, i).contains(e) ==> exists|j: int|
            i <= j < adj[node].len() && 0 <= node < adj.len() && e == edge_to(
                node,
                #[trigger] adj[node][j],
            ),
    decreases adj[node].len() - i,
{
    if 0 <= node < adj.len() && i < adj[node].len() {
        lemma_walk_one_step(adj, node, i + 1, e);
        let nb = adj[node][i];
        let rest = walk_from(adj, node, 1, i + 1);
        assert(walk_from(adj, nb.node as int, 0, 0) =~= Seq::empty());
        assert(walk_from(adj, node, 1, i) =~= seq![edge_to(node, nb)] + rest);
        if walk_from(adj, node, 1, i).contains(e) {
            let k = choose|k: int|
                0 <= k < walk_from(adj, node, 1, i).len() && walk_from(adj, node, 1, i)[k] == e;
            if k > 0 {
                assert(rest[k - 1] == e);
            }
        }
    }
}

/// A walk of depth 0 emits nothing. A walk of depth 1 from `node` emits
/// only edges that leave `node`, each read from a record that touches
/// `node` and passes both cutoffs.
pub proof fn lemma_shallow_walks(
    n: nat,
    records: Seq<QueryRecord>,
    pcc_cutoff: Option<i64>,
    rank_cutoff: Option<i64>,
    node: int,
)
    requires
        forall|k: int|
            0 <= k < records.len() ==> (#[trigger] records[k]).gene_1 < n && records[k].gene_2 < n,
    ensures
        walk_from(adjacency_of(n, records, pcc_cutoff, rank_cutoff), node, 0, 0) == Seq::<
            QueryRecord,
        >::empty(),
        forall|e: QueryRecord|
            #[trigger] walk_from(adjacency_of(n, records, pcc_cutoff, rank_cutoff), node, 1, 0).contains(
                e,
            ) ==> e.gene_1 == node && exists|k: int|
                0 <= k < records.len() && touches(#[trigger] records[k], node) && record_passes(
                    records[k],
                    pcc_cutoff,
                    rank_cutoff,
                ) && records[k].corr == e.corr && records[k].rank == e.rank,
{
    let adj = adjacency_of(n, records, pcc_cutoff, rank_cutoff);
    assert(walk_from(adj, node, 0, 0) =~= Seq::empty());
    lemma_adjacency_from_records(n, records, pcc_cutoff, rank_cutoff);
    assert forall|e: QueryRecord| #[trigger] walk_from(adj, node, 1, 0).contains(e) implies e.gene_1
        == node && exists|k: int|
        0 <= k < records.len() && touches(#[trigger] records[k], node) && record_passes(
            records[k],
            pcc_cutoff,
            rank_cutoff,
        ) && records[k].corr == e.corr && records[k].rank == e.rank by {
        lemma_walk_one_step(adj, node, 0, e);
        let j = choose|j: int|
            0 <= j < adj[node].len() && 0 <= node < adj.len() && e == edge_to(
                node,
                #[trigger] adj[node][j],
            );
        let nb = adj[node][j];
        assert(read_from(records, pcc_cutoff, rank_cutoff, node, nb));
        let k = choose|k: int|
            0 <= k < records.len() && record_passes(records[k], pcc_cutoff, rank_cutoff) && joins(
                #[trigger] records[k],
                node,
                nb,
            );
        assert(touches(records[k], node));
    }
}

/// The partners of each of `n` nodes after reading `records`: each record
/// adds its second gene, with its rank, to the partners of its first, and
/// its first gene to those of its second, in the order of the records.
pub open spec fn partners_of(n: nat, records: Seq<QueryRecord>) -> Seq<Seq<(usize, i64)>>
    decreases records.len(),
{
    if records.len() == 0 {
        Seq::new(n, |i: int| Seq::<(usize, i64)>::empty())
    } else {
        let prev = partners_of(n, records.drop_last());
        let r = records.last();
        let once = prev.update(r.gene_1 as int, prev[r.gene_1 as int].push((r.gene_2, r.rank)));
        once.update(r.gene_2 as int, once[r.gene_2 as int].push((r.gene_1, r.rank)))
    }
}

/// The partners of each of `n` nodes, with the rank of the record that
/// joins them, whichever end of the record each node stands at.
pub fn partner_lists(n: usize, records: &Vec<QueryRecord>) -> (r: Vec<Vec<(usize, i64)>>)
    requires
        forall|k: int|
            0 <= k < records@.len() ==> (#[trigger] records@[k]).gene_1 < n && records@[k].gene_2
                < n,
    ensures
        r@.map_values(|l: Vec<(usize, i64)>| l@) == partners_of(n as nat, records@),
{
    let mut lists: Vec<Vec<(usize, i64)>> = Vec::new();
    while lists.len() < n
        invariant
            lists@.len() <= n,
            forall|i: int| 0 <= i < lists@.len() ==> (#[trigger] lists@[i])@ == Seq::<(usize, i64)>::empty(),
        decreases n - lists@.len(),
    {
        lists.push(Vec::new());
    }
    assert(lists@.map_values(|l: Vec<(usize, i64)>| l@) =~= partners_of(n as nat, records@.take(0)));
    let mut k: usize = 0;
    while k < records.len()
        invariant
            k <= records@.len(),
            lists@.len() == n,
            forall|k2: int|
                0 <= k2 < records@.len() ==> (#[trigger] records@[k2]).gene_1 < n
                    && records@[k2].gene_2 < n,
            lists@.map_values(|l: Vec<(usize, i64)>| l@) == partners_of(n as nat, records@.take(k as int)),
        decreases records@.len() - k,
    {
        let r = records[k];
        assert(records@.take(k + 1).drop_last() =~= records@.take(k as int));
        let ghost before = lists@.map_values(|l: Vec<(usize, i64)>| l@);
        lists[r.gene_1].push((r.gene_2, r.rank));
        let ghost middle = lists@.map_values(|l: Vec<(usize, i64)>| l@);
        assert(middle =~= before.update(r.gene_1 as int, before[r.gene_1 as int].push((r.gene_2, r.rank))));
        lists[r.gene_2].push((r.gene_1, r.rank));
        assert(lists@.map_values(|l: Vec<(usize, i64)>| l@) =~= middle.update(
            r.gene_2 as int,
            middle[r.gene_2 as int].push((r.gene_1, r.rank)),
        ));
        k += 1;
    }
    assert(records@.take(k as int) =~= records@);
    lists
}

/// Whether `r` passes both cutoffs.
pub fn passes_cutoffs(r: &QueryRecord, pcc_cutoff: Option<i64>, rank_cutoff: Option<i64>) -> (b:
    bool)
    ensures
        b == record_passes(*r, pcc_cutoff, rank_cutoff),
{
    let pcc_ok = match pcc_cutoff {
        None => true,
        Some(p) => r.corr >= p,
    };
    let rank_ok = match rank_cutoff {
        None => true,
        Some(c) => r.rank <= c,
    };
    pcc_ok && rank_ok
}

/// Whether an extraction keeps a record: one of its genes is listed and it
/// passes both cutoffs.
pub fn keep_for_extraction(
    gene_1_listed: bool,
    gene_2_listed: bool,
    r: &QueryRecord,
    pcc_cutoff: Option<i64>,
    rank_cutoff: Option<i64>,
) -> (b: bool)
    ensures
        b == ((gene_1_listed || gene_2_listed) && record_passes(*r, pcc_cutoff, rank_cutoff)),
{
    (gene_1_listed || gene_2_listed) && passes_cutoffs(r, pcc_cutoff, rank_cutoff)
}

/// The records that touch `node` and pass both cutoffs, in their order:
/// the answer to a query of depth 1.
pub fn edges_touching(
    records: &Vec<QueryRecord>,
    node: usize,
    pcc_cutoff: Option<i64>,
    rank_cutoff: Option<i64>,
) -> (r: Vec<QueryRecord>)
    ensures
        r@ == touching(records@, node as int, pcc_cutoff, rank_cutoff),
{
    let mut out: Vec<QueryRecord> = Vec::new();
    let mut k: usize = 0;
    while k < records.len()
        invariant
            k <= records@.len(),
            out@ == touching(records@.take(k as int), node as int, pcc_cutoff, rank_cutoff),
        decreases records@.len() - k,
    {
        let r = records[k];
        assert(records@.take(k + 1).drop_last() =~= records@.take(k as int));
        if (r.gene_1 == node || r.gene_2 == node) && passes_cutoffs(&r, pcc_cutoff, rank_cutoff) {
            out.push(r);
        }
        k += 1;
    }
    assert(records@.take(k as int) =~= records@);
    out
}

} // verus!
