use crate::graph::{concat_rows, edges_at, lemma_concat_rows_contains, Edge, Graph, Node};
use crate::rank::names_of;
use vstd::prelude::*;

verus! {

/// One line of the edge-list interchange form: both endpoint names, the
/// correlation image and the rank.
#[derive(Debug, Clone)]
pub struct CsvRecord<T> {
    gene_1: String,
    gene_2: String,
    corr: i64,
    rank: T,
}

impl<T: Copy> View for CsvRecord<T> {
    type V = (Seq<char>, Seq<char>, i64, T);

    closed spec fn view(&self) -> Self::V {
        (self.gene_1@, self.gene_2@, self.corr, self.rank)
    }
}

impl<T: Copy> CsvRecord<T> {
    pub fn new(gene_1: String, gene_2: String, corr: i64, rank: T) -> (r: Self)
        ensures
            r@ == (gene_1@, gene_2@, corr, rank),
    {
        CsvRecord { gene_1, gene_2, corr, rank }
    }

    pub fn genes(&self) -> (r: (String, String))
        ensures
            r.0@ == self@.0,
            r.1@ == self@.1,
    {
        (self.gene_1.clone(), self.gene_2.clone())
    }

    pub fn corr(&self) -> (r: i64)
        ensures
            r == self@.2,
    {
        self.corr
    }

    pub fn rank(&self) -> (r: T)
        ensures
            r == self@.3,
    {
        self.rank
    }
}

/// The record written for edge `e` of a graph whose nodes are `names`.
pub open spec fn record_of<T>(e: Edge<T>, names: Seq<Seq<char>>) -> (Seq<char>, Seq<char>, i64, T) {
    (names[e.node_1 as int], names[e.node_2 as int], e.corr, e.rank)
}

pub open spec fn records_of<T>(edges: Seq<Edge<T>>, names: Seq<Seq<char>>) -> Seq<
    (Seq<char>, Seq<char>, i64, T),
> {
    edges.map_values(|e: Edge<T>| record_of(e, names))
}

/// Index of the first node named `name`, or -1 when there is none.
pub open spec fn index_of(names: Seq<Seq<char>>, name: Seq<char>) -> int
    decreases names.len(),
{
    if names.len() == 0 {
        -1
    } else {
        let p = index_of(names.drop_last(), name);
        if p >= 0 {
            p
        } else if names.last() == name {
            names.len() - 1
        } else {
            -1
        }
    }
}

/// The edge a record stands for, its endpoints found by name.
pub open spec fn edge_of<T>(r: (Seq<char>, Seq<char>, i64, T), names: Seq<Seq<char>>) -> Edge<T> {
    Edge {
        node_1: index_of(names, r.0) as usize,
        node_2: index_of(names, r.1) as usize,
        corr: r.2,
        rank: r.3,
    }
}

pub open spec fn edges_of<T>(records: Seq<(Seq<char>, Seq<char>, i64, T)>, names: Seq<Seq<char>>) -> Seq<
    Edge<T>,
> {
    records.map_values(|r: (Seq<char>, Seq<char>, i64, T)| edge_of(r, names))
}

pub open spec fn all_names_known<T>(
    records: Seq<(Seq<char>, Seq<char>, i64, T)>,
    names: Seq<Seq<char>>,
) -> bool {
    forall|k: int|
        0 <= k < records.len() ==> index_of(names, (#[trigger] records[k]).0) >= 0 && index_of(
            names,
            records[k].1,
        ) >= 0
}

proof fn lemma_index_of_bounds(names: Seq<Seq<char>>, name: Seq<char>)
    ensures
        -1 <= index_of(names, name) < names.len(),
        index_of(names, name) >= 0 ==> names[index_of(names, name)] == name,
        index_of(names, name) < 0 ==> !names.contains(name),
    decreases names.len(),
{
    if names.len() > 0 {
        lemma_index_of_bounds(names.drop_last(), name);
        if index_of(names, name) < 0 && names.contains(name) {
            let k = choose|k: int| 0 <= k < names.len() && names[k] == name;
            if k < names.len() - 1 {
                assert(names.drop_last()[k] == name);
            }
        }
    }
}

/// With pairwise distinct names, each node is found at its own index.
proof fn lemma_index_of_distinct(names: Seq<Seq<char>>, i: int)
    requires
        0 <= i < names.len(),
        names.no_duplicates(),
    ensures
        index_of(names, names[i]) == i,
    decreases names.len(),
{
    if i < names.len() - 1 {
        let front = names.drop_last();
        assert(front.no_duplicates());
        assert(front[i] == names[i]);
        lemma_index_of_distinct(front, i);
    } else {
        lemma_index_of_bounds(names.drop_last(), names[i]);
        if names.drop_last().contains(names[i]) {
            let k = choose|k: int| 0 <= k < names.len() - 1 && names.drop_last()[k] == names[i];
            assert(names[k] == names[i]);
        }
    }
}

fn find_name(names: &Vec<String>, name: &String) -> (r: Option<usize>)
    ensures
        r is Some <==> index_of(names_of(names@), name@) >= 0,
        r is Some ==> r->Some_0 == index_of(names_of(names@), name@),
{
    let ghost all = names_of(names@);
    let mut k: usize = 0;
    while k < names.len()
        invariant
            k <= names@.len(),
            all == names_of(names@),
            index_of(all.take(k as int), name@) == -1,
        decreases names@.len() - k,
    {
        assert(all.take(k + 1).drop_last() =~= all.take(k as int));
        if names[k].eq(name) {
            assert(all.take(k + 1).last() == name@);
            proof {
                lemma_index_of_prefix(all, k + 1, name@);
            }
            return Some(k);
        }
        k += 1;
    }
    assert(all.take(k as int) =~= all);
    None
}

/// A node found in a prefix of the names is found at the same index in all
/// of them.
proof fn lemma_index_of_prefix(names: Seq<Seq<char>>, len: int, name: Seq<char>)
    requires
        0 <= len <= names.len(),
        index_of(names.take(len), name) >= 0,
    ensures
        index_of(names, name) == index_of(names.take(len), name),
    decreases names.len() - len,
{
    if len < names.len() {
        assert(names.take(len + 1).drop_last() =~= names.take(len));
        lemma_index_of_prefix(names, len + 1, name);
    } else {
        assert(names.take(len) =~= names);
    }
}

impl<T: Copy> Edge<T> {
    /// The record of this edge, with the names of its endpoints.
    pub fn to_record(&self, nodes: &Vec<Node<T>>) -> (r: CsvRecord<T>)
        requires
            self.node_1 < nodes@.len(),
            self.node_2 < nodes@.len(),
        ensures
            r@ == record_of(*self, nodes@.map_values(|n: Node<T>| n.name())),
    {
        let (node_1_name, node_2_name) = self.node_names(nodes);
        CsvRecord::new(node_1_name, node_2_name, self.corr, self.rank)
    }
}

impl<T: Copy> Graph<T> {
    /// The records of all edges, in the order of `edges`.
    pub fn to_records(&self) -> (r: Vec<CsvRecord<T>>)
        requires
            self.wf(),
        ensures
            r@.map_values(|c: CsvRecord<T>| c@) == records_of(concat_rows(self.adjacency()), self.names()),
    {
        let edges = self.edges();
        let nodes = self.nodes();
        let ghost names = nodes@.map_values(|n: Node<T>| n.name());
        assert(names =~= self.names());
        let mut out: Vec<CsvRecord<T>> = Vec::new();
        let mut k: usize = 0;
        while k < edges.len()
            invariant
                k <= edges@.len(),
                self.wf(),
                edges@ == concat_rows(self.adjacency()),
                names == self.names(),
                nodes@.len() == self.adjacency().len(),
                names == nodes@.map_values(|n: Node<T>| n.name()),
                out@.map_values(|c: CsvRecord<T>| c@) == records_of(edges@.take(k as int), names),
            decreases edges@.len() - k,
        {
            let e = edges[k];
            proof {
                lemma_concat_rows_contains(self.adjacency(), e);
                assert(edges@.contains(e)) by {
                    assert(edges@[k as int] == e);
                }
                let r = choose|r: int|
                    0 <= r < self.adjacency().len() && #[trigger] self.adjacency()[r].contains(e);
                let p = choose|p: int|
                    0 <= p < self.adjacency()[r].len() && self.adjacency()[r][p] == e;
                assert(self.adjacency()[r][p].node_2 < self.adjacency().len());
            }
            let rec = e.to_record(nodes);
            let ghost before = out@;
            out.push(rec);
            assert(out@.map_values(|c: CsvRecord<T>| c@) =~= before.map_values(
                |c: CsvRecord<T>| c@,
            ).push(rec@));
            assert(edges@.take(k + 1) =~= edges@.take(k as int).push(e));
            k += 1;
            assert(out@.map_values(|c: CsvRecord<T>| c@) =~= records_of(edges@.take(k as int), names));
        }
        assert(edges@.take(k as int) =~= edges@);
        out
    }

    /// The graph over `nodes` that a list of records stands for, each
    /// endpoint found by name; `None` when a record names a node that is not
    /// among `nodes`.
    pub fn from_records(nodes: &Vec<String>, records: &Vec<CsvRecord<T>>) -> (r: Option<Self>)
        ensures
            r is Some <==> all_names_known(records@.map_values(|c: CsvRecord<T>| c@), names_of(nodes@)),
            r is Some ==> {
                let g = r->Some_0;
                &&& g.wf()
                &&& g.names() == names_of(nodes@)
                &&& g.adjacency().len() == nodes@.len()
                &&& forall|i: int|
                    0 <= i < nodes@.len() ==> #[trigger] g.adjacency()[i] == edges_at(
                        edges_of(records@.map_values(|c: CsvRecord<T>| c@), names_of(nodes@)),
                        i,
                    )
            },
    {
        let ghost names = names_of(nodes@);
        let ghost recs = records@.map_values(|c: CsvRecord<T>| c@);
        let mut edges: Vec<Edge<T>> = Vec::new();
        let mut k: usize = 0;
        while k < records.len()
            invariant
                k <= records@.len(),
                names == names_of(nodes@),
                recs == records@.map_values(|c: CsvRecord<T>| c@),
                all_names_known(recs.take(k as int), names),
                edges@ == edges_of(recs.take(k as int), names),
            decreases records@.len() - k,
        {
            let rec = &records[k];
            assert(recs[k as int] == rec@);
            let i1 = find_name(nodes, &rec.gene_1);
            let i2 = find_name(nodes, &rec.gene_2);
            match (i1, i2) {
                (Some(a), Some(b)) => {
                    edges.push(Edge::new(a, b, rec.corr, rec.rank));
                },
                _ => {
                    assert(!all_names_known(recs, names)) by {
                        assert(recs[k as int] == rec@);
                    }
                    return None;
                },
            }
            k += 1;
            assert(edges@ =~= edges_of(recs.take(k as int), names));
            assert forall|m: int| 0 <= m < k implies index_of(names, (#[trigger] recs.take(k as int)[m]).0)
                >= 0 && index_of(names, recs.take(k as int)[m].1) >= 0 by {
                if m < k - 1 {
                    assert(recs.take(k as int)[m] == recs.take(k - 1)[m]);
                }
            }
        }
        assert(recs.take(k as int) =~= recs);
        proof {
            assert forall|m: int| 0 <= m < edges@.len() implies (#[trigger] edges@[m]).node_1
                < nodes@.len() && edges@[m].node_2 < nodes@.len() by {
                lemma_index_of_bounds(names, recs[m].0);
                lemma_index_of_bounds(names, recs[m].1);
            }
        }
        Some(Graph::from_edges(nodes, &edges))
    }
}

/// Writing the records of a graph whose node names are pairwise distinct
/// and reading them back gives the graph again: the records stand for the
/// same edges, and each node gets back the edges stored at it.
pub proof fn lemma_records_round_trip<T>(names: Seq<Seq<char>>, adj: Seq<Seq<Edge<T>>>)
    requires
        names.no_duplicates(),
        names.len() == adj.len(),
        forall|i: int, k: int|
            0 <= i < adj.len() && 0 <= k < adj[i].len() ==> (#[trigger] adj[i][k]).node_1 == i
                && adj[i][k].node_2 < adj.len(),
    ensures
        all_names_known(records_of(concat_rows(adj), names), names),
        edges_of(records_of(concat_rows(adj), names), names) == concat_rows(adj),
        forall|i: int| 0 <= i < adj.len() ==> #[trigger] edges_at(concat_rows(adj), i) == adj[i],
{
    let all = concat_rows(adj);
    assert forall|k: int| 0 <= k < all.len() implies (#[trigger] all[k]).node_1 < adj.len()
        && all[k].node_2 < adj.len() by {
        lemma_concat_rows_contains(adj, all[k]);
        assert(all.contains(all[k]));
        let r = choose|r: int| 0 <= r < adj.len() && #[trigger] adj[r].contains(all[k]);
        let p = choose|p: int| 0 <= p < adj[r].len() && adj[r][p] == all[k];
    }
    assert forall|k: int| 0 <= k < all.len() implies #[trigger] edge_of(record_of(all[k], names), names)
        == all[k] by {
        lemma_index_of_distinct(names, all[k].node_1 as int);
        lemma_index_of_distinct(names, all[k].node_2 as int);
    }
    assert(edges_of(records_of(all, names), names) =~= all);
    assert forall|k: int| 0 <= k < records_of(all, names).len() implies index_of(
        names,
        (#[trigger] records_of(all, names)[k]).0,
    ) >= 0 && index_of(names, records_of(all, names)[k].1) >= 0 by {
        lemma_index_of_distinct(names, all[k].node_1 as int);
        lemma_index_of_distinct(names, all[k].node_2 as int);
    }
    lemma_edges_at_concat(adj, adj.len() as int);
    assert(adj.take(adj.len() as int) =~= adj);
}

/// Taking the edges of `i` from the rows before `upto` gives row `i` when
/// `i` is among them, and nothing otherwise.
proof fn lemma_edges_at_concat<T>(adj: Seq<Seq<Edge<T>>>, upto: int)
    requires
        0 <= upto <= adj.len(),
        forall|i: int, k: int|
            0 <= i < adj.len() && 0 <= k < adj[i].len() ==> (#[trigger] adj[i][k]).node_1 == i,
    ensures
        forall|i: int|
            0 <= i < adj.len() ==> #[trigger] edges_at(concat_rows(adj.take(upto)), i) == if i < upto {
                adj[i]
            } else {
                Seq::<Edge<T>>::empty()
            },
    decreases upto,
{
    if upto == 0 {
        assert(concat_rows(adj.take(0)) =~= Seq::<Edge<T>>::empty());
    } else {
        lemma_edges_at_concat(adj, upto - 1);
        assert(adj.take(upto).drop_last() =~= adj.take(upto - 1));
        let front = concat_rows(adj.take(upto - 1));
        let row = adj[upto - 1];
        assert forall|i: int| 0 <= i < adj.len() implies #[trigger] edges_at(
            concat_rows(adj.take(upto)),
            i,
        ) == if i < upto {
            adj[i]
        } else {
            Seq::<Edge<T>>::empty()
        } by {
            lemma_edges_at_append(front, row, i, upto - 1);
            if i == upto - 1 {
                assert(edges_at(front, i) =~= Seq::<Edge<T>>::empty());
            }
        }
    }
}

/// Appending a row whose edges all start at `r` adds the row to the edges
/// of `r` and nothing to any other node.
proof fn lemma_edges_at_append<T>(front: Seq<Edge<T>>, row: Seq<Edge<T>>, i: int, r: int)
    requires
        forall|k: int| 0 <= k < row.len() ==> (#[trigger] row[k]).node_1 == r,
    ensures
        edges_at(front + row, i) == if i == r {
            edges_at(front, i) + row
        } else {
            edges_at(front, i)
        },
    decreases row.len(),
{
    if row.len() == 0 {
        assert(front + row =~= front);
        assert(edges_at(front, i) + row =~= edges_at(front, i));
    } else {
        let shorter = row.drop_last();
        lemma_edges_at_append(front, shorter, i, r);
        assert((front + row).drop_last() =~= front + shorter);
        assert((front + row).last() == row.last());
        if i == r {
            assert(edges_at(front, i) + row =~= (edges_at(front, i) + shorter).push(row.last()));
        }
    }
}

} // verus!
