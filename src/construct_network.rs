use crate::graph::{concat_rows, hrr_edge, hrr_keeps, hrr_row, hrr_rows, pcc_check, Edge};
use crate::rank::{hrr, is_square, rows};
use petgraph::Graph as PetGraph;
use petgraph::Undirected;
use vstd::prelude::*;

verus! {

#[verifier::external_type_specification]
#[verifier::external_body]
#[verifier::reject_recursive_types(N)]
#[verifier::reject_recursive_types(E)]
#[verifier::reject_recursive_types(Ty)]
#[verifier::reject_recursive_types(Ix)]
pub struct ExPetGraph<N, E, Ty, Ix>(PetGraph<N, E, Ty, Ix>);

#[verifier::external_type_specification]
#[verifier::external_body]
pub struct ExUndirected(Undirected);

/// The weight of an edge of a co-expression graph: the correlation image
/// of the pair and its rank.
#[derive(Debug, Clone, Copy, PartialEq, Eq, Structural)]
pub struct Weight {
    pub corr: i64,
    pub rank: usize,
}

/// The node weights of a petgraph graph, in index order.
pub uninterp spec fn petgraph_nodes(g: PetGraph<String, Weight, Undirected>) -> Seq<
    Seq<char>,
>;

/// The edges of a petgraph graph, in index order: both endpoints, the
/// correlation image and the rank.
pub uninterp spec fn petgraph_edges(g: PetGraph<String, Weight, Undirected>) -> Seq<
    (usize, usize, i64, usize),
>;

/// Relies on `petgraph::Graph::new_undirected`: a graph without nodes or
/// edges.
#[verifier::external_body]
fn new_undirected() -> (g: PetGraph<String, Weight, Undirected>)
    ensures
        petgraph_nodes(g) == Seq::<Seq<char>>::empty(),
        petgraph_edges(g) == Seq::<(usize, usize, i64, usize)>::empty(),
{
    PetGraph::new_undirected()
}

/// Relies on `petgraph::Graph::add_node`: the node is appended and its
/// index is the former node count. It panics only when the count reaches
/// the largest `u32`.
#[verifier::external_body]
fn add_node(g: &mut PetGraph<String, Weight, Undirected>, weight: String) -> (r:
    usize)
    requires
        petgraph_nodes(*old(g)).len() < u32::MAX,
    ensures
        r == petgraph_nodes(*old(g)).len(),
        petgraph_nodes(*final(g)) == petgraph_nodes(*old(g)).push(weight@),
        petgraph_edges(*final(g)) == petgraph_edges(*old(g)),
{
    g.add_node(weight).index()
}

/// Relies on `petgraph::Graph::add_edge`: the edge is appended. It panics
/// only on an endpoint that is not a node, or when the edge count reaches
/// the largest `u32`.
#[verifier::external_body]
fn add_edge(
    g: &mut PetGraph<String, Weight, Undirected>,
    a: usize,
    b: usize,
    weight: Weight,
)
    requires
        a < petgraph_nodes(*old(g)).len(),
        b < petgraph_nodes(*old(g)).len(),
        petgraph_edges(*old(g)).len() < u32::MAX,
    ensures
        petgraph_nodes(*final(g)) == petgraph_nodes(*old(g)),
        petgraph_edges(*final(g)) == petgraph_edges(*old(g)).push((a, b, weight.corr, weight.rank)),
{
    g.add_edge(petgraph::graph::NodeIndex::new(a), petgraph::graph::NodeIndex::new(b), weight);
}

/// The petgraph edges of a list of network edges: both endpoints, the
/// correlation image and the rank.
pub open spec fn petgraph_edges_of(edges: Seq<Edge<usize>>) -> Seq<(usize, usize, i64, usize)> {
    edges.map_values(|e: Edge<usize>| (e.node_1, e.node_2, e.corr, e.rank))
}

/// The HRR network of `corr` and `rank` as a petgraph graph: node `i` is
/// gene `i`, named `index[i]`, and each HRR edge, in the order of the pairs,
/// joins its two genes.
pub fn construct_hrr_network(
    index: &Vec<String>,
    corr: &Vec<Vec<i64>>,
    rank: &Vec<Vec<usize>>,
    rank_cutoff: Option<usize>,
    pcc_cutoff: Option<i64>,
) -> (g: PetGraph<String, Weight, Undirected>)
    requires
        is_square(rows(corr@), index@.len() as int),
        is_square(rows(rank@), index@.len() as int),
        index@.len() < u32::MAX,
        concat_rows(
            hrr_rows(rows(corr@), rows(rank@), rank_cutoff, pcc_cutoff, index@.len() as int),
        ).len() < u32::MAX,
    ensures
        petgraph_nodes(g) == index@.map_values(|s: String| s@),
        petgraph_edges(g) == petgraph_edges_of(
            concat_rows(
                hrr_rows(rows(corr@), rows(rank@), rank_cutoff, pcc_cutoff, index@.len() as int),
            ),
        ),
{
    let ghost c = rows(corr@);
    let ghost rk = rows(rank@);
    let ghost names = index@.map_values(|s: String| s@);
    let ghost all = hrr_rows(c, rk, rank_cutoff, pcc_cutoff, index@.len() as int);
    let mut gr = new_undirected();
    let n = index.len();
    let mut i: usize = 0;
    while i < n
        invariant
            i <= n == index@.len() < u32::MAX,
            names == index@.map_values(|s: String| s@),
            petgraph_nodes(gr) == names.take(i as int),
            petgraph_edges(gr) == Seq::<(usize, usize, i64, usize)>::empty(),
        decreases n - i,
    {
        add_node(&mut gr, index[i].clone());
        i += 1;
        assert(petgraph_nodes(gr) =~= names.take(i as int));
    }
    assert(names.take(n as int) =~= names);
    let ghost done: Seq<Edge<usize>> = Seq::empty();
    let mut i: usize = 0;
    assert(concat_rows(all.take(0)) =~= Seq::<Edge<usize>>::empty());
    assert(petgraph_edges_of(done) =~= Seq::<(usize, usize, i64, usize)>::empty());
    while i < n
        invariant
            i <= n == index@.len(),
            c == rows(corr@),
            rk == rows(rank@),
            names == index@.map_values(|s: String| s@),
            all == hrr_rows(c, rk, rank_cutoff, pcc_cutoff, n as int),
            is_square(c, n as int),
            is_square(rk, n as int),
            concat_rows(all).len() < u32::MAX,
            done == concat_rows(all.take(i as int)),
            petgraph_nodes(gr) == names,
            petgraph_edges(gr) == petgraph_edges_of(done),
        decreases n - i,
    {
        let mut j: usize = i + 1;
        let ghost row_start = done;
        proof {
            lemma_prefix_len(all, i as int + 1);
            assert(all.take(i + 1).drop_last() =~= all.take(i as int));
        }
        assert(hrr_row(c, rk, rank_cutoff, pcc_cutoff, i as int, j as int) =~= Seq::<
            Edge<usize>,
        >::empty());
        while j < n
            invariant
                i < n == index@.len(),
                i + 1 <= j <= n,
                c == rows(corr@),
                rk == rows(rank@),
                names == index@.map_values(|s: String| s@),
                all == hrr_rows(c, rk, rank_cutoff, pcc_cutoff, n as int),
                is_square(c, n as int),
                is_square(rk, n as int),
                concat_rows(all).len() < u32::MAX,
                row_start == concat_rows(all.take(i as int)),
                concat_rows(all.take(i + 1)).len() <= concat_rows(all).len(),
                concat_rows(all.take(i + 1)) == row_start + all[i as int],
                all[i as int] == hrr_row(c, rk, rank_cutoff, pcc_cutoff, i as int, n as int),
                done == row_start + hrr_row(c, rk, rank_cutoff, pcc_cutoff, i as int, j as int),
                petgraph_nodes(gr) == names,
                petgraph_edges(gr) == petgraph_edges_of(done),
            decreases n - j,
        {
            assert(c[i as int] == corr@[i as int]@);
            assert(rk[i as int] == rank@[i as int]@);
            assert(rk[j as int] == rank@[j as int]@);
            let cij = corr[i][j];
            let keep_pcc = pcc_check(cij, pcc_cutoff);
            let w = hrr(rank[i][j], rank[j][i]);
            let keep_rank = match rank_cutoff {
                None => true,
                Some(r) => w <= r,
            };
            assert(keep_pcc && keep_rank <==> hrr_keeps(
                c,
                rk,
                rank_cutoff,
                pcc_cutoff,
                i as int,
                j as int,
            ));
            if keep_pcc && keep_rank {
                let ghost e = hrr_edge(c, rk, i as int, j as int);
                proof {
                    lemma_row_prefix_len(
                        c,
                        rk,
                        rank_cutoff,
                        pcc_cutoff,
                        i as int,
                        j as int + 1,
                        n as int,
                    );
                    assert(hrr_row(c, rk, rank_cutoff, pcc_cutoff, i as int, j + 1) == hrr_row(
                        c,
                        rk,
                        rank_cutoff,
                        pcc_cutoff,
                        i as int,
                        j as int,
                    ).push(e));
                    assert(done.push(e).len() <= concat_rows(all).len());
                }
                add_edge(&mut gr, i, j, Weight { corr: cij, rank: w });
                proof {
                    assert(petgraph_edges_of(done.push(e)) =~= petgraph_edges_of(done).push(
                        (i, j, cij, w),
                    ));
                    done = done.push(e);
                }
            }
            j += 1;
            assert(done =~= row_start + hrr_row(
                c,
                rk,
                rank_cutoff,
                pcc_cutoff,
                i as int,
                j as int,
            ));
        }
        i += 1;
    }
    assert(all.take(n as int) =~= all);
    gr
}

/// The rows before `i` hold no more edges than all rows.
proof fn lemma_prefix_len<E>(all: Seq<Seq<E>>, i: int)
    requires
        0 <= i <= all.len(),
    ensures
        concat_rows(all.take(i)).len() <= concat_rows(all).len(),
    decreases all.len() - i,
{
    if i < all.len() {
        lemma_prefix_len(all, i + 1);
        assert(all.take(i + 1).drop_last() =~= all.take(i));
        assert(concat_rows(all.take(i + 1)) == concat_rows(all.take(i)) + all[i]);
    } else {
        assert(all.take(i) =~= all);
    }
}

/// A row cut at `upto` is no longer than the whole row.
proof fn lemma_row_prefix_len(
    c: Seq<Seq<i64>>,
    rk: Seq<Seq<usize>>,
    rank_cutoff: Option<usize>,
    pcc_cutoff: Option<i64>,
    i: int,
    upto: int,
    n: int,
)
    requires
        upto <= n,
    ensures
        hrr_row(c, rk, rank_cutoff, pcc_cutoff, i, upto).len()
            <= hrr_row(c, rk, rank_cutoff, pcc_cutoff, i, n).len(),
    decreases n - upto,
{
    if upto < n {
        lemma_row_prefix_len(c, rk, rank_cutoff, pcc_cutoff, i, upto + 1, n);
    }
}

} // verus!
