//! The disjointness graph over compressed nodes: node `i` is connected to
//! node `j` iff their letter-set masks share no bit.  Only the forward
//! half of the relation is materialized: the row of node `i` lists every
//! neighbor `j > i`, in ascending order.

use vstd::prelude::*;

verus! {

/// There is an edge between nodes `i` and `j` of `coded`: both indices are
/// in range, they are distinct, and the two masks share no bit.
pub open spec fn edge(coded: Seq<u32>, i: int, j: int) -> bool {
    &&& 0 <= i < coded.len()
    &&& 0 <= j < coded.len()
    &&& i != j
    &&& coded[i] & coded[j] == 0
}

/// The forward neighbors of node `i` with index below `m`: every `j` with
/// `i < j < m` whose mask is disjoint from node `i`'s, ascending.
pub open spec fn neighbors_upto(coded: Seq<u32>, i: int, m: int) -> Seq<usize>
    decreases m - i,
{
    if m <= i + 1 {
        Seq::<usize>::empty()
    } else {
        let rest = neighbors_upto(coded, i, m - 1);
        if coded[i] & coded[m - 1] == 0 {
            rest.push((m - 1) as usize)
        } else {
            rest
        }
    }
}

/// The full forward-neighbor row of node `i`.
pub open spec fn forward_row(coded: Seq<u32>, i: int) -> Seq<usize> {
    neighbors_upto(coded, i, coded.len() as int)
}

/// `graph` is exactly the forward adjacency list of `coded`.
pub open spec fn graph_wf(coded: Seq<u32>, graph: Seq<Vec<usize>>) -> bool {
    &&& graph.len() == coded.len()
    &&& forall|i: int| 0 <= i < coded.len() ==> graph[i]@ == forward_row(coded, i)
}

/// What a forward row holds: its entries lie strictly between `i` and `m`
/// and are mask-disjoint from node `i`; they ascend strictly; and every
/// such index occurs in the row.
pub proof fn lemma_neighbors_upto_props(coded: Seq<u32>, i: int, m: int)
    requires
        0 <= i,
        m - 1 <= usize::MAX,
    ensures
        forall|p: int|
            0 <= p < neighbors_upto(coded, i, m).len() ==> i < #[trigger] neighbors_upto(
                coded,
                i,
                m,
            )[p] < m && coded[i] & coded[neighbors_upto(coded, i, m)[p] as int] == 0,
        forall|p: int, q: int|
            0 <= p < q < neighbors_upto(coded, i, m).len() ==> neighbors_upto(coded, i, m)[p]
                < neighbors_upto(coded, i, m)[q],
        forall|j: int|
            i < j < m && coded[i] & coded[j] == 0 ==> neighbors_upto(coded, i, m).contains(
                j as usize,
            ),
    decreases m - i,
{
    if m <= i + 1 {
    } else {
        lemma_neighbors_upto_props(coded, i, m - 1);
        let rest = neighbors_upto(coded, i, m - 1);
        let row = neighbors_upto(coded, i, m);
        if coded[i] & coded[m - 1] == 0 {
            assert(row == rest.push((m - 1) as usize));
            assert(forall|p: int| 0 <= p < rest.len() ==> row[p] == rest[p]);
            assert(row[rest.len() as int] == (m - 1) as usize);
            assert forall|p: int| 0 <= p < row.len() implies i < row[p] < m && coded[i]
                & coded[row[p] as int] == 0 by {
                if p < rest.len() {
                    assert(row[p] == rest[p]);
                    assert(i < rest[p] < m - 1);
                } else {
                    assert(row[p] == (m - 1) as usize);
                }
            }
            assert forall|j: int|
                i < j < m && coded[i] & coded[j] == 0 implies row.contains(j as usize) by {
                if j < m - 1 {
                    assert(rest.contains(j as usize));
                    let p = choose|p: int| 0 <= p < rest.len() && rest[p] == j as usize;
                    assert(row[p] == j as usize);
                } else {
                    assert(row[rest.len() as int] == j as usize);
                }
            }
        } else {
            assert(row == rest);
        }
    }
}

/// Specialization of `lemma_neighbors_upto_props` to a full row.
pub proof fn lemma_row_props(coded: Seq<u32>, i: int)
    requires
        0 <= i,
        coded.len() <= usize::MAX,
    ensures
        forall|p: int|
            0 <= p < forward_row(coded, i).len() ==> i < #[trigger] forward_row(coded, i)[p]
                < coded.len() && coded[i] & coded[forward_row(coded, i)[p] as int] == 0,
        forall|p: int, q: int|
            0 <= p < q < forward_row(coded, i).len() ==> forward_row(coded, i)[p] < forward_row(
                coded,
                i,
            )[q],
        forall|j: int|
            i < j < coded.len() && coded[i] & coded[j] == 0 ==> forward_row(coded, i).contains(
                j as usize,
            ),
{
    lemma_neighbors_upto_props(coded, i, coded.len() as int);
}

/// The edge relation is symmetric, and in a well-formed forward graph the
/// edge {i, j} with i < j is recorded exactly once: in the row of `i`,
/// never in the row of `j`.
pub proof fn lemma_edge_symmetric(coded: Seq<u32>, graph: Seq<Vec<usize>>, i: int, j: int)
    requires
        graph_wf(coded, graph),
        coded.len() <= usize::MAX,
        0 <= i < j < coded.len(),
    ensures
        edge(coded, i, j) <==> edge(coded, j, i),
        edge(coded, i, j) <==> graph[i]@.contains(j as usize),
        !graph[j]@.contains(i as usize),
{
    let a = coded[i];
    let b = coded[j];
    assert(a & b == b & a) by (bit_vector);
    lemma_row_props(coded, i);
    lemma_row_props(coded, j);
    assert((j as usize) as int == j);
    assert((i as usize) as int == i);
    if graph[i]@.contains(j as usize) {
        let p = choose|p: int| 0 <= p < graph[i]@.len() && graph[i]@[p] == j as usize;
        assert(forward_row(coded, i)[p] == j as usize);
        assert(coded[i] & coded[forward_row(coded, i)[p] as int] == 0);
        assert(coded[i] & coded[j] == 0);
    }
    if graph[j]@.contains(i as usize) {
        let p = choose|p: int| 0 <= p < graph[j]@.len() && graph[j]@[p] == i as usize;
        assert(forward_row(coded, j)[p] == i as usize);
        assert(j < forward_row(coded, j)[p]);
    }
    if edge(coded, i, j) {
        assert(forward_row(coded, i).contains(j as usize));
    }
}

/// Builds the forward adjacency list: an all-pairs scan over `i < j`, one
/// ascending row per node.
pub fn create_graph(coded: &Vec<u32>) -> (graph: Vec<Vec<usize>>)
    ensures
        graph_wf(coded@, graph@),
{
    let n = coded.len();
    let mut graph: Vec<Vec<usize>> = Vec::new();
    let mut i: usize = 0;
    while i < n
        invariant
            n == coded@.len(),
            i <= n,
            graph@.len() == i,
            forall|t: int| 0 <= t < i ==> graph@[t]@ == forward_row(coded@, t),
        decreases n - i,
    {
        let mut row: Vec<usize> = Vec::new();
        let mut j: usize = i + 1;
        proof {
            assert(row@ =~= neighbors_upto(coded@, i as int, i + 1));
        }
        while j < n
            invariant
                n == coded@.len(),
                i < n,
                i + 1 <= j <= n,
                row@ == neighbors_upto(coded@, i as int, j as int),
            decreases n - j,
        {
            if coded[i] & coded[j] == 0 {
                row.push(j);
            }
            j += 1;
        }
        graph.push(row);
        i += 1;
    }
    graph
}

} // verus!
