//! The clique search engine: an exhaustive depth-5 depth-first search over
//! the forward disjointness graph, with a running union mask and
//! degree-based pruning.  Every set of five pairwise-disjoint nodes is
//! emitted exactly once, as an ascending record.

use vstd::prelude::*;
use crate::graph::{forward_row, graph_wf, lemma_row_props};

verus! {

/// One compressed clique: five node indices, strictly ascending and
/// pairwise mask-disjoint whenever the record is valid.
#[derive(Clone, Copy, PartialEq, Eq, Structural, Debug)]
pub struct CliqueRecord {
    pub a: usize,
    pub b: usize,
    pub c: usize,
    pub d: usize,
    pub e: usize,
}

impl CliqueRecord {
    /// The five node indices as a sequence.
    pub open spec fn nodes(self) -> Seq<usize> {
        seq![self.a, self.b, self.c, self.d, self.e]
    }
}

/// A partial choice of nodes is valid: in range, strictly ascending, and
/// pairwise mask-disjoint.
pub open spec fn path_ok(coded: Seq<u32>, p: Seq<usize>) -> bool {
    &&& forall|x: int| 0 <= x < p.len() ==> (#[trigger] p[x]) < coded.len()
    &&& forall|x: int, y: int| 0 <= x < y < p.len() ==> p[x] < p[y]
    &&& forall|x: int, y: int|
        0 <= x < y < p.len() ==> coded[p[x] as int] & coded[p[y] as int] == 0
}

/// The union of the masks of the chosen nodes.
pub open spec fn path_mask(coded: Seq<u32>, p: Seq<usize>) -> u32
    decreases p.len(),
{
    if p.len() == 0 {
        0u32
    } else {
        path_mask(coded, p.drop_last()) | coded[p.last() as int]
    }
}

/// A valid five-clique in canonical ascending form.
pub open spec fn clique_valid(coded: Seq<u32>, r: CliqueRecord) -> bool {
    path_ok(coded, r.nodes())
}

/// `r` is a valid clique whose first `p.len()` chosen nodes are exactly `p`.
pub open spec fn completes(coded: Seq<u32>, p: Seq<usize>, r: CliqueRecord) -> bool {
    &&& path_ok(coded, r.nodes())
    &&& p.len() <= 5
    &&& r.nodes().take(p.len() as int) == p
}

/// The loop-progress statement of the search: `cur` holds `base` plus
/// exactly the cliques that complete `p0` through one of the first `t`
/// entries of `row`.
spec fn emitted_inv(
    coded: Seq<u32>,
    p0: Seq<usize>,
    row: Seq<usize>,
    t: int,
    base: Seq<CliqueRecord>,
    cur: Seq<CliqueRecord>,
) -> bool {
    forall|r: CliqueRecord|
        cur.contains(r) <==> base.contains(r) || (completes(coded, p0, r) && row.take(t).contains(
            r.nodes()[p0.len() as int],
        ))
}

proof fn lemma_or_mask(x: u32, y: u32, z: u32)
    ensures
        (x | y) & z == 0 ==> x & z == 0 && y & z == 0,
        (x | y) & z != 0 ==> x & z != 0 || y & z != 0,
        x & z == 0 && y & z == 0 ==> (x | y) & z == 0,
{
    assert(((x | y) & z == 0 ==> x & z == 0 && y & z == 0) && ((x | y) & z != 0 ==> x & z != 0
        || y & z != 0) && (x & z == 0 && y & z == 0 ==> (x | y) & z == 0)) by (bit_vector);
}

/// The union mask avoids `m` exactly when every chosen node's mask does.
proof fn lemma_path_mask_meets(coded: Seq<u32>, p: Seq<usize>, m: u32)
    ensures
        path_mask(coded, p) & m == 0 <==> (forall|x: int|
            0 <= x < p.len() ==> coded[#[trigger] p[x] as int] & m == 0),
    decreases p.len(),
{
    if p.len() == 0 {
        assert(0u32 & m == 0) by (bit_vector);
    } else {
        let q = p.drop_last();
        lemma_path_mask_meets(coded, q, m);
        lemma_or_mask(path_mask(coded, q), coded[p.last() as int], m);
        assert(forall|x: int| 0 <= x < q.len() ==> q[x] == p[x]);
        assert(p.last() == p[p.len() - 1]);
        if path_mask(coded, p) & m == 0 {
            assert forall|x: int| 0 <= x < p.len() implies coded[#[trigger] p[x] as int] & m
                == 0 by {
                if x < p.len() - 1 {
                    assert(p[x] == q[x]);
                } else {
                    assert(p[x] == p.last());
                }
            }
        }
        if forall|x: int| 0 <= x < p.len() ==> coded[#[trigger] p[x] as int] & m == 0 {
            assert forall|x: int| 0 <= x < q.len() implies coded[#[trigger] q[x] as int] & m
                == 0 by {
                assert(q[x] == p[x]);
            }
            assert(path_mask(coded, q) & m == 0);
            assert(coded[p.last() as int] & m == 0);
        }
    }
}

/// A strictly ascending sequence that contains every member of another
/// strictly ascending sequence is at least as long.
proof fn lemma_ascending_contains_len(row: Seq<usize>, vals: Seq<usize>)
    requires
        forall|p: int, q: int| 0 <= p < q < row.len() ==> row[p] < row[q],
        forall|p: int, q: int| 0 <= p < q < vals.len() ==> vals[p] < vals[q],
        forall|p: int| 0 <= p < vals.len() ==> row.contains(#[trigger] vals[p]),
    ensures
        row.len() >= vals.len(),
    decreases vals.len(),
{
    if vals.len() > 0 {
        let lastv = vals[vals.len() - 1];
        assert(row.contains(lastv));
        let q = choose|q: int| 0 <= q < row.len() && row[q] == lastv;
        let front = row.take(q);
        let rest = vals.drop_last();
        assert(forall|x: int| 0 <= x < front.len() ==> front[x] == row[x]);
        assert(forall|x: int| 0 <= x < rest.len() ==> rest[x] == vals[x]);
        assert forall|p: int| 0 <= p < rest.len() implies front.contains(#[trigger] rest[p]) by {
            assert(vals[p] < lastv);
            assert(row.contains(vals[p]));
            let t = choose|t: int| 0 <= t < row.len() && row[t] == vals[p];
            assert(t < q) by {
                if t > q {
                    assert(row[q] < row[t]);
                }
            }
            assert(front[t] == vals[p]);
        }
        lemma_ascending_contains_len(front, rest);
    }
}

/// Descends from the last node of `path`, trying every forward neighbor in
/// ascending order; emits into `out` exactly the cliques that extend
/// `path`, each once.
fn search_from(
    coded: &Vec<u32>,
    graph: &Vec<Vec<usize>>,
    path: &mut Vec<usize>,
    combined: u32,
    out: &mut Vec<CliqueRecord>,
)
    requires
        graph_wf(coded@, graph@),
        1 <= old(path)@.len() <= 5,
        path_ok(coded@, old(path)@),
        combined == path_mask(coded@, old(path)@),
        old(out)@.no_duplicates(),
        forall|r: CliqueRecord| old(out)@.contains(r) ==> !completes(coded@, old(path)@, r),
    ensures
        final(path)@ == old(path)@,
        final(out)@.no_duplicates(),
        forall|r: CliqueRecord|
            final(out)@.contains(r) <==> old(out)@.contains(r) || completes(
                coded@,
                old(path)@,
                r,
            ),
    decreases 5 - old(path)@.len(),
{
    let n = coded.len();
    let depth = path.len();
    if depth == 5 {
        let rec = CliqueRecord {
            a: path[0],
            b: path[1],
            c: path[2],
            d: path[3],
            e: path[4],
        };
        proof {
            assert(rec.nodes() =~= path@);
            assert forall|r: CliqueRecord| completes(coded@, path@, r) implies r == rec by {
                assert(r.nodes().take(5) =~= r.nodes());
                assert(r.nodes() == path@);
                assert(r.a == path@[0] && r.b == path@[1] && r.c == path@[2] && r.d == path@[3]
                    && r.e == path@[4]);
            }
            assert(completes(coded@, path@, rec)) by {
                assert(rec.nodes().take(5) =~= rec.nodes());
            }
        }
        let ghost pre = out@;
        out.push(rec);
        proof {
            assert(forall|x: int| 0 <= x < pre.len() ==> out@[x] == pre[x]);
            assert forall|x: int, y: int|
                0 <= x < out@.len() && 0 <= y < out@.len() && x != y implies out@[x]
                != out@[y] by {
                if y == pre.len() {
                    assert(pre.contains(pre[x]));
                } else if x == pre.len() {
                    assert(pre.contains(pre[y]));
                }
            }
            assert forall|r: CliqueRecord| #[trigger] out@.contains(r) implies pre.contains(r)
                || completes(coded@, path@, r) by {
                let x = choose|x: int| 0 <= x < out@.len() && out@[x] == r;
                if x < pre.len() {
                    assert(pre.contains(r));
                }
            }
            assert forall|r: CliqueRecord| pre.contains(r) || completes(coded@, path@, r)
                implies out@.contains(r) by {
                if pre.contains(r) {
                    let x = choose|x: int| 0 <= x < pre.len() && pre[x] == r;
                    assert(out@[x] == r);
                } else {
                    assert(out@[pre.len() as int] == rec);
                }
            }
            assert(pre == old(out)@ && path@ == old(path)@);
            assert(forall|r: CliqueRecord|
                out@.contains(r) <==> old(out)@.contains(r) || completes(coded@, old(path)@, r));
        }
        return ;
    }
    let last = path[depth - 1];
    proof {
        assert(path@[depth - 1] < coded@.len());
    }
    let ghost row = graph@[last as int]@;
    proof {
        assert(row == forward_row(coded@, last as int));
        lemma_row_props(coded@, last as int);
    }
    let row_len = graph[last].len();
    let ghost base = out@;
    let ghost p0 = path@;
    let mut t: usize = 0;
    proof {
        assert(row.take(0) =~= Seq::<usize>::empty());
        assert(emitted_inv(coded@, p0, row, 0, base, out@));
    }
    while t < row_len
        invariant
            graph_wf(coded@, graph@),
            1 <= depth < 5,
            depth == p0.len(),
            path@ == p0,
            p0 == old(path)@,
            path_ok(coded@, p0),
            combined == path_mask(coded@, p0),
            last == p0[depth - 1],
            last < coded@.len(),
            row == forward_row(coded@, last as int),
            row == graph@[last as int]@,
            row_len == row.len(),
            t <= row_len,
            n == coded@.len(),
            out@.no_duplicates(),
            forall|r: CliqueRecord| base.contains(r) ==> !completes(coded@, p0, r),
            emitted_inv(coded@, p0, row, t as int, base, out@),
        decreases row_len - t,
    {
        proof {
            lemma_row_props(coded@, last as int);
        }
        let cand = graph[last][t];
        proof {
            assert(row[t as int] == cand);
            assert(last < cand < coded@.len());
            assert(coded@[last as int] & coded@[cand as int] == 0);
            assert(row.take(t + 1) =~= row.take(t as int).push(cand));
            // the prefix before position t never holds the value at t
            assert forall|x: usize| row.take(t as int).contains(x) implies x < cand by {
                let p = choose|p: int| 0 <= p < t && row.take(t as int)[p] == x;
                assert(row[p] < row[t as int]);
            }
        }
        if combined & coded[cand] == 0 {
            proof {
                lemma_path_mask_meets(coded@, p0, coded@[cand as int]);
            }
            if graph[cand].len() >= 4 - depth {
                let ghost ext = p0.push(cand);
                proof {
                    assert(forall|x: int| 0 <= x < p0.len() ==> ext[x] == p0[x]);
                    assert(ext.last() == cand);
                    assert(path_ok(coded@, ext)) by {
                        assert forall|x: int, y: int| 0 <= x < y < ext.len() implies ext[x]
                            < ext[y] by {
                            if y == ext.len() - 1 {
                                if x < depth - 1 {
                                    assert(p0[x] < p0[depth - 1]);
                                }
                            }
                        }
                        assert forall|x: int, y: int|
                            0 <= x < y < ext.len() implies coded@[ext[x] as int]
                            & coded@[ext[y] as int] == 0 by {
                            if y == ext.len() - 1 {
                                assert(coded@[p0[x] as int] & coded@[cand as int] == 0);
                            }
                        }
                    }
                    assert(path_mask(coded@, ext) == combined | coded@[cand as int]) by {
                        assert(ext.drop_last() =~= p0);
                    }
                    // completing the extended path is completing `p0` through `cand`
                    assert forall|r: CliqueRecord| completes(coded@, ext, r) implies completes(
                        coded@,
                        p0,
                        r,
                    ) && r.nodes()[p0.len() as int] == cand by {
                        assert(r.nodes().take(depth + 1) == ext);
                        assert(ext.take(depth as int) =~= p0);
                        assert(r.nodes().take(depth as int) =~= r.nodes().take(depth + 1).take(
                            depth as int,
                        ));
                        assert(r.nodes().take(depth as int) == p0);
                        assert(ext[depth as int] == cand);
                        assert(r.nodes().take(depth + 1)[depth as int] == r.nodes()[depth as int]);
                        assert(r.nodes()[depth as int] == cand);
                    }
                    assert forall|r: CliqueRecord| completes(coded@, p0, r)
                        && r.nodes()[p0.len() as int] == cand implies completes(
                        coded@,
                        ext,
                        r,
                    ) by {
                        assert(r.nodes().take(depth + 1) =~= r.nodes().take(depth as int).push(
                            r.nodes()[depth as int],
                        ));
                    }
                    // nothing emitted so far completes the extended path
                    assert forall|r: CliqueRecord| out@.contains(r) implies !completes(
                        coded@,
                        ext,
                        r,
                    ) by {
                        if completes(coded@, ext, r) {
                            assert(completes(coded@, p0, r));
                            assert(!base.contains(r));
                            assert(row.take(t as int).contains(r.nodes()[p0.len() as int]));
                            assert(r.nodes()[p0.len() as int] == cand);
                        }
                    }
                }
                let ghost mid = out@;
                path.push(cand);
                search_from(coded, graph, path, combined | coded[cand], out);
                let _ = path.pop();
                proof {
                    assert(path@ =~= p0);
                    assert forall|r: CliqueRecord|
                        out@.contains(r) <==> base.contains(r) || (completes(coded@, p0, r)
                            && row.take(t + 1).contains(r.nodes()[p0.len() as int])) by {
                        assert(emitted_inv(coded@, p0, row, t as int, base, mid));
                        if out@.contains(r) {
                            if mid.contains(r) {
                                if !base.contains(r) {
                                    assert(row.take(t + 1).contains(
                                        r.nodes()[p0.len() as int],
                                    )) by {
                                        let p = choose|p: int|
                                            0 <= p < t && row.take(t as int)[p] == r.nodes()[p0.len() as int];
                                        assert(row.take(t + 1)[p] == r.nodes()[p0.len() as int]);
                                    }
                                }
                            } else {
                                assert(completes(coded@, ext, r));
                                assert(row.take(t + 1).last() == cand);
                            }
                        }
                        if base.contains(r) {
                            assert(mid.contains(r));
                            assert(out@.contains(r));
                        } else if completes(coded@, p0, r) && row.take(t + 1).contains(
                            r.nodes()[p0.len() as int],
                        ) {
                            let nd = r.nodes()[p0.len() as int];
                            if nd == cand {
                                assert(completes(coded@, ext, r));
                                assert(out@.contains(r));
                            } else {
                                let p = choose|p: int|
                                    0 <= p < t + 1 && #[trigger] row.take(t + 1)[p] == nd;
                                assert(p < t);
                                assert(row.take(t as int)[p] == nd);
                                assert(row.take(t as int).contains(nd));
                                assert(mid.contains(r));
                                assert(out@.contains(r));
                            }
                        }
                    }
                    assert(emitted_inv(coded@, p0, row, t + 1, base, out@));
                }
            } else {
                proof {
                    // a candidate with too few forward neighbors completes nothing
                    assert forall|r: CliqueRecord| !(completes(coded@, p0, r)
                        && r.nodes()[p0.len() as int] == cand) by {
                        if completes(coded@, p0, r) && r.nodes()[p0.len() as int] == cand {
                            let nodes = r.nodes();
                            let vals = nodes.skip(depth + 1);
                            assert(forall|x: int|
                                0 <= x < vals.len() ==> vals[x] == nodes[x + depth + 1]);
                            lemma_row_props(coded@, cand as int);
                            let crow = forward_row(coded@, cand as int);
                            assert forall|p: int| 0 <= p < vals.len() implies crow.contains(
                                #[trigger] vals[p],
                            ) by {
                                assert(nodes[depth as int] < nodes[p + depth + 1]);
                                assert(coded@[nodes[depth as int] as int] & coded@[nodes[p + depth
                                    + 1] as int] == 0);
                                assert(crow.contains(nodes[p + depth + 1] as usize));
                            }
                            assert forall|p: int, q: int| 0 <= p < q < vals.len() implies vals[p]
                                < vals[q] by {
                                assert(nodes[p + depth + 1] < nodes[q + depth + 1]);
                            }
                            lemma_ascending_contains_len(crow, vals);
                            assert(crow.len() >= 4 - depth);
                            assert(graph@[cand as int]@ == crow);
                        }
                    }
                    assert forall|r: CliqueRecord|
                        out@.contains(r) <==> base.contains(r) || (completes(coded@, p0, r)
                            && row.take(t + 1).contains(r.nodes()[p0.len() as int])) by {
                        if !base.contains(r) && completes(coded@, p0, r) && row.take(t + 1).contains(
                            r.nodes()[p0.len() as int],
                        ) {
                            let nd = r.nodes()[p0.len() as int];
                            assert(nd != cand);
                            let p = choose|p: int|
                                0 <= p < t + 1 && #[trigger] row.take(t + 1)[p] == nd;
                            assert(p < t);
                            assert(row.take(t as int)[p] == nd);
                            assert(row.take(t as int).contains(nd));
                        } else if !base.contains(r) && completes(coded@, p0, r) && row.take(
                            t as int,
                        ).contains(r.nodes()[p0.len() as int]) {
                            let nd = r.nodes()[p0.len() as int];
                            let p = choose|p: int| 0 <= p < t && row.take(t as int)[p] == nd;
                            assert(row.take(t + 1)[p] == nd);
                        }
                    }
                    assert(emitted_inv(coded@, p0, row, t + 1, base, out@));
                }
            }
        } else {
            proof {
                lemma_path_mask_meets(coded@, p0, coded@[cand as int]);
                // some chosen node shares a letter with `cand`, so nothing
                // completes `p0` through `cand`
                let x = choose|x: int|
                    0 <= x < p0.len() && coded@[#[trigger] p0[x] as int] & coded@[cand as int]
                        != 0;
                assert forall|r: CliqueRecord| !(completes(coded@, p0, r)
                    && r.nodes()[p0.len() as int] == cand) by {
                    if completes(coded@, p0, r) && r.nodes()[p0.len() as int] == cand {
                        assert(r.nodes().take(depth as int)[x] == r.nodes()[x]);
                        assert(r.nodes()[x] == p0[x]);
                        assert(coded@[r.nodes()[x] as int] & coded@[r.nodes()[depth as int] as int]
                            == 0);
                    }
                }
                assert forall|r: CliqueRecord|
                    out@.contains(r) <==> base.contains(r) || (completes(coded@, p0, r)
                        && row.take(t + 1).contains(r.nodes()[p0.len() as int])) by {
                    if !base.contains(r) && completes(coded@, p0, r) && row.take(t + 1).contains(
                        r.nodes()[p0.len() as int],
                    ) {
                        let nd = r.nodes()[p0.len() as int];
                        assert(nd != cand);
                        let p = choose|p: int|
                            0 <= p < t + 1 && #[trigger] row.take(t + 1)[p] == nd;
                        assert(p < t);
                        assert(row.take(t as int)[p] == nd);
                        assert(row.take(t as int).contains(nd));
                    } else if !base.contains(r) && completes(coded@, p0, r) && row.take(
                        t as int,
                    ).contains(r.nodes()[p0.len() as int]) {
                        let nd = r.nodes()[p0.len() as int];
                        let p = choose|p: int| 0 <= p < t && row.take(t as int)[p] == nd;
                        assert(row.take(t + 1)[p] == nd);
                    }
                }
                assert(emitted_inv(coded@, p0, row, t + 1, base, out@));
            }
        }
        t += 1;
    }
    proof {
        lemma_row_props(coded@, last as int);
        assert(row.take(row_len as int) =~= row);
        // once the whole row is scanned, every completion has been through it
        assert forall|r: CliqueRecord| completes(coded@, p0, r) implies row.contains(
            r.nodes()[p0.len() as int],
        ) by {
            let nodes = r.nodes();
            let nd = nodes[depth as int];
            assert(nodes.take(depth as int)[depth - 1] == nodes[depth - 1]);
            assert(nodes[depth - 1] == last);
            assert(last < nd);
            assert(coded@[last as int] & coded@[nd as int] == 0);
            assert(row.contains(nd as usize));
        }
        assert forall|r: CliqueRecord|
            out@.contains(r) <==> base.contains(r) || completes(coded@, p0, r) by {
            assert(emitted_inv(coded@, p0, row, row_len as int, base, out@));
            if completes(coded@, p0, r) {
                assert(row.take(row_len as int).contains(r.nodes()[p0.len() as int]));
            }
        }
    }
}

/// Exhaustively enumerates every five-node clique of the forward graph:
/// the result holds a record exactly once for every choice of five
/// pairwise-disjoint nodes, each record in ascending-index form.
pub fn find_cliques(coded: &Vec<u32>, graph: &Vec<Vec<usize>>) -> (out: Vec<CliqueRecord>)
    requires
        graph_wf(coded@, graph@),
    ensures
        out@.no_duplicates(),
        forall|r: CliqueRecord| out@.contains(r) <==> clique_valid(coded@, r),
{
    let n = coded.len();
    let mut out: Vec<CliqueRecord> = Vec::new();
    let mut path: Vec<usize> = Vec::new();
    let mut i: usize = 0;
    while i < n
        invariant
            graph_wf(coded@, graph@),
            n == coded@.len(),
            i <= n,
            path@.len() == 0,
            out@.no_duplicates(),
            forall|r: CliqueRecord|
                out@.contains(r) <==> clique_valid(coded@, r) && r.nodes()[0] < i,
        decreases n - i,
    {
        proof {
            lemma_row_props(coded@, i as int);
        }
        if graph[i].len() >= 4 {
            let ghost base = out@;
            let ghost root = seq![i];
            proof {
                assert(root.len() == 1 && root[0] == i);
                assert(path_ok(coded@, root)) by {
                    assert(forall|x: int| 0 <= x < root.len() ==> (#[trigger] root[x]) == i);
                }
                assert(path_mask(coded@, root) == 0u32 | coded@[i as int]) by {
                    assert(root.drop_last() =~= Seq::<usize>::empty());
                    assert(root.last() == i);
                    assert(path_mask(coded@, root.drop_last()) == 0u32);
                }
                assert(0u32 | coded@[i as int] == coded@[i as int]) by (bit_vector);
                assert forall|r: CliqueRecord| completes(coded@, root, r) <==> clique_valid(
                    coded@,
                    r,
                ) && r.nodes()[0] == i by {
                    if completes(coded@, root, r) {
                        assert(r.nodes().take(1)[0] == r.nodes()[0]);
                    }
                    if clique_valid(coded@, r) && r.nodes()[0] == i {
                        assert(r.nodes().take(1) =~= root);
                    }
                }
            }
            path.push(i);
            proof {
                assert(path@ =~= root);
            }
            search_from(coded, graph, &mut path, coded[i], &mut out);
            let _ = path.pop();
            proof {
                assert(path@ =~= Seq::<usize>::empty());
                assert forall|r: CliqueRecord|
                    out@.contains(r) <==> clique_valid(coded@, r) && r.nodes()[0] < i + 1 by {
                    if out@.contains(r) && !base.contains(r) {
                        assert(completes(coded@, root, r));
                    }
                    if clique_valid(coded@, r) && r.nodes()[0] < i + 1 {
                        if r.nodes()[0] == i {
                            assert(completes(coded@, root, r));
                        }
                    }
                }
            }
        } else {
            proof {
                // a root with fewer than four forward neighbors begins no clique
                assert forall|r: CliqueRecord| !(clique_valid(coded@, r) && r.nodes()[0]
                    == i) by {
                    if clique_valid(coded@, r) && r.nodes()[0] == i {
                        let nodes = r.nodes();
                        let vals = nodes.skip(1);
                        assert(forall|x: int| 0 <= x < vals.len() ==> vals[x] == nodes[x + 1]);
                        let irow = forward_row(coded@, i as int);
                        assert forall|p: int| 0 <= p < vals.len() implies irow.contains(
                            #[trigger] vals[p],
                        ) by {
                            assert(nodes[0] < nodes[p + 1]);
                            assert(coded@[nodes[0] as int] & coded@[nodes[p + 1] as int] == 0);
                            assert(irow.contains(nodes[p + 1] as usize));
                        }
                        assert forall|p: int, q: int| 0 <= p < q < vals.len() implies vals[p]
                            < vals[q] by {
                            assert(nodes[p + 1] < nodes[q + 1]);
                        }
                        lemma_ascending_contains_len(irow, vals);
                        assert(graph@[i as int]@ == irow);
                    }
                }
            }
        }
        i += 1;
    }
    proof {
        assert forall|r: CliqueRecord| out@.contains(r) <==> clique_valid(coded@, r) by {
            if clique_valid(coded@, r) {
                assert(r.nodes()[0] < coded@.len());
            }
        }
    }
    out
}

} // verus!
