//! Graph persistence: the forward adjacency list is written as text, one
//! line per node — the node's key followed by its neighbors' keys,
//! space-separated — where a key is the canonical ascending-letter string
//! of the node's mask.  A malformed cache fails fast: the loader returns
//! nothing and the caller rebuilds.

use vstd::prelude::*;

verus! {

/// The key bytes accumulated after the first `k` letters of the alphabet:
/// the ASCII letter with index `k - 1` is appended iff its bit is set.
pub open spec fn key_prefix(mask: u32, k: int) -> Seq<u8>
    decreases k,
{
    if k <= 0 {
        Seq::<u8>::empty()
    } else {
        key_prefix(mask, k - 1) + (if mask & (1u32 << ((26 - k) as u32)) != 0 {
            seq![(96 + k) as u8]
        } else {
            Seq::<u8>::empty()
        })
    }
}

/// The canonical key of a mask: its letters in ascending order, as ASCII.
pub open spec fn key_of(mask: u32) -> Seq<u8> {
    key_prefix(mask, 26)
}

/// The views of the adjacency rows.
pub open spec fn gview(g: Seq<Vec<usize>>) -> Seq<Seq<usize>> {
    g.map_values(|r: Vec<usize>| r@)
}

/// The serialized neighbor part of one row, after `p` neighbors: a space
/// and the neighbor's key, for each.
pub open spec fn ser_row(keys: Seq<u32>, row: Seq<usize>, p: int) -> Seq<u8>
    decreases p,
{
    if p <= 0 {
        Seq::<u8>::empty()
    } else {
        ser_row(keys, row, p - 1) + seq![32u8] + key_of(keys[row[p - 1] as int])
    }
}

/// The first `i` serialized lines: each node's key, its neighbor keys,
/// and a newline.
pub open spec fn ser_lines(keys: Seq<u32>, g: Seq<Seq<usize>>, i: int) -> Seq<u8>
    decreases i,
{
    if i <= 0 {
        Seq::<u8>::empty()
    } else {
        ser_lines(keys, g, i - 1) + key_of(keys[i - 1]) + ser_row(
            keys,
            g[i - 1],
            g[i - 1].len() as int,
        ) + seq![10u8]
    }
}

/// The full cache text of a graph.
pub open spec fn ser_spec(keys: Seq<u32>, g: Seq<Seq<usize>>) -> Seq<u8> {
    ser_lines(keys, g, g.len() as int)
}

/// What a persisted graph must look like: one row per key, keys strictly
/// ascending 26-bit nonzero masks, rows holding node indices.
pub open spec fn cache_wf(keys: Seq<u32>, g: Seq<Seq<usize>>) -> bool {
    &&& g.len() == keys.len()
    &&& forall|p: int, q: int| 0 <= p < q < keys.len() ==> keys[p] < keys[q]
    &&& forall|p: int| 0 <= p < keys.len() ==> 0 < #[trigger] keys[p] < (1u32 << 26)
    &&& forall|i: int, p: int|
        0 <= i < g.len() && 0 <= p < g[i].len() ==> (#[trigger] g[i][p]) < keys.len()
}

/// The ascending-letter key string of one mask.
fn key_bytes(mask: u32) -> (kb: Vec<u8>)
    ensures
        kb@ == key_of(mask),
{
    let mut kb: Vec<u8> = Vec::new();
    let mut k: usize = 1;
    proof {
        assert(kb@ =~= key_prefix(mask, 0));
    }
    while k <= 26
        invariant
            1 <= k <= 27,
            kb@ == key_prefix(mask, k - 1),
        decreases 27 - k,
    {
        if mask & (1u32 << ((26 - k) as u32)) != 0 {
            kb.push((96 + k) as u8);
            proof {
                assert(kb@ =~= key_prefix(mask, k - 1) + seq![(96 + (k as int)) as u8]);
            }
        } else {
            proof {
                assert(kb@ =~= key_prefix(mask, k - 1) + Seq::<u8>::empty());
            }
        }
        k += 1;
    }
    kb
}

/// Writes the cache text of a graph: one line per node with its key and
/// its neighbors' keys.
pub fn serialize(keys: &Vec<u32>, graph: &Vec<Vec<usize>>) -> (data: Vec<u8>)
    requires
        graph@.len() == keys@.len(),
        forall|i: int, p: int|
            0 <= i < graph@.len() && 0 <= p < graph@[i]@.len() ==> (#[trigger] graph@[i]@[p])
                < keys@.len(),
    ensures
        data@ == ser_spec(keys@, gview(graph@)),
{
    let n = keys.len();
    let mut out: Vec<u8> = Vec::new();
    let mut i: usize = 0;
    proof {
        assert(out@ =~= ser_lines(keys@, gview(graph@), 0));
    }
    while i < n
        invariant
            n == keys@.len(),
            graph@.len() == keys@.len(),
            forall|ii: int, p: int|
                0 <= ii < graph@.len() && 0 <= p < graph@[ii]@.len() ==> (#[trigger] graph@[ii]@[p])
                    < keys@.len(),
            i <= n,
            out@ == ser_lines(keys@, gview(graph@), i as int),
        decreases n - i,
    {
        let ghost base = out@;
        let mut kb = key_bytes(keys[i]);
        out.append(&mut kb);
        let row_len = graph[i].len();
        let ghost row = gview(graph@)[i as int];
        let mut p: usize = 0;
        proof {
            assert(row == graph@[i as int]@);
            assert(out@ =~= base + key_of(keys@[i as int]) + ser_row(keys@, row, 0));
        }
        while p < row_len
            invariant
                n == keys@.len(),
                graph@.len() == keys@.len(),
                i < n,
                row == graph@[i as int]@,
                forall|pp: int| 0 <= pp < row.len() ==> (#[trigger] row[pp]) < keys@.len(),
                row_len == row.len(),
                p <= row_len,
                out@ == base + key_of(keys@[i as int]) + ser_row(keys@, row, p as int),
            decreases row_len - p,
        {
            out.push(32);
            let nb = graph[i][p];
            let mut nk = key_bytes(keys[nb]);
            out.append(&mut nk);
            proof {
                assert(out@ =~= base + key_of(keys@[i as int]) + ser_row(keys@, row, p + 1));
            }
            p += 1;
        }
        out.push(10);
        proof {
            assert(out@ =~= ser_lines(keys@, gview(graph@), i + 1));
        }
        i += 1;
    }
    out
}

/// Byte-for-byte equality of two texts.
fn eq_bytes(a: &Vec<u8>, b: &Vec<u8>) -> (r: bool)
    ensures
        r == (a@ == b@),
{
    if a.len() != b.len() {
        proof {
            assert(a@ != b@);
        }
        return false;
    }
    let n = a.len();
    let mut i: usize = 0;
    while i < n
        invariant
            n == a@.len(),
            n == b@.len(),
            i <= n,
            forall|x: int| 0 <= x < i ==> a@[x] == b@[x],
        decreases n - i,
    {
        if a[i] != b[i] {
            return false;
        }
        i += 1;
    }
    proof {
        assert(a@ =~= b@);
    }
    true
}

/// Reads the cache text back: node keys in file order and, for each line,
/// the neighbor keys resolved to node indices.  Any malformed input — a
/// stray byte, an empty or misordered token, an unknown neighbor key, or
/// any text that is not the exact serialization of the result — yields
/// `None`, and the caller rebuilds the graph instead.  On the exact text
/// of a saved well-formed graph the loader always succeeds and returns
/// exactly that graph: the cache round trip loses nothing.
#[verifier::rlimit(100)]
pub fn deserialize(data: &Vec<u8>) -> (res: Option<(Vec<u32>, Vec<Vec<usize>>)>)
    ensures
        match res {
            Some(p) => cache_wf(p.0@, gview(p.1@)) && ser_spec(p.0@, gview(p.1@)) == data@,
            None => true,
        },
        forall|k: Seq<u32>, g: Seq<Seq<usize>>|
            cache_wf(k, g) && data@ == ser_spec(k, g) ==> res is Some && (res->0).0@ == k
                && gview((res->0).1@) == g,
{
    let ghost wits = exists|k: Seq<u32>, g: Seq<Seq<usize>>|
        cache_wf(k, g) && data@ == ser_spec(k, g);
    let ghost wkg = choose|k: Seq<u32>, g: Seq<Seq<usize>>|
        cache_wf(k, g) && data@ == ser_spec(k, g);
    let ghost kw = wkg.0;
    let ghost gw = wkg.1;
    let len = data.len();
    let mut line_masks: Vec<Vec<u32>> = Vec::new();
    let mut pos: usize = 0;
    proof {
        if wits {
            assert(cache_wf(kw, gw) && data@ == ser_spec(kw, gw));
        }
    }
    while pos < len
        invariant
            len == data@.len(),
            pos <= len,
            forall|x: int| 0 <= x < line_masks@.len() ==> (#[trigger] line_masks@[x]@).len() > 0,
            wits == exists|k: Seq<u32>, g: Seq<Seq<usize>>|
                cache_wf(k, g) && data@ == ser_spec(k, g),
            wits ==> cache_wf(kw, gw) && data@ == ser_spec(kw, gw),
            wits ==> line_masks@.len() <= gw.len(),
            wits ==> pos == ser_lines(kw, gw, line_masks@.len() as int).len(),
            wits ==> (forall|x: int, y: int|
                0 <= x < line_masks@.len() && 0 <= y < line_masks@[x]@.len()
                    ==> #[trigger] line_masks@[x]@[y] == tok_mask(kw, gw, x, y)),
            wits ==> (forall|x: int|
                0 <= x < line_masks@.len() ==> (#[trigger] line_masks@[x]@).len() == gw[x].len()
                    + 1),
        decreases len - pos,
    {
        let ghost li = line_masks@.len() as int;
        proof {
            if wits {
                if li == gw.len() {
                    assert(pos == ser_spec(kw, gw).len());
                    assert(false);
                }
            }
        }
        let ghost line_start = pos as int;
        let mut toks: Vec<u32> = Vec::new();
        let mut line_done = false;
        while !line_done
            invariant
                len == data@.len(),
                pos <= len,
                0 <= line_start <= pos,
                line_done ==> line_start < pos,
                wits == exists|k: Seq<u32>, g: Seq<Seq<usize>>|
                    cache_wf(k, g) && data@ == ser_spec(k, g),
                wits ==> cache_wf(kw, gw) && data@ == ser_spec(kw, gw),
                wits ==> 0 <= li < gw.len(),
                wits ==> (forall|y: int|
                    0 <= y < toks@.len() ==> #[trigger] toks@[y] == tok_mask(kw, gw, li, y)),
                wits && !line_done ==> toks@.len() <= gw[li].len() && pos == tok_off(
                    kw,
                    gw,
                    li,
                    toks@.len() as int,
                ),
                wits && line_done ==> toks@.len() == gw[li].len() + 1 && pos == ser_lines(
                    kw,
                    gw,
                    li + 1,
                ).len(),
                line_done ==> toks@.len() > 0,
            decreases len - pos,
        {
            let ghost t0 = toks@.len() as int;
            let ghost mstar: u32 = if wits {
                tok_mask(kw, gw, li, t0)
            } else {
                0u32
            };
            let ghost keyb: Seq<u8> = key_of(mstar);
            let ghost tokstart = pos as int;
            proof {
                if wits {
                    if t0 > 0 {
                        assert(gw[li][t0 - 1] < kw.len());
                    }
                    assert(0 < mstar < (1u32 << 26));
                    lemma_token_region(kw, gw, li, t0);
                    lemma_ser_lines_prefix(kw, gw, li + 1, gw.len() as int);
                    lemma_key_prefix_props(mstar, 26);
                    lemma_key_nonempty(mstar);
                    assert(tokstart == tok_off(kw, gw, li, t0));
                    assert(tokstart + keyb.len() + 1 <= len);
                    assert(forall|x: int|
                        0 <= x < keyb.len() ==> #[trigger] data@[tokstart + x] == keyb[x]);
                    assert(data@[tokstart + keyb.len() as int] == (if t0 < gw[li].len() {
                        32u8
                    } else {
                        10u8
                    }));
                }
            }
            let mut mask: u32 = 0;
            let mut prev: u8 = 0;
            let mut cnt: usize = 0;
            while pos < len && 97 <= data[pos] && data[pos] <= 122
                invariant
                    len == data@.len(),
                    pos <= len,
                    0 <= tokstart,
                    pos == tokstart + cnt,
                    wits == exists|k: Seq<u32>, g: Seq<Seq<usize>>|
                        cache_wf(k, g) && data@ == ser_spec(k, g),
                    wits ==> cnt <= keyb.len(),
                    wits ==> 0 < mstar < (1u32 << 26),
                    wits ==> keyb == key_of(mstar),
                    wits ==> (forall|x: int| 0 <= x < keyb.len() ==> 97 <= #[trigger] keyb[x] <= 122),
                    wits ==> (forall|x: int, y: int|
                        0 <= x < y < keyb.len() ==> keyb[x] < keyb[y]),
                    wits ==> (forall|x: int|
                        0 <= x < keyb.len() ==> #[trigger] data@[tokstart + x] == keyb[x]),
                    wits ==> tokstart + keyb.len() < len,
                    wits ==> !(97 <= data@[tokstart + keyb.len() as int] <= 122),
                    wits ==> mask == or_bits(keyb, cnt as int),
                    wits ==> (cnt > 0 ==> prev == keyb[cnt - 1]),
                decreases len - pos,
            {
                let b = data[pos];
                proof {
                    if wits {
                        if cnt == keyb.len() {
                            assert(data@[tokstart + keyb.len() as int] == b);
                            assert(false);
                        }
                        assert(b == keyb[cnt as int]);
                    }
                }
                if cnt > 0 && b <= prev {
                    proof {
                        if wits {
                            assert(keyb[cnt - 1] < keyb[cnt as int]);
                            assert(false);
                        }
                    }
                    return None;
                }
                mask = mask | (1u32 << ((122 - b) as u32));
                prev = b;
                cnt += 1;
                pos += 1;
            }
            proof {
                if wits {
                    if cnt < keyb.len() {
                        assert(data@[tokstart + cnt] == keyb[cnt as int]);
                        assert(97 <= data@[pos as int] <= 122);
                        assert(pos < len);
                        assert(false);
                    }
                    assert(cnt == keyb.len());
                    lemma_or_bits_key(mstar);
                    assert(mask == mstar);
                }
            }
            if cnt == 0 {
                proof {
                    if wits {
                        assert(keyb.len() > 0);
                        assert(false);
                    }
                }
                return None;
            }
            toks.push(mask);
            if pos >= len {
                proof {
                    if wits {
                        assert(false);
                    }
                }
                return None;
            }
            let d = data[pos];
            pos += 1;
            if d == 10 {
                line_done = true;
                proof {
                    if wits {
                        assert(d == data@[tokstart + keyb.len() as int]);
                        if t0 < gw[li].len() {
                            assert(d == 32u8);
                            assert(false);
                        }
                        assert(t0 == gw[li].len());
                        assert(toks@.len() == gw[li].len() + 1);
                        assert(pos == ser_lines(kw, gw, li + 1).len());
                    }
                }
            } else if d != 32 {
                proof {
                    if wits {
                        assert(d == data@[tokstart + keyb.len() as int]);
                        assert(false);
                    }
                }
                return None;
            } else {
                proof {
                    if wits {
                        assert(d == data@[tokstart + keyb.len() as int]);
                        if t0 == gw[li].len() {
                            assert(d == 10u8);
                            assert(false);
                        }
                        assert(pos == tok_off(kw, gw, li, t0 + 1));
                    }
                }
            }
        }
        let ghost lm0 = line_masks@;
        line_masks.push(toks);
        proof {
            assert(forall|x: int| 0 <= x < lm0.len() ==> line_masks@[x] == lm0[x]);
            assert(line_masks@[lm0.len() as int] == toks);
            if wits {
                assert forall|x: int, y: int|
                    0 <= x < line_masks@.len() && 0 <= y < line_masks@[x]@.len()
                        implies #[trigger] line_masks@[x]@[y] == tok_mask(kw, gw, x, y) by {
                    if x < lm0.len() {
                        assert(line_masks@[x] == lm0[x]);
                    } else {
                        assert(line_masks@[x] == toks);
                    }
                }
                assert forall|x: int| 0 <= x < line_masks@.len() implies (
                #[trigger] line_masks@[x]@).len() == gw[x].len() + 1 by {
                    if x < lm0.len() {
                        assert(line_masks@[x] == lm0[x]);
                    } else {
                        assert(line_masks@[x] == toks);
                    }
                }
            }
        }
    }
    proof {
        if wits {
            if line_masks@.len() < gw.len() {
                lemma_ser_lines_strict(kw, gw, line_masks@.len() as int);
                lemma_ser_lines_prefix(kw, gw, line_masks@.len() as int + 1, gw.len() as int);
                assert(pos < len);
                assert(false);
            }
            assert(line_masks@.len() == gw.len());
        }
    }
    // the first token of each line is the node key; keys must ascend strictly
    let nl = line_masks.len();
    let mut keys_out: Vec<u32> = Vec::new();
    let mut i: usize = 0;
    while i < nl
        invariant
            nl == line_masks@.len(),
            i <= nl,
            keys_out@.len() == i,
            forall|p: int, q: int| 0 <= p < q < i ==> keys_out@[p] < keys_out@[q],
            forall|p: int| 0 <= p < i ==> 0 < #[trigger] keys_out@[p] < (1u32 << 26),
            forall|x: int| 0 <= x < line_masks@.len() ==> (#[trigger] line_masks@[x]@).len() > 0,
            wits == exists|k: Seq<u32>, g: Seq<Seq<usize>>|
                cache_wf(k, g) && data@ == ser_spec(k, g),
            wits ==> cache_wf(kw, gw) && data@ == ser_spec(kw, gw),
            wits ==> nl == gw.len(),
            wits ==> (forall|x: int, y: int|
                0 <= x < line_masks@.len() && 0 <= y < line_masks@[x]@.len()
                    ==> #[trigger] line_masks@[x]@[y] == tok_mask(kw, gw, x, y)),
            wits ==> (forall|x: int|
                0 <= x < line_masks@.len() ==> (#[trigger] line_masks@[x]@).len() == gw[x].len()
                    + 1),
            wits ==> keys_out@ == kw.take(i as int),
        decreases nl - i,
    {
        if line_masks[i].len() == 0 {
            proof {
                assert(line_masks@[i as int]@.len() > 0);
                assert(false);
            }
            return None;
        }
        let k = line_masks[i][0];
        proof {
            if wits {
                assert(k == tok_mask(kw, gw, i as int, 0));
                assert(k == kw[i as int]);
            }
        }
        if k == 0 || k >= 1u32 << 26u32 {
            proof {
                if wits {
                    assert(0 < kw[i as int] < (1u32 << 26));
                    assert(false);
                }
            }
            return None;
        }
        if keys_out.len() > 0 && keys_out[keys_out.len() - 1] >= k {
            proof {
                if wits {
                    assert(keys_out@[i - 1] == kw.take(i as int)[i - 1]);
                    assert(kw[i - 1] < kw[i as int]);
                    assert(false);
                }
            }
            return None;
        }
        let ghost pre = keys_out@;
        keys_out.push(k);
        proof {
            assert forall|p: int, q: int| 0 <= p < q < keys_out@.len() implies keys_out@[p]
                < keys_out@[q] by {
                if q < pre.len() {
                } else {
                    assert(keys_out@[q] == k);
                    assert(pre[pre.len() - 1] < k);
                    if p < pre.len() - 1 {
                        assert(pre[p] < pre[pre.len() - 1]);
                    }
                }
            }
            if wits {
                assert(keys_out@ =~= kw.take(i + 1));
            }
        }
        i += 1;
    }
    proof {
        if wits {
            assert(keys_out@ =~= kw);
        }
    }
    // resolve each neighbor key to its node index
    let mut rows: Vec<Vec<usize>> = Vec::new();
    let mut i2: usize = 0;
    while i2 < nl
        invariant
            nl == line_masks@.len(),
            keys_out@.len() == nl,
            i2 <= nl,
            rows@.len() == i2,
            forall|p: int, q: int| 0 <= p < q < nl ==> keys_out@[p] < keys_out@[q],
            forall|x: int, p: int|
                0 <= x < i2 && 0 <= p < rows@[x]@.len() ==> (#[trigger] rows@[x]@[p])
                    < keys_out@.len(),
            forall|x: int| 0 <= x < line_masks@.len() ==> (#[trigger] line_masks@[x]@).len() > 0,
            wits == exists|k: Seq<u32>, g: Seq<Seq<usize>>|
                cache_wf(k, g) && data@ == ser_spec(k, g),
            wits ==> cache_wf(kw, gw) && data@ == ser_spec(kw, gw),
            wits ==> nl == gw.len(),
            wits ==> keys_out@ == kw,
            wits ==> (forall|x: int, y: int|
                0 <= x < line_masks@.len() && 0 <= y < line_masks@[x]@.len()
                    ==> #[trigger] line_masks@[x]@[y] == tok_mask(kw, gw, x, y)),
            wits ==> (forall|x: int|
                0 <= x < line_masks@.len() ==> (#[trigger] line_masks@[x]@).len() == gw[x].len()
                    + 1),
            wits ==> (forall|x: int| 0 <= x < i2 ==> #[trigger] rows@[x]@ == gw[x]),
        decreases nl - i2,
    {
        let line = &line_masks[i2];
        let mut row: Vec<usize> = Vec::new();
        let tl = line.len();
        let mut p: usize = 1;
        while p < tl
            invariant
                tl == line@.len(),
                line@ == line_masks@[i2 as int]@,
                i2 < nl,
                nl == line_masks@.len(),
                keys_out@.len() == nl,
                forall|pp: int, q: int| 0 <= pp < q < nl ==> keys_out@[pp] < keys_out@[q],
                1 <= p,
                tl >= 1,
                p <= tl,
                forall|x: int| 0 <= x < row@.len() ==> (#[trigger] row@[x]) < keys_out@.len(),
                row@.len() == p - 1,
                wits == exists|k: Seq<u32>, g: Seq<Seq<usize>>|
                    cache_wf(k, g) && data@ == ser_spec(k, g),
                wits ==> cache_wf(kw, gw) && data@ == ser_spec(kw, gw),
                wits ==> nl == gw.len(),
                wits ==> keys_out@ == kw,
                wits ==> tl == gw[i2 as int].len() + 1,
                wits ==> (forall|y: int|
                    0 <= y < tl ==> #[trigger] line@[y] == tok_mask(kw, gw, i2 as int, y)),
                wits ==> (forall|y: int|
                    0 <= y < row@.len() ==> #[trigger] row@[y] == gw[i2 as int][y]),
            decreases tl - p,
        {
            let target = line[p];
            let mut found = false;
            let mut idx: usize = 0;
            let mut scan: usize = 0;
            let kn = keys_out.len();
            while scan < kn
                invariant
                    kn == keys_out@.len(),
                    scan <= kn,
                    found ==> idx < kn && keys_out@[idx as int] == target,
                    found == exists|q: int| 0 <= q < scan && keys_out@[q] == target,
                decreases kn - scan,
            {
                if keys_out[scan] == target {
                    found = true;
                    idx = scan;
                    proof {
                        assert(keys_out@[scan as int] == target);
                    }
                } else {
                    proof {
                        if exists|q: int| 0 <= q < scan + 1 && keys_out@[q] == target {
                            let q = choose|q: int| 0 <= q < scan + 1 && keys_out@[q] == target;
                            assert(q < scan);
                        }
                    }
                }
                scan += 1;
            }
            if !found {
                proof {
                    if wits {
                        let j0 = gw[i2 as int][p - 1];
                        assert(target == tok_mask(kw, gw, i2 as int, p as int));
                        assert(target == kw[j0 as int]);
                        assert(j0 < kw.len());
                        assert(keys_out@[j0 as int] == target);
                        assert(false);
                    }
                }
                return None;
            }
            proof {
                if wits {
                    let j0 = gw[i2 as int][p - 1];
                    assert(target == kw[j0 as int]);
                    assert(keys_out@[idx as int] == target);
                    if (idx as int) < j0 {
                        assert(keys_out@[idx as int] < keys_out@[j0 as int]);
                        assert(false);
                    }
                    if j0 < idx as int {
                        assert(keys_out@[j0 as int] < keys_out@[idx as int]);
                        assert(false);
                    }
                    assert(idx as int == j0);
                }
            }
            row.push(idx);
            p += 1;
        }
        let ghost rows0 = rows@;
        rows.push(row);
        proof {
            assert(forall|x: int| 0 <= x < rows0.len() ==> rows@[x] == rows0[x]);
            if wits {
                assert(row@.len() == gw[i2 as int].len());
                assert(row@ =~= gw[i2 as int]);
                assert forall|x: int| 0 <= x < i2 + 1 implies #[trigger] rows@[x]@ == gw[x] by {
                    if x < rows0.len() {
                        assert(rows@[x] == rows0[x]);
                    } else {
                        assert(rows@[x] == row);
                    }
                }
            }
        }
        i2 += 1;
    }
    // accept only text that is exactly the serialization of the result
    let again = serialize(&keys_out, &rows);
    proof {
        if wits {
            assert(gview(rows@) =~= gw);
            assert(again@ == ser_spec(kw, gw));
            assert(again@ == data@);
        }
    }
    if !eq_bytes(&again, data) {
        proof {
            if wits {
                assert(false);
            }
        }
        return None;
    }
    proof {
        assert forall|k: Seq<u32>, g: Seq<Seq<usize>>|
            cache_wf(k, g) && data@ == ser_spec(k, g) implies keys_out@ == k && gview(rows@)
            == g by {
            assert(wits);
            lemma_serialize_injective(k, g, kw, gw);
        }
    }
    Some((keys_out, rows))
}


/// Every byte of a key is a lowercase letter, and letter `122 - s` occurs
/// in the key iff bit `s` of the mask is set, for the bits scanned so far.
proof fn lemma_key_prefix_props(mask: u32, k: int)
    requires
        0 <= k <= 26,
    ensures
        forall|x: int|
            0 <= x < key_prefix(mask, k).len() ==> 97 <= #[trigger] key_prefix(mask, k)[x] <= 96
                + k,
        forall|s: u32|
            26 - k <= s < 26 ==> (key_prefix(mask, k).contains((122 - s) as u8) <==> (#[trigger] (
            mask & (1u32 << s))) != 0),
        forall|p: int, q: int|
            0 <= p < q < key_prefix(mask, k).len() ==> key_prefix(mask, k)[p] < key_prefix(
                mask,
                k,
            )[q],
    decreases k,
{
    if k > 0 {
        lemma_key_prefix_props(mask, k - 1);
        let pre = key_prefix(mask, k - 1);
        let cur = key_prefix(mask, k);
        let hit = mask & (1u32 << ((26 - k) as u32)) != 0;
        if hit {
            assert(cur == pre + seq![(96 + k) as u8]);
            assert(forall|x: int| 0 <= x < pre.len() ==> cur[x] == pre[x]);
            assert(cur[pre.len() as int] == (96 + k) as u8);
        } else {
            assert(cur =~= pre);
        }
        assert forall|s: u32| 26 - k <= s < 26 implies (cur.contains((122 - s) as u8) <==> (
        #[trigger] (mask & (1u32 << s))) != 0) by {
            let c = (122 - s) as u8;
            if s == (26 - k) as u32 {
                assert(c == (96 + k) as u8);
                if hit {
                    assert(cur.contains(c)) by {
                        assert(cur[pre.len() as int] == c);
                    }
                } else {
                    if cur.contains(c) {
                        let x = choose|x: int| 0 <= x < cur.len() && cur[x] == c;
                        assert(pre[x] <= 96 + (k - 1));
                    }
                }
            } else {
                assert(26 - (k - 1) <= s < 26);
                assert(c as int <= 96 + (k - 1));
                if pre.contains(c) {
                    let x = choose|x: int| 0 <= x < pre.len() && pre[x] == c;
                    assert(cur[x] == c);
                }
                if cur.contains(c) {
                    let x = choose|x: int| 0 <= x < cur.len() && cur[x] == c;
                    if hit && x == pre.len() {
                        assert(cur[x] == (96 + k) as u8);
                        assert(false);
                    } else {
                        assert(pre[x] == c);
                    }
                }
            }
        }
    }
}

/// A well-formed mask has at least one letter in its key.
proof fn lemma_key_nonempty(m: u32)
    requires
        0 < m < (1u32 << 26),
    ensures
        key_of(m).len() > 0,
{
    lemma_key_prefix_props(m, 26);
    if key_of(m).len() == 0 {
        assert forall|s: u32| 0 <= s < 26 implies (#[trigger] (m & (1u32 << s))) == 0 by {
            if m & (1u32 << s) != 0 {
                assert(key_of(m).contains((122 - s) as u8));
            }
        }
        assert((m & (1u32 << 0u32) == 0) && (m & (1u32 << 1u32) == 0) && (m & (1u32 << 2u32) == 0) && (m & (1u32 << 3u32) == 0) && (m & (1u32 << 4u32) == 0) && (m & (1u32 << 5u32) == 0) && (m & (1u32 << 6u32) == 0) && (m & (1u32 << 7u32) == 0) && (m & (1u32 << 8u32) == 0) && (m & (1u32 << 9u32) == 0) && (m & (1u32 << 10u32) == 0) && (m & (1u32 << 11u32) == 0) && (m & (1u32 << 12u32) == 0) && (m & (1u32 << 13u32) == 0) && (m & (1u32 << 14u32) == 0) && (m & (1u32 << 15u32) == 0) && (m & (1u32 << 16u32) == 0) && (m & (1u32 << 17u32) == 0) && (m & (1u32 << 18u32) == 0) && (m & (1u32 << 19u32) == 0) && (m & (1u32 << 20u32) == 0) && (m & (1u32 << 21u32) == 0) && (m & (1u32 << 22u32) == 0) && (m & (1u32 << 23u32) == 0) && (m & (1u32 << 24u32) == 0) && (m & (1u32 << 25u32) == 0));
        assert(m == 0) by (bit_vector)
            requires
                m < (1u32 << 26),
                m & (1u32 << 0u32) == 0, m & (1u32 << 1u32) == 0, m & (1u32 << 2u32) == 0, m & (1u32 << 3u32) == 0, m & (1u32 << 4u32) == 0, m & (1u32 << 5u32) == 0, m & (1u32 << 6u32) == 0, m & (1u32 << 7u32) == 0, m & (1u32 << 8u32) == 0, m & (1u32 << 9u32) == 0, m & (1u32 << 10u32) == 0, m & (1u32 << 11u32) == 0, m & (1u32 << 12u32) == 0, m & (1u32 << 13u32) == 0, m & (1u32 << 14u32) == 0, m & (1u32 << 15u32) == 0, m & (1u32 << 16u32) == 0, m & (1u32 << 17u32) == 0, m & (1u32 << 18u32) == 0, m & (1u32 << 19u32) == 0, m & (1u32 << 20u32) == 0, m & (1u32 << 21u32) == 0, m & (1u32 << 22u32) == 0, m & (1u32 << 23u32) == 0, m & (1u32 << 24u32) == 0, m & (1u32 << 25u32) == 0;
    }
}

/// Two well-formed masks with the same key are the same mask.
proof fn lemma_key_of_injective(m1: u32, m2: u32)
    requires
        0 < m1 < (1u32 << 26),
        0 < m2 < (1u32 << 26),
        key_of(m1) == key_of(m2),
    ensures
        m1 == m2,
{
    lemma_key_prefix_props(m1, 26);
    lemma_key_prefix_props(m2, 26);
    assert forall|s: u32| 0 <= s < 26 implies ((#[trigger] (m1 & (1u32 << s))) != 0 <==> (m2 & (
    1u32 << s)) != 0) by {
        assert(key_of(m1).contains((122 - s) as u8) <==> (m1 & (1u32 << s)) != 0);
        assert(key_of(m2).contains((122 - s) as u8) <==> (m2 & (1u32 << s)) != 0);
    }
    assert(((m1 & (1u32 << 0u32) != 0) <==> (m2 & (1u32 << 0u32) != 0)) && ((m1 & (1u32 << 1u32) != 0) <==> (m2 & (1u32 << 1u32) != 0)) && ((m1 & (1u32 << 2u32) != 0) <==> (m2 & (1u32 << 2u32) != 0)) && ((m1 & (1u32 << 3u32) != 0) <==> (m2 & (1u32 << 3u32) != 0)) && ((m1 & (1u32 << 4u32) != 0) <==> (m2 & (1u32 << 4u32) != 0)) && ((m1 & (1u32 << 5u32) != 0) <==> (m2 & (1u32 << 5u32) != 0)) && ((m1 & (1u32 << 6u32) != 0) <==> (m2 & (1u32 << 6u32) != 0)) && ((m1 & (1u32 << 7u32) != 0) <==> (m2 & (1u32 << 7u32) != 0)) && ((m1 & (1u32 << 8u32) != 0) <==> (m2 & (1u32 << 8u32) != 0)) && ((m1 & (1u32 << 9u32) != 0) <==> (m2 & (1u32 << 9u32) != 0)) && ((m1 & (1u32 << 10u32) != 0) <==> (m2 & (1u32 << 10u32) != 0)) && ((m1 & (1u32 << 11u32) != 0) <==> (m2 & (1u32 << 11u32) != 0)) && ((m1 & (1u32 << 12u32) != 0) <==> (m2 & (1u32 << 12u32) != 0)) && ((m1 & (1u32 << 13u32) != 0) <==> (m2 & (1u32 << 13u32) != 0)) && ((m1 & (1u32 << 14u32) != 0) <==> (m2 & (1u32 << 14u32) != 0)) && ((m1 & (1u32 << 15u32) != 0) <==> (m2 & (1u32 << 15u32) != 0)) && ((m1 & (1u32 << 16u32) != 0) <==> (m2 & (1u32 << 16u32) != 0)) && ((m1 & (1u32 << 17u32) != 0) <==> (m2 & (1u32 << 17u32) != 0)) && ((m1 & (1u32 << 18u32) != 0) <==> (m2 & (1u32 << 18u32) != 0)) && ((m1 & (1u32 << 19u32) != 0) <==> (m2 & (1u32 << 19u32) != 0)) && ((m1 & (1u32 << 20u32) != 0) <==> (m2 & (1u32 << 20u32) != 0)) && ((m1 & (1u32 << 21u32) != 0) <==> (m2 & (1u32 << 21u32) != 0)) && ((m1 & (1u32 << 22u32) != 0) <==> (m2 & (1u32 << 22u32) != 0)) && ((m1 & (1u32 << 23u32) != 0) <==> (m2 & (1u32 << 23u32) != 0)) && ((m1 & (1u32 << 24u32) != 0) <==> (m2 & (1u32 << 24u32) != 0)) && ((m1 & (1u32 << 25u32) != 0) <==> (m2 & (1u32 << 25u32) != 0)));
    assert(m1 == m2) by (bit_vector)
        requires
            m1 < (1u32 << 26),
            m2 < (1u32 << 26),
            ((m1 & (1u32 << 0u32) != 0) <==> (m2 & (1u32 << 0u32) != 0)) && ((m1 & (1u32 << 1u32) != 0) <==> (m2 & (1u32 << 1u32) != 0)) && ((m1 & (1u32 << 2u32) != 0) <==> (m2 & (1u32 << 2u32) != 0)) && ((m1 & (1u32 << 3u32) != 0) <==> (m2 & (1u32 << 3u32) != 0)) && ((m1 & (1u32 << 4u32) != 0) <==> (m2 & (1u32 << 4u32) != 0)) && ((m1 & (1u32 << 5u32) != 0) <==> (m2 & (1u32 << 5u32) != 0)) && ((m1 & (1u32 << 6u32) != 0) <==> (m2 & (1u32 << 6u32) != 0)) && ((m1 & (1u32 << 7u32) != 0) <==> (m2 & (1u32 << 7u32) != 0)) && ((m1 & (1u32 << 8u32) != 0) <==> (m2 & (1u32 << 8u32) != 0)) && ((m1 & (1u32 << 9u32) != 0) <==> (m2 & (1u32 << 9u32) != 0)) && ((m1 & (1u32 << 10u32) != 0) <==> (m2 & (1u32 << 10u32) != 0)) && ((m1 & (1u32 << 11u32) != 0) <==> (m2 & (1u32 << 11u32) != 0)) && ((m1 & (1u32 << 12u32) != 0) <==> (m2 & (1u32 << 12u32) != 0)) && ((m1 & (1u32 << 13u32) != 0) <==> (m2 & (1u32 << 13u32) != 0)) && ((m1 & (1u32 << 14u32) != 0) <==> (m2 & (1u32 << 14u32) != 0)) && ((m1 & (1u32 << 15u32) != 0) <==> (m2 & (1u32 << 15u32) != 0)) && ((m1 & (1u32 << 16u32) != 0) <==> (m2 & (1u32 << 16u32) != 0)) && ((m1 & (1u32 << 17u32) != 0) <==> (m2 & (1u32 << 17u32) != 0)) && ((m1 & (1u32 << 18u32) != 0) <==> (m2 & (1u32 << 18u32) != 0)) && ((m1 & (1u32 << 19u32) != 0) <==> (m2 & (1u32 << 19u32) != 0)) && ((m1 & (1u32 << 20u32) != 0) <==> (m2 & (1u32 << 20u32) != 0)) && ((m1 & (1u32 << 21u32) != 0) <==> (m2 & (1u32 << 21u32) != 0)) && ((m1 & (1u32 << 22u32) != 0) <==> (m2 & (1u32 << 22u32) != 0)) && ((m1 & (1u32 << 23u32) != 0) <==> (m2 & (1u32 << 23u32) != 0)) && ((m1 & (1u32 << 24u32) != 0) <==> (m2 & (1u32 << 24u32) != 0)) && ((m1 & (1u32 << 25u32) != 0) <==> (m2 & (1u32 << 25u32) != 0));
}


/// Splitting at a separator that the suffix never holds is unambiguous.
proof fn lemma_split_at_last(a1: Seq<u8>, l1: Seq<u8>, a2: Seq<u8>, l2: Seq<u8>, sep: u8)
    requires
        a1 + seq![sep] + l1 == a2 + seq![sep] + l2,
        forall|x: int| 0 <= x < l1.len() ==> l1[x] != sep,
        forall|x: int| 0 <= x < l2.len() ==> l2[x] != sep,
    ensures
        a1 == a2,
        l1 == l2,
{
    let w = a1 + seq![sep] + l1;
    assert(w.len() == a1.len() + 1 + l1.len());
    assert(w.len() == a2.len() + 1 + l2.len());
    assert(w[a1.len() as int] == sep);
    assert(w[a2.len() as int] == sep);
    assert(forall|x: int| 0 <= x < a1.len() ==> w[x] == a1[x]);
    assert(forall|x: int| 0 <= x < l1.len() ==> w[a1.len() + 1 + x] == l1[x]);
    assert(forall|x: int| 0 <= x < a2.len() ==> w[x] == a2[x]);
    assert(forall|x: int| 0 <= x < l2.len() ==> w[a2.len() + 1 + x] == l2[x]);
    if a1.len() < a2.len() {
        assert(l1[a2.len() - a1.len() - 1] == sep);
    }
    if a2.len() < a1.len() {
        assert(l2[a1.len() - a2.len() - 1] == sep);
    }
    assert(a1.len() == a2.len());
    assert(a1 =~= a2);
    assert(l1 =~= l2);
}

/// A key followed by anything that does not begin with a letter can be
/// read back unambiguously.
proof fn lemma_token_boundary(m1: u32, r1: Seq<u8>, m2: u32, r2: Seq<u8>)
    requires
        0 < m1 < (1u32 << 26),
        0 < m2 < (1u32 << 26),
        key_of(m1) + r1 == key_of(m2) + r2,
        r1.len() == 0 || !(97 <= r1[0] <= 122),
        r2.len() == 0 || !(97 <= r2[0] <= 122),
    ensures
        m1 == m2,
        r1 == r2,
{
    lemma_key_prefix_props(m1, 26);
    lemma_key_prefix_props(m2, 26);
    let k1 = key_of(m1);
    let k2 = key_of(m2);
    let w = k1 + r1;
    assert(forall|x: int| 0 <= x < k1.len() ==> w[x] == k1[x]);
    assert(forall|x: int| 0 <= x < r1.len() ==> w[k1.len() + x] == r1[x]);
    assert(forall|x: int| 0 <= x < k2.len() ==> w[x] == k2[x]);
    assert(forall|x: int| 0 <= x < r2.len() ==> w[k2.len() + x] == r2[x]);
    if k1.len() < k2.len() {
        assert(r1.len() > 0);
        assert(w[k1.len() as int] == r1[0]);
        assert(w[k1.len() as int] == k2[k1.len() as int]);
        assert(97 <= k2[k1.len() as int] <= 122);
        assert(false);
    }
    if k2.len() < k1.len() {
        assert(r2.len() > 0);
        assert(w[k2.len() as int] == r2[0]);
        assert(w[k2.len() as int] == k1[k2.len() as int]);
        assert(97 <= k1[k2.len() as int] <= 122);
        assert(false);
    }
    assert(k1.len() == k2.len());
    assert(k1 =~= k2);
    lemma_key_of_injective(m1, m2);
    assert(w == k2 + r2);
    assert(w.len() == k1.len() + r1.len());
    assert(w.len() == k2.len() + r2.len());
    assert(r1.len() == r2.len());
    assert forall|x: int| 0 <= x < r1.len() implies r1[x] == r2[x] by {
        assert(w[k1.len() + x] == r1[x]);
        assert(w[k2.len() + x] == r2[x]);
    }
    assert(r1 =~= r2);
}

/// Bytes of a row's serialized neighbor part: spaces and letters only,
/// starting with a space when any neighbor is there.
proof fn lemma_ser_row_bytes(keys: Seq<u32>, row: Seq<usize>, p: int)
    requires
        forall|x: int| 0 <= x < keys.len() ==> 0 < #[trigger] keys[x] < (1u32 << 26),
        forall|x: int| 0 <= x < p ==> (#[trigger] row[x]) < keys.len(),
        p <= row.len(),
    ensures
        forall|x: int|
            0 <= x < ser_row(keys, row, p).len() ==> #[trigger] ser_row(keys, row, p)[x] == 32
                || 97 <= ser_row(keys, row, p)[x] <= 122,
        p > 0 ==> ser_row(keys, row, p).len() > 0 && ser_row(keys, row, p)[0] == 32,
    decreases p,
{
    if p > 0 {
        lemma_ser_row_bytes(keys, row, p - 1);
        let pre = ser_row(keys, row, p - 1);
        let kb = key_of(keys[row[p - 1] as int]);
        lemma_key_prefix_props(keys[row[p - 1] as int], 26);
        let cur = ser_row(keys, row, p);
        assert(cur == pre + seq![32u8] + kb);
        assert(forall|x: int| 0 <= x < pre.len() ==> cur[x] == pre[x]);
        assert(cur[pre.len() as int] == 32u8);
        assert(forall|x: int| 0 <= x < kb.len() ==> cur[pre.len() + 1 + x] == kb[x]);
    }
}

/// With the node keys fixed, equal neighbor texts mean equal rows.
proof fn lemma_ser_row_injective(keys: Seq<u32>, row1: Seq<usize>, p1: int, row2: Seq<usize>, p2: int)
    requires
        forall|x: int| 0 <= x < keys.len() ==> 0 < #[trigger] keys[x] < (1u32 << 26),
        forall|x: int, y: int| 0 <= x < y < keys.len() ==> keys[x] < keys[y],
        forall|x: int| 0 <= x < p1 ==> (#[trigger] row1[x]) < keys.len(),
        forall|x: int| 0 <= x < p2 ==> (#[trigger] row2[x]) < keys.len(),
        0 <= p1 <= row1.len(),
        0 <= p2 <= row2.len(),
        ser_row(keys, row1, p1) == ser_row(keys, row2, p2),
    ensures
        p1 == p2,
        forall|x: int| 0 <= x < p1 ==> row1[x] == row2[x],
    decreases p1,
{
    lemma_ser_row_bytes(keys, row1, p1);
    lemma_ser_row_bytes(keys, row2, p2);
    if p1 == 0 {
        assert(ser_row(keys, row1, p1).len() == 0);
        if p2 > 0 {
            assert(ser_row(keys, row2, p2).len() > 0);
        }
    } else {
        if p2 == 0 {
            assert(ser_row(keys, row2, p2).len() == 0);
            assert(ser_row(keys, row1, p1).len() > 0);
            assert(false);
        }
        let m1 = keys[row1[p1 - 1] as int];
        let m2 = keys[row2[p2 - 1] as int];
        lemma_key_prefix_props(m1, 26);
        lemma_key_prefix_props(m2, 26);
        assert(ser_row(keys, row1, p1) == ser_row(keys, row1, p1 - 1) + seq![32u8] + key_of(m1));
        assert(ser_row(keys, row2, p2) == ser_row(keys, row2, p2 - 1) + seq![32u8] + key_of(m2));
        lemma_split_at_last(
            ser_row(keys, row1, p1 - 1),
            key_of(m1),
            ser_row(keys, row2, p2 - 1),
            key_of(m2),
            32u8,
        );
        lemma_key_of_injective(m1, m2);
        assert(row1[p1 - 1] == row2[p2 - 1]) by {
            if row1[p1 - 1] < row2[p2 - 1] {
                assert(keys[row1[p1 - 1] as int] < keys[row2[p2 - 1] as int]);
            }
            if row2[p2 - 1] < row1[p1 - 1] {
                assert(keys[row2[p2 - 1] as int] < keys[row1[p1 - 1] as int]);
            }
        }
        lemma_ser_row_injective(keys, row1, p1 - 1, row2, p2 - 1);
    }
}


/// One serialized line, without its newline.
spec fn line_of(keys: Seq<u32>, g: Seq<Seq<usize>>, j: int) -> Seq<u8> {
    key_of(keys[j]) + ser_row(keys, g[j], g[j].len() as int)
}

/// No byte of a line is a newline, and a line never starts mid-token.
proof fn lemma_line_bytes(keys: Seq<u32>, g: Seq<Seq<usize>>, j: int)
    requires
        cache_wf(keys, g),
        0 <= j < g.len(),
    ensures
        forall|x: int| 0 <= x < line_of(keys, g, j).len() ==> #[trigger] line_of(keys, g, j)[x] != 10,
        line_of(keys, g, j).len() > 0,
{
    lemma_key_prefix_props(keys[j], 26);
    lemma_key_nonempty(keys[j]);
    lemma_ser_row_bytes(keys, g[j], g[j].len() as int);
    let kb = key_of(keys[j]);
    let rb = ser_row(keys, g[j], g[j].len() as int);
    let line = line_of(keys, g, j);
    assert(forall|x: int| 0 <= x < kb.len() ==> line[x] == kb[x]);
    assert(forall|x: int| 0 <= x < rb.len() ==> line[kb.len() + x] == rb[x]);
    assert forall|x: int| 0 <= x < line.len() implies #[trigger] line[x] != 10 by {
        if x < kb.len() {
            assert(97 <= kb[x] <= 122);
        } else {
            assert(line[x] == rb[x - kb.len()]);
        }
    }
}

/// Equal serialized prefixes come from the same number of lines, the same
/// node keys, and the same neighbor texts.
#[verifier::rlimit(100)]
proof fn lemma_ser_lines_injective(
    k1: Seq<u32>,
    g1: Seq<Seq<usize>>,
    i1: int,
    k2: Seq<u32>,
    g2: Seq<Seq<usize>>,
    i2: int,
)
    requires
        cache_wf(k1, g1),
        cache_wf(k2, g2),
        0 <= i1 <= g1.len(),
        0 <= i2 <= g2.len(),
        ser_lines(k1, g1, i1) == ser_lines(k2, g2, i2),
    ensures
        i1 == i2,
        forall|j: int| 0 <= j < i1 ==> k1[j] == k2[j],
        forall|j: int|
            0 <= j < i1 ==> ser_row(k1, g1[j], g1[j].len() as int) == ser_row(
                k2,
                g2[j],
                g2[j].len() as int,
            ),
    decreases i1 + i2,
{
    if i1 == 0 || i2 == 0 {
        if i1 == 0 && i2 > 0 {
            assert(ser_lines(k2, g2, i2).len() > 0);
            assert(ser_lines(k1, g1, 0).len() == 0);
        }
        if i2 == 0 && i1 > 0 {
            assert(ser_lines(k1, g1, i1).len() > 0);
            assert(ser_lines(k2, g2, 0).len() == 0);
        }
    } else {
        let line1 = line_of(k1, g1, i1 - 1);
        let line2 = line_of(k2, g2, i2 - 1);
        lemma_line_bytes(k1, g1, i1 - 1);
        lemma_line_bytes(k2, g2, i2 - 1);
        let pre1 = ser_lines(k1, g1, i1 - 1);
        let pre2 = ser_lines(k2, g2, i2 - 1);
        assert(ser_lines(k1, g1, i1) =~= (pre1 + line1) + seq![10u8] + Seq::<u8>::empty());
        assert(ser_lines(k2, g2, i2) =~= (pre2 + line2) + seq![10u8] + Seq::<u8>::empty());
        lemma_split_at_last(pre1 + line1, Seq::<u8>::empty(), pre2 + line2, Seq::<u8>::empty(), 10u8);
        let e = pre1 + line1;
        assert(e == pre2 + line2);
        if i1 - 1 == 0 && i2 - 1 == 0 {
            assert(e =~= line1);
            assert(e =~= line2);
            assert(line1 == line2);
        } else if i1 - 1 > 0 && i2 - 1 > 0 {
            let q1 = ser_lines(k1, g1, i1 - 2) + line_of(k1, g1, i1 - 2);
            let q2 = ser_lines(k2, g2, i2 - 2) + line_of(k2, g2, i2 - 2);
            assert(pre1 =~= q1 + seq![10u8]);
            assert(pre2 =~= q2 + seq![10u8]);
            assert(e =~= q1 + seq![10u8] + line1);
            assert(e =~= q2 + seq![10u8] + line2);
            lemma_split_at_last(q1, line1, q2, line2, 10u8);
            assert(pre1 =~= pre2);
            lemma_ser_lines_injective(k1, g1, i1 - 1, k2, g2, i2 - 1);
        } else if i1 - 1 == 0 {
            assert(e =~= line1);
            let q2 = ser_lines(k2, g2, i2 - 2) + line_of(k2, g2, i2 - 2);
            assert(pre2 =~= q2 + seq![10u8]);
            assert(e =~= q2 + seq![10u8] + line2);
            assert(e[q2.len() as int] == 10u8);
            assert(line1[q2.len() as int] == 10u8);
            assert(false);
        } else {
            assert(e =~= line2);
            let q1 = ser_lines(k1, g1, i1 - 2) + line_of(k1, g1, i1 - 2);
            assert(pre1 =~= q1 + seq![10u8]);
            assert(e =~= q1 + seq![10u8] + line1);
            assert(e[q1.len() as int] == 10u8);
            assert(line2[q1.len() as int] == 10u8);
            assert(false);
        }
        // the final lines agree: same key, same neighbor text
        assert(line1 == line2);
        lemma_ser_row_bytes(k1, g1[i1 - 1], g1[i1 - 1].len() as int);
        lemma_ser_row_bytes(k2, g2[i2 - 1], g2[i2 - 1].len() as int);
        lemma_token_boundary(
            k1[i1 - 1],
            ser_row(k1, g1[i1 - 1], g1[i1 - 1].len() as int),
            k2[i2 - 1],
            ser_row(k2, g2[i2 - 1], g2[i2 - 1].len() as int),
        );
        assert(i1 == i2);
        assert forall|j: int| 0 <= j < i1 implies k1[j] == k2[j] && ser_row(
            k1,
            g1[j],
            g1[j].len() as int,
        ) == ser_row(k2, g2[j], g2[j].len() as int) by {
            if j < i1 - 1 {
            } else {
                assert(j == i1 - 1);
            }
        }
    }
}

/// The cache text is unambiguous: two well-formed graphs with the same
/// serialization are one and the same.  Together with the loader's
/// contract this gives the round trip: whatever `deserialize` accepts for
/// the text of a saved graph is exactly the graph that was saved.
pub proof fn lemma_serialize_injective(
    k1: Seq<u32>,
    g1: Seq<Seq<usize>>,
    k2: Seq<u32>,
    g2: Seq<Seq<usize>>,
)
    requires
        cache_wf(k1, g1),
        cache_wf(k2, g2),
        ser_spec(k1, g1) == ser_spec(k2, g2),
    ensures
        k1 == k2,
        g1 == g2,
{
    lemma_ser_lines_injective(k1, g1, g1.len() as int, k2, g2, g2.len() as int);
    assert(k1 =~= k2);
    assert forall|j: int| 0 <= j < g1.len() implies g1[j] == g2[j] by {
        lemma_ser_row_injective(
            k1,
            g1[j],
            g1[j].len() as int,
            g2[j],
            g2[j].len() as int,
        );
        assert(g1[j] =~= g2[j]);
    }
    assert(g1 =~= g2);
}


/// The mask assembled by or-ing one bit per byte of `s`, low letters at
/// high bits, over the first `c` bytes.
pub open spec fn or_bits(s: Seq<u8>, c: int) -> u32
    decreases c,
{
    if c <= 0 {
        0u32
    } else {
        or_bits(s, c - 1) | (1u32 << ((122 - s[c - 1]) as u32))
    }
}

/// Which bits the assembled mask has: one per byte seen, nothing else.
proof fn lemma_or_bits_props(s: Seq<u8>, c: int)
    requires
        0 <= c <= s.len(),
        forall|x: int| 0 <= x < s.len() ==> 97 <= #[trigger] s[x] <= 122,
    ensures
        or_bits(s, c) < (1u32 << 26),
        forall|t: u32|
            t < 26 ==> ((#[trigger] (or_bits(s, c) & (1u32 << t))) != 0 <==> exists|x: int|
                0 <= x < c && 122 - s[x] == t),
    decreases c,
{
    if c > 0 {
        lemma_or_bits_props(s, c - 1);
        let pre = or_bits(s, c - 1);
        let b = s[c - 1];
        let w = (122 - b) as u32;
        assert(w < 26);
        assert(pre < (1u32 << 26) && w < 26 ==> (pre | (1u32 << w)) < (1u32 << 26))
            by (bit_vector);
        assert forall|t: u32| t < 26 implies ((#[trigger] (or_bits(s, c) & (1u32 << t))) != 0
            <==> exists|x: int| 0 <= x < c && 122 - s[x] == t) by {
            assert(((pre | (1u32 << w)) & (1u32 << t) != 0) == ((pre & (1u32 << t)) != 0 || t
                == w)) by (bit_vector)
                requires
                    t < 26,
                    w < 26,
            ;
            if or_bits(s, c) & (1u32 << t) != 0 {
                if pre & (1u32 << t) != 0 {
                    let x = choose|x: int| 0 <= x < c - 1 && 122 - s[x] == t;
                    assert(0 <= x < c && 122 - s[x] == t);
                } else {
                    assert(122 - s[c - 1] == t);
                }
            }
            if exists|x: int| 0 <= x < c && 122 - s[x] == t {
                let x = choose|x: int| 0 <= x < c && 122 - s[x] == t;
                if x < c - 1 {
                    assert(pre & (1u32 << t) != 0);
                }
            }
        }
    } else {
        assert(0u32 < (1u32 << 26)) by (bit_vector);
        assert forall|t: u32| t < 26 implies ((#[trigger] (or_bits(s, c) & (1u32 << t))) != 0
            <==> exists|x: int| 0 <= x < c && 122 - s[x] == t) by {
            assert(0u32 & (1u32 << t) == 0) by (bit_vector);
        }
    }
}

/// Reassembling a key's bytes gives back exactly the mask it encodes.
proof fn lemma_or_bits_key(m: u32)
    requires
        0 < m < (1u32 << 26),
    ensures
        or_bits(key_of(m), key_of(m).len() as int) == m,
{
    lemma_key_prefix_props(m, 26);
    let kb = key_of(m);
    lemma_or_bits_props(kb, kb.len() as int);
    let acc = or_bits(kb, kb.len() as int);
    assert forall|t: u32| t < 26 implies ((#[trigger] (m & (1u32 << t))) != 0 <==> (acc & (1u32
        << t)) != 0) by {
        assert((acc & (1u32 << t)) != 0 <==> exists|x: int|
            0 <= x < kb.len() && 122 - kb[x] == t);
        assert(kb.contains((122 - t) as u8) <==> (m & (1u32 << t)) != 0);
        if kb.contains((122 - t) as u8) {
            let x = choose|x: int| 0 <= x < kb.len() && kb[x] == (122 - t) as u8;
            assert(122 - kb[x] == t);
        }
        if exists|x: int| 0 <= x < kb.len() && 122 - kb[x] == t {
            let x = choose|x: int| 0 <= x < kb.len() && 122 - kb[x] == t;
            assert(kb[x] == (122 - t) as u8);
            assert(kb.contains((122 - t) as u8));
        }
    }
    assert(((m & (1u32 << 0u32) != 0) <==> (acc & (1u32 << 0u32) != 0)) && ((m & (1u32 << 1u32) != 0) <==> (acc & (1u32 << 1u32) != 0)) && ((m & (1u32 << 2u32) != 0) <==> (acc & (1u32 << 2u32) != 0)) && ((m & (1u32 << 3u32) != 0) <==> (acc & (1u32 << 3u32) != 0)) && ((m & (1u32 << 4u32) != 0) <==> (acc & (1u32 << 4u32) != 0)) && ((m & (1u32 << 5u32) != 0) <==> (acc & (1u32 << 5u32) != 0)) && ((m & (1u32 << 6u32) != 0) <==> (acc & (1u32 << 6u32) != 0)) && ((m & (1u32 << 7u32) != 0) <==> (acc & (1u32 << 7u32) != 0)) && ((m & (1u32 << 8u32) != 0) <==> (acc & (1u32 << 8u32) != 0)) && ((m & (1u32 << 9u32) != 0) <==> (acc & (1u32 << 9u32) != 0)) && ((m & (1u32 << 10u32) != 0) <==> (acc & (1u32 << 10u32) != 0)) && ((m & (1u32 << 11u32) != 0) <==> (acc & (1u32 << 11u32) != 0)) && ((m & (1u32 << 12u32) != 0) <==> (acc & (1u32 << 12u32) != 0)) && ((m & (1u32 << 13u32) != 0) <==> (acc & (1u32 << 13u32) != 0)) && ((m & (1u32 << 14u32) != 0) <==> (acc & (1u32 << 14u32) != 0)) && ((m & (1u32 << 15u32) != 0) <==> (acc & (1u32 << 15u32) != 0)) && ((m & (1u32 << 16u32) != 0) <==> (acc & (1u32 << 16u32) != 0)) && ((m & (1u32 << 17u32) != 0) <==> (acc & (1u32 << 17u32) != 0)) && ((m & (1u32 << 18u32) != 0) <==> (acc & (1u32 << 18u32) != 0)) && ((m & (1u32 << 19u32) != 0) <==> (acc & (1u32 << 19u32) != 0)) && ((m & (1u32 << 20u32) != 0) <==> (acc & (1u32 << 20u32) != 0)) && ((m & (1u32 << 21u32) != 0) <==> (acc & (1u32 << 21u32) != 0)) && ((m & (1u32 << 22u32) != 0) <==> (acc & (1u32 << 22u32) != 0)) && ((m & (1u32 << 23u32) != 0) <==> (acc & (1u32 << 23u32) != 0)) && ((m & (1u32 << 24u32) != 0) <==> (acc & (1u32 << 24u32) != 0)) && ((m & (1u32 << 25u32) != 0) <==> (acc & (1u32 << 25u32) != 0)));
    assert(m == acc) by (bit_vector)
        requires
            m < (1u32 << 26),
            acc < (1u32 << 26),
            (m & (1u32 << 0u32) != 0) <==> (acc & (1u32 << 0u32) != 0), (m & (1u32 << 1u32) != 0) <==> (acc & (1u32 << 1u32) != 0), (m & (1u32 << 2u32) != 0) <==> (acc & (1u32 << 2u32) != 0), (m & (1u32 << 3u32) != 0) <==> (acc & (1u32 << 3u32) != 0), (m & (1u32 << 4u32) != 0) <==> (acc & (1u32 << 4u32) != 0), (m & (1u32 << 5u32) != 0) <==> (acc & (1u32 << 5u32) != 0), (m & (1u32 << 6u32) != 0) <==> (acc & (1u32 << 6u32) != 0), (m & (1u32 << 7u32) != 0) <==> (acc & (1u32 << 7u32) != 0), (m & (1u32 << 8u32) != 0) <==> (acc & (1u32 << 8u32) != 0), (m & (1u32 << 9u32) != 0) <==> (acc & (1u32 << 9u32) != 0), (m & (1u32 << 10u32) != 0) <==> (acc & (1u32 << 10u32) != 0), (m & (1u32 << 11u32) != 0) <==> (acc & (1u32 << 11u32) != 0), (m & (1u32 << 12u32) != 0) <==> (acc & (1u32 << 12u32) != 0), (m & (1u32 << 13u32) != 0) <==> (acc & (1u32 << 13u32) != 0), (m & (1u32 << 14u32) != 0) <==> (acc & (1u32 << 14u32) != 0), (m & (1u32 << 15u32) != 0) <==> (acc & (1u32 << 15u32) != 0), (m & (1u32 << 16u32) != 0) <==> (acc & (1u32 << 16u32) != 0), (m & (1u32 << 17u32) != 0) <==> (acc & (1u32 << 17u32) != 0), (m & (1u32 << 18u32) != 0) <==> (acc & (1u32 << 18u32) != 0), (m & (1u32 << 19u32) != 0) <==> (acc & (1u32 << 19u32) != 0), (m & (1u32 << 20u32) != 0) <==> (acc & (1u32 << 20u32) != 0), (m & (1u32 << 21u32) != 0) <==> (acc & (1u32 << 21u32) != 0), (m & (1u32 << 22u32) != 0) <==> (acc & (1u32 << 22u32) != 0), (m & (1u32 << 23u32) != 0) <==> (acc & (1u32 << 23u32) != 0), (m & (1u32 << 24u32) != 0) <==> (acc & (1u32 << 24u32) != 0), (m & (1u32 << 25u32) != 0) <==> (acc & (1u32 << 25u32) != 0);
}

/// A shorter serialization prefix is a prefix of a longer one.
proof fn lemma_ser_lines_prefix(keys: Seq<u32>, g: Seq<Seq<usize>>, j1: int, j2: int)
    requires
        0 <= j1 <= j2,
    ensures
        ser_lines(keys, g, j1).len() <= ser_lines(keys, g, j2).len(),
        forall|x: int|
            0 <= x < ser_lines(keys, g, j1).len() ==> #[trigger] ser_lines(keys, g, j2)[x]
                == ser_lines(keys, g, j1)[x],
    decreases j2 - j1,
{
    if j2 > j1 {
        lemma_ser_lines_prefix(keys, g, j1, j2 - 1);
        let pre = ser_lines(keys, g, j2 - 1);
        let cur = ser_lines(keys, g, j2);
        assert(forall|x: int| 0 <= x < pre.len() ==> cur[x] == pre[x]);
    }
}


/// Prefixes of the serialized neighbor text.
proof fn lemma_ser_row_prefix(keys: Seq<u32>, row: Seq<usize>, p1: int, p2: int)
    requires
        0 <= p1 <= p2,
    ensures
        ser_row(keys, row, p1).len() <= ser_row(keys, row, p2).len(),
        forall|x: int|
            0 <= x < ser_row(keys, row, p1).len() ==> #[trigger] ser_row(keys, row, p2)[x]
                == ser_row(keys, row, p1)[x],
    decreases p2 - p1,
{
    if p2 > p1 {
        lemma_ser_row_prefix(keys, row, p1, p2 - 1);
        let pre = ser_row(keys, row, p2 - 1);
        let cur = ser_row(keys, row, p2);
        assert(forall|x: int| 0 <= x < pre.len() ==> cur[x] == pre[x]);
    }
}

/// Where token `t` of line `i` starts in the serialized text: the node key
/// at the head of the line, or neighbor `t - 1` after its space.
pub open spec fn tok_off(k: Seq<u32>, g: Seq<Seq<usize>>, i: int, t: int) -> int {
    if t == 0 {
        ser_lines(k, g, i).len() as int
    } else {
        ser_lines(k, g, i).len() + key_of(k[i]).len() + ser_row(k, g[i], t - 1).len() + 1int
    }
}

/// Which mask token `t` of line `i` spells.
pub open spec fn tok_mask(k: Seq<u32>, g: Seq<Seq<usize>>, i: int, t: int) -> u32 {
    if t == 0 {
        k[i]
    } else {
        k[g[i][t - 1] as int]
    }
}

/// The serialized text around one token: its key bytes sit at its offset,
/// a space follows when more neighbors come, the line's newline otherwise.
#[verifier::rlimit(100)]
proof fn lemma_token_region(k: Seq<u32>, g: Seq<Seq<usize>>, i: int, t: int)
    requires
        cache_wf(k, g),
        0 <= i < g.len(),
        0 <= t <= g[i].len(),
    ensures
        tok_off(k, g, i, t) + key_of(tok_mask(k, g, i, t)).len() + 1 <= ser_spec(k, g).len(),
        forall|x: int|
            0 <= x < key_of(tok_mask(k, g, i, t)).len() ==> #[trigger] ser_spec(k, g)[tok_off(
                k,
                g,
                i,
                t,
            ) + x] == key_of(tok_mask(k, g, i, t))[x],
        ser_spec(k, g)[tok_off(k, g, i, t) + key_of(tok_mask(k, g, i, t)).len()] == (if t < g[i].len() {
            32u8
        } else {
            10u8
        }),
        t == g[i].len() ==> tok_off(k, g, i, t) + key_of(tok_mask(k, g, i, t)).len() + 1
            == ser_lines(k, g, i + 1).len(),
        t < g[i].len() ==> tok_off(k, g, i, t) + key_of(tok_mask(k, g, i, t)).len() + 1 == tok_off(
            k,
            g,
            i,
            t + 1,
        ),
{
    let m = tok_mask(k, g, i, t);
    let kb = key_of(m);
    let base = ser_lines(k, g, i);
    let row = g[i];
    let rl = row.len() as int;
    let line = key_of(k[i]) + ser_row(k, row, rl);
    let nxt = ser_lines(k, g, i + 1);
    assert(nxt == base + key_of(k[i]) + ser_row(k, row, rl) + seq![10u8]);
    assert(nxt.len() == base.len() + line.len() + 1);
    lemma_ser_lines_prefix(k, g, i + 1, g.len() as int);
    assert(forall|x: int| 0 <= x < nxt.len() ==> #[trigger] ser_spec(k, g)[x] == nxt[x]);
    assert(forall|x: int| 0 <= x < line.len() ==> #[trigger] nxt[base.len() + x] == line[x]);
    assert(nxt[base.len() + line.len() as int] == 10u8);
    if t == 0 {
        assert(forall|x: int| 0 <= x < kb.len() ==> #[trigger] line[x] == kb[x]);
        if rl > 0 {
            lemma_ser_row_bytes(k, row, rl);
            assert(line[kb.len() as int] == ser_row(k, row, rl)[0]);
            assert(ser_row(k, row, rl)[0] == 32u8);
        } else {
            assert(line.len() == kb.len());
            assert(ser_spec(k, g)[base.len() + kb.len() as int] == 10u8);
        }
    } else {
        let pre = ser_row(k, row, t - 1);
        let cur = ser_row(k, row, t);
        assert(cur == pre + seq![32u8] + kb);
        lemma_ser_row_prefix(k, row, t, rl);
        assert(forall|x: int| 0 <= x < cur.len() ==> #[trigger] ser_row(k, row, rl)[x] == cur[x]);
        assert forall|x: int| 0 <= x < kb.len() implies #[trigger] ser_spec(k, g)[tok_off(
            k,
            g,
            i,
            t,
        ) + x] == kb[x] by {
            assert(cur[pre.len() + 1 + x] == kb[x]);
            assert(ser_row(k, row, rl)[pre.len() + 1 + x] == kb[x]);
            assert(line[key_of(k[i]).len() + pre.len() + 1 + x] == kb[x]);
        }
        if t < rl {
            let cur2 = ser_row(k, row, t + 1);
            assert(cur2 == cur + seq![32u8] + key_of(k[row[t] as int]));
            lemma_ser_row_prefix(k, row, t + 1, rl);
            assert(cur2[cur.len() as int] == 32u8);
            assert(ser_row(k, row, rl)[cur.len() as int] == 32u8);
            assert(line[key_of(k[i]).len() + cur.len() as int] == 32u8);
        } else {
            assert(line.len() == key_of(k[i]).len() + cur.len());
            assert(ser_spec(k, g)[base.len() + line.len() as int] == 10u8);
        }
    }
}

/// Serialized prefixes grow strictly with each line.
proof fn lemma_ser_lines_strict(k: Seq<u32>, g: Seq<Seq<usize>>, i: int)
    requires
        cache_wf(k, g),
        0 <= i < g.len(),
    ensures
        ser_lines(k, g, i).len() < ser_lines(k, g, i + 1).len(),
{
    assert(ser_lines(k, g, i + 1).len() == ser_lines(k, g, i).len() + key_of(k[i]).len()
        + ser_row(k, g[i], g[i].len() as int).len() + 1);
}

} // verus!
