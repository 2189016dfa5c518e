//! Lexicographic (code-point) order on words, and a verified sort that
//! puts a vector of words into that order.  The sort fixes the canonical
//! order of the dictionary and of each emitted five-word answer.

use vstd::prelude::*;
use vstd::relations::{sorted_by, total_ordering};
use vstd::seq_lib::lemma_multiset_commutative;
use vstd::seq_lib::lemma_sorted_unique;
use vstd::string::*;

verus! {

/// The views of a vector of words: each word as its character sequence.
pub open spec fn wv(v: Seq<String>) -> Seq<Seq<char>> {
    v.map_values(|w: String| w@)
}

/// Lexicographic order on character sequences by code point; a proper
/// prefix comes before every extension of it.
pub open spec fn lex_le(a: Seq<char>, b: Seq<char>) -> bool
    decreases a.len(),
{
    if a.len() == 0 {
        true
    } else if b.len() == 0 {
        false
    } else if (a[0] as int) < (b[0] as int) {
        true
    } else if (a[0] as int) > (b[0] as int) {
        false
    } else {
        lex_le(a.drop_first(), b.drop_first())
    }
}

/// `lex_le` as a relation value, for vstd's ordering and sorting lemmas.
pub open spec fn lex_leq() -> spec_fn(Seq<char>, Seq<char>) -> bool {
    |a: Seq<char>, b: Seq<char>| lex_le(a, b)
}

proof fn lemma_lex_le_refl(a: Seq<char>)
    ensures
        lex_le(a, a),
    decreases a.len(),
{
    if a.len() > 0 {
        lemma_lex_le_refl(a.drop_first());
    }
}

proof fn lemma_lex_le_total(a: Seq<char>, b: Seq<char>)
    ensures
        lex_le(a, b) || lex_le(b, a),
    decreases a.len(),
{
    if a.len() > 0 && b.len() > 0 && a[0] == b[0] {
        lemma_lex_le_total(a.drop_first(), b.drop_first());
    }
}

proof fn lemma_lex_le_antisym(a: Seq<char>, b: Seq<char>)
    requires
        lex_le(a, b),
        lex_le(b, a),
    ensures
        a == b,
    decreases a.len(),
{
    if a.len() == 0 {
        assert(b.len() == 0);
        assert(a =~= b);
    } else {
        assert(b.len() > 0);
        assert(a[0] == b[0]);
        lemma_lex_le_antisym(a.drop_first(), b.drop_first());
        assert(a =~= b) by {
            assert(a.len() == a.drop_first().len() + 1);
            assert(forall|i: int|
                1 <= i < a.len() ==> a[i] == a.drop_first()[i - 1] && b[i] == b.drop_first()[i
                    - 1]);
        }
    }
}

proof fn lemma_lex_le_trans(a: Seq<char>, b: Seq<char>, c: Seq<char>)
    requires
        lex_le(a, b),
        lex_le(b, c),
    ensures
        lex_le(a, c),
    decreases a.len(),
{
    if a.len() > 0 {
        assert(b.len() > 0);
        assert(c.len() > 0);
        if a[0] == b[0] && b[0] == c[0] {
            lemma_lex_le_trans(a.drop_first(), b.drop_first(), c.drop_first());
        }
    }
}

/// `lex_le` is a total ordering on character sequences.
pub proof fn lemma_lex_total_ordering()
    ensures
        total_ordering(lex_leq()),
{
    let r = lex_leq();
    assert forall|x: Seq<char>| #[trigger] r(x, x) by {
        lemma_lex_le_refl(x);
    }
    assert forall|x: Seq<char>, y: Seq<char>| #[trigger] r(x, y) && #[trigger] r(y, x)
        implies x == y by {
        lemma_lex_le_antisym(x, y);
    }
    assert forall|x: Seq<char>, y: Seq<char>, z: Seq<char>|
        #[trigger] r(x, y) && #[trigger] r(y, z) implies r(x, z) by {
        lemma_lex_le_trans(x, y, z);
    }
    assert forall|x: Seq<char>, y: Seq<char>| #[trigger] r(x, y) || #[trigger] r(y, x) by {
        lemma_lex_le_total(x, y);
    }
}

proof fn lemma_lex_skip_step(a: Seq<char>, b: Seq<char>, i: int)
    requires
        0 <= i < a.len(),
        i < b.len(),
        a[i] == b[i],
    ensures
        lex_le(a.skip(i), b.skip(i)) == lex_le(a.skip(i + 1), b.skip(i + 1)),
{
    assert(a.skip(i).len() > 0);
    assert(b.skip(i).len() > 0);
    assert(a.skip(i)[0] == a[i]);
    assert(b.skip(i)[0] == b[i]);
    assert(a.skip(i).drop_first() =~= a.skip(i + 1));
    assert(b.skip(i).drop_first() =~= b.skip(i + 1));
}

/// Compares two words in lexicographic order, character by character.
pub fn str_le(a: &str, b: &str) -> (r: bool)
    ensures
        r == lex_le(a@, b@),
{
    let alen = a.unicode_len();
    let blen = b.unicode_len();
    proof {
        assert(a@.skip(0) =~= a@);
        assert(b@.skip(0) =~= b@);
    }
    let mut i: usize = 0;
    while i < alen && i < blen
        invariant
            alen == a@.len(),
            blen == b@.len(),
            i <= alen,
            i <= blen,
            lex_le(a@, b@) == lex_le(a@.skip(i as int), b@.skip(i as int)),
        decreases alen - i,
    {
        let ca = a.get_char(i);
        let cb = b.get_char(i);
        proof {
            assert(a@.skip(i as int).len() > 0);
            assert(b@.skip(i as int).len() > 0);
            assert(a@.skip(i as int)[0] == a@[i as int]);
            assert(b@.skip(i as int)[0] == b@[i as int]);
        }
        if (ca as u32) < (cb as u32) {
            return true;
        }
        if (ca as u32) > (cb as u32) {
            return false;
        }
        proof {
            assert(ca as int == cb as int);
            assert(ca == cb);
            lemma_lex_skip_step(a@, b@, i as int);
        }
        i += 1;
    }
    proof {
        if i == alen {
            assert(a@.skip(i as int).len() == 0);
        } else {
            assert(i == blen && i < alen);
            assert(a@.skip(i as int).len() > 0);
            assert(b@.skip(i as int).len() == 0);
        }
    }
    alen <= blen
}

proof fn lemma_wv_insert(s: Seq<String>, p: int, w: String)
    requires
        0 <= p <= s.len(),
    ensures
        wv(s.insert(p, w)) =~= wv(s).insert(p, w@),
{
    s.insert_ensures(p, w);
}

proof fn lemma_to_multiset_insert(t: Seq<Seq<char>>, p: int, x: Seq<char>)
    requires
        0 <= p <= t.len(),
    ensures
        t.insert(p, x).to_multiset() == t.to_multiset().insert(x),
{
    broadcast use vstd::seq_lib::group_to_multiset_ensures;

    let left = t.subrange(0, p);
    let right = t.subrange(p, t.len() as int);
    assert(t.insert(p, x) == left.push(x) + right);
    lemma_multiset_commutative(left.push(x), right);
    lemma_multiset_commutative(left, right);
    assert(left.push(x).to_multiset() =~= left.to_multiset().insert(x));
    assert(left + right =~= t);
    assert(t.insert(p, x).to_multiset() =~= t.to_multiset().insert(x));
}

/// Sorts a vector of words into lexicographic order by insertion into an
/// initially empty vector.  The result is exactly the canonical sorted
/// arrangement of the input words.
pub fn sort_strings(v: &Vec<String>) -> (r: Vec<String>)
    ensures
        sorted_by(wv(r@), lex_leq()),
        wv(r@).to_multiset() == wv(v@).to_multiset(),
        wv(r@) == wv(v@).sort_by(lex_leq()),
{
    proof {
        lemma_lex_total_ordering();
    }
    let mut out: Vec<String> = Vec::new();
    let mut i: usize = 0;
    proof {
        assert(wv(v@.take(0)) =~= Seq::<Seq<char>>::empty());
        assert(wv(out@) =~= Seq::<Seq<char>>::empty());
    }
    while i < v.len()
        invariant
            i <= v.len(),
            sorted_by(wv(out@), lex_leq()),
            wv(out@).to_multiset() == wv(v@.take(i as int)).to_multiset(),
        decreases v.len() - i,
    {
        let w = v[i].clone();
        let ghost pre = out@;
        let mut p: usize = 0;
        while p < out.len() && str_le(&out[p], &w)
            invariant
                out@ == pre,
                p <= out.len(),
                w@ == v@[i as int]@,
                forall|q: int| 0 <= q < p ==> lex_le(wv(out@)[q], w@),
            decreases out.len() - p,
        {
            p += 1;
        }
        proof {
            lemma_lex_total_ordering();
            let r = lex_leq();
            if p < out@.len() {
                assert(!lex_le(wv(out@)[p as int], w@));
                assert(r(wv(out@)[p as int], w@) || r(w@, wv(out@)[p as int]));
                assert(lex_le(w@, wv(out@)[p as int]));
            }
            assert forall|q: int| p <= q < out@.len() implies lex_le(w@, wv(out@)[q]) by {
                assert(r(w@, wv(out@)[p as int]));
                if q > p {
                    assert(r(wv(out@)[p as int], wv(out@)[q]));
                    assert(r(w@, wv(out@)[p as int]) && r(wv(out@)[p as int], wv(out@)[q]) ==> r(
                        w@,
                        wv(out@)[q],
                    ));
                }
            }
        }
        let ghost old_out = out@;
        out.insert(p, w);
        proof {
            lemma_wv_insert(old_out, p as int, w);
            lemma_to_multiset_insert(wv(old_out), p as int, w@);
            let s = wv(out@);
            let t = wv(old_out);
            assert(s =~= t.insert(p as int, w@));
            t.insert_ensures(p as int, w@);
            assert forall|x: int, y: int| 0 <= x < y < s.len() implies #[trigger] lex_leq()(
                s[x],
                s[y],
            ) by {
                lemma_lex_le_refl(w@);
                if x < p && y < p {
                    assert(s[x] == t[x] && s[y] == t[y]);
                } else if x < p && y == p {
                    assert(s[x] == t[x] && s[y] == w@);
                } else if x < p && y > p {
                    assert(s[x] == t[x] && s[y] == t[y - 1]);
                } else if x == p && y > p {
                    assert(s[x] == w@ && s[y] == t[y - 1]);
                } else if x > p && y > p {
                    assert(s[x] == t[x - 1] && s[y] == t[y - 1]);
                }
            }
            assert(wv(v@.take(i + 1)) =~= wv(v@.take(i as int)).push(v@[i as int]@));
            broadcast use vstd::seq_lib::group_to_multiset_ensures;

            assert(wv(v@.take(i + 1)).to_multiset() =~= wv(v@.take(i as int)).to_multiset().insert(
                w@,
            ));
        }
        i += 1;
    }
    proof {
        assert(v@.take(v@.len() as int) =~= v@);
        lemma_lex_total_ordering();
        wv(v@).lemma_sort_by_ensures(lex_leq());
        lemma_sorted_unique(wv(out@), wv(v@).sort_by(lex_leq()), lex_leq());
    }
    out
}

} // verus!
