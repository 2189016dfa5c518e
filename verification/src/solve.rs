//! The whole pipeline on a word list: keep the five-letter words, sort
//! them, drop those with a repeated letter, encode, compress anagrams,
//! build the disjointness graph, enumerate the cliques and expand each
//! into concrete five-word answers.

use vstd::prelude::*;
use vstd::relations::sorted_by;
use vstd::string::*;
use crate::anagrams::{class_of, compress_anagrams, lemma_class_upto_membership};
use crate::encode::{has_repeat, word_mask, word_repeat_char, word_to_u32};
use crate::expand::{
    cliques_from_anagram, expand_all, key_slot, lemma_expand_all_complete, lemma_expand_all_words,
    wvv,
};
use crate::graph::create_graph;
use crate::order::{lex_leq, sort_strings, wv};
use crate::search::{clique_valid, find_cliques, CliqueRecord};

verus! {

/// Words of `v` that are worth encoding: five letters, none repeated,
/// drawn from the input list.
pub open spec fn good_words(orig: Seq<Seq<char>>, v: Seq<Seq<char>>) -> bool {
    forall|x: int|
        0 <= x < v.len() ==> (#[trigger] v[x]).len() == 5 && !has_repeat(v[x]) && orig.contains(
            v[x],
        )
}

/// Five usable words with pairwise-disjoint letter sets, listed with
/// strictly ascending masks — the canonical form of one solution.
pub open spec fn five_ok(orig: Seq<Seq<char>>, ws: Seq<Seq<char>>) -> bool {
    &&& ws.len() == 5
    &&& forall|i: int|
        0 <= i < 5 ==> (#[trigger] ws[i]).len() == 5 && !has_repeat(ws[i]) && orig.contains(ws[i])
    &&& forall|i: int, j: int| 0 <= i < j < 5 ==> word_mask(ws[i]) < word_mask(ws[j])
    &&& forall|i: int, j: int| 0 <= i < j < 5 ==> word_mask(ws[i]) & word_mask(ws[j]) == 0
}

/// The five anagram classes a compressed clique names, in record order.
pub open spec fn rec_classes(classes: Seq<Vec<String>>, rr: CliqueRecord) -> Seq<Seq<Seq<char>>> {
    seq![
        wv(classes[rr.a as int]@),
        wv(classes[rr.b as int]@),
        wv(classes[rr.c as int]@),
        wv(classes[rr.d as int]@),
        wv(classes[rr.e as int]@),
    ]
}

/// A word that survives the filters has its mask among the node keys and
/// itself inside that node's anagram class.
proof fn lemma_word_slot(
    filtered: Seq<Seq<char>>,
    coded: Seq<u32>,
    keys: Seq<u32>,
    classes: Seq<Vec<String>>,
    w: Seq<char>,
)
    requires
        filtered.contains(w),
        coded.len() == filtered.len(),
        forall|x: int| 0 <= x < coded.len() ==> coded[x] == word_mask(filtered[x]),
        forall|kk: u32| #[trigger] keys.contains(kk) <==> coded.contains(kk),
        forall|p: int, q: int| 0 <= p < q < keys.len() ==> keys[p] < keys[q],
        keys.len() == classes.len(),
        forall|t: int|
            0 <= t < keys.len() ==> wv(#[trigger] classes[t]@) == class_of(
                filtered,
                coded,
                keys[t],
            ),
    ensures
        exists|p: int|
            0 <= p < keys.len() && #[trigger] keys[p] == word_mask(w) && wv(classes[p]@).contains(
                w,
            ),
{
    let j = choose|j: int| 0 <= j < filtered.len() && filtered[j] == w;
    assert(coded[j] == word_mask(w));
    assert(coded.contains(word_mask(w)));
    assert(keys.contains(word_mask(w)));
    let p = choose|p: int| 0 <= p < keys.len() && keys[p] == word_mask(w);
    assert(wv(classes[p]@) == class_of(filtered, coded, keys[p]));
    lemma_class_upto_membership(filtered, coded, keys[p], filtered.len() as int);
    assert(class_of(filtered, coded, keys[p]).contains(w)) by {
        assert(0 <= j < filtered.len() && filtered[j] == w && coded[j] == keys[p]);
    }
    assert(keys[p] == word_mask(w) && wv(classes[p]@).contains(w));
}

/// Runs the full search on a dictionary.  Every emitted line is five of
/// the input words in sorted order, each five letters long with no
/// repeated letter; a word with a repeated letter never appears.
pub fn solve(words: &Vec<String>) -> (out: Vec<Vec<String>>)
    ensures
        forall|t: int| 0 <= t < out@.len() ==> (#[trigger] out@[t]@).len() == 5,
        forall|t: int| 0 <= t < out@.len() ==> sorted_by(wv(#[trigger] out@[t]@), lex_leq()),
        forall|t: int, x: int|
            #![trigger out@[t]@[x]]
            0 <= t < out@.len() && 0 <= x < out@[t]@.len() ==> wv(words@).contains(out@[t]@[x]@)
                && !has_repeat(out@[t]@[x]@) && out@[t]@[x]@.len() == 5,
        forall|ws: Seq<Seq<char>>|
            #[trigger] five_ok(wv(words@), ws) ==> exists|t: int|
                0 <= t < out@.len() && wv(#[trigger] out@[t]@).to_multiset() == ws.to_multiset(),
{
    let n = words.len();
    let mut five: Vec<String> = Vec::new();
    let mut i: usize = 0;
    while i < n
        invariant
            n == words@.len(),
            i <= n,
            forall|x: int|
                0 <= x < five@.len() ==> (#[trigger] five@[x]@).len() == 5 && wv(words@).contains(
                    five@[x]@,
                ),
            forall|x: int|
                0 <= x < i ==> ((#[trigger] words@[x]@).len() == 5 ==> wv(five@).contains(
                    words@[x]@,
                )),
        decreases n - i,
    {
        let w = &words[i];
        let ghost pre = five@;
        if w.unicode_len() == 5 {
            five.push(w.clone());
            proof {
                assert(wv(words@)[i as int] == words@[i as int]@);
                assert(wv(words@).contains(words@[i as int]@));
                assert(forall|x: int| 0 <= x < pre.len() ==> five@[x] == pre[x]);
                assert(wv(five@)[pre.len() as int] == words@[i as int]@);
            }
        }
        proof {
            assert forall|x: int|
                0 <= x < i + 1 implies ((#[trigger] words@[x]@).len() == 5 ==> wv(five@).contains(
                words@[x]@,
            )) by {
                if words@[x]@.len() == 5 {
                    if x < i {
                        assert(wv(pre).contains(words@[x]@));
                        let q = choose|q: int| 0 <= q < pre.len() && wv(pre)[q] == words@[x]@;
                        assert(wv(five@)[q] == words@[x]@);
                    } else {
                        assert(wv(five@)[pre.len() as int] == words@[x]@);
                    }
                }
            }
        }
        i += 1;
    }
    let sorted_words = sort_strings(&five);
    proof {
        broadcast use vstd::seq_lib::group_to_multiset_ensures;

        assert forall|x: int| 0 <= x < sorted_words@.len() implies (
        #[trigger] sorted_words@[x]@).len() == 5 && wv(words@).contains(sorted_words@[x]@) by {
            assert(wv(sorted_words@)[x] == sorted_words@[x]@);
            assert(wv(sorted_words@).contains(sorted_words@[x]@));
            assert(wv(five@).to_multiset().count(sorted_words@[x]@) > 0);
            assert(wv(five@).contains(sorted_words@[x]@));
            let p = choose|p: int| 0 <= p < wv(five@).len() && wv(five@)[p] == sorted_words@[x]@;
            assert(five@[p]@ == sorted_words@[x]@);
        }
        assert forall|w: Seq<char>|
            wv(words@).contains(w) && w.len() == 5 implies wv(sorted_words@).contains(w) by {
            let x = choose|x: int| 0 <= x < wv(words@).len() && wv(words@)[x] == w;
            assert(words@[x]@ == w);
            assert(wv(five@).contains(w));
            assert(wv(five@).to_multiset().count(w) > 0);
            assert(wv(sorted_words@).to_multiset().count(w) > 0);
            assert(wv(sorted_words@).contains(w));
        }
    }
    let m = sorted_words.len();
    let mut filtered: Vec<String> = Vec::new();
    let mut i2: usize = 0;
    while i2 < m
        invariant
            m == sorted_words@.len(),
            i2 <= m,
            forall|x: int|
                0 <= x < sorted_words@.len() ==> (#[trigger] sorted_words@[x]@).len() == 5 && wv(
                    words@,
                ).contains(sorted_words@[x]@),
            good_words(wv(words@), wv(filtered@)),
            forall|w: Seq<char>|
                wv(words@).contains(w) && w.len() == 5 ==> #[trigger] wv(sorted_words@).contains(
                    w,
                ),
            forall|x: int|
                0 <= x < i2 ==> (!has_repeat(#[trigger] sorted_words@[x]@) ==> wv(
                    filtered@,
                ).contains(sorted_words@[x]@)),
        decreases m - i2,
    {
        let w = &sorted_words[i2];
        let ghost pre = filtered@;
        if !word_repeat_char(w.as_str(), 5) {
            filtered.push(w.clone());
            proof {
                assert(forall|x: int| 0 <= x < pre.len() ==> filtered@[x] == pre[x]);
                assert(wv(filtered@)[pre.len() as int] == sorted_words@[i2 as int]@);
                assert forall|x: int| 0 <= x < wv(filtered@).len() implies (#[trigger] wv(
                    filtered@,
                )[x]).len() == 5 && !has_repeat(wv(filtered@)[x]) && wv(words@).contains(
                    wv(filtered@)[x],
                ) by {
                    if x < pre.len() {
                        assert(wv(filtered@)[x] == wv(pre)[x]);
                        assert((wv(pre)[x]).len() == 5 && !has_repeat(wv(pre)[x]) && wv(
                            words@,
                        ).contains(wv(pre)[x]));
                    } else {
                        assert(wv(filtered@)[x] == sorted_words@[i2 as int]@);
                    }
                }
            }
        }
        proof {
            assert forall|x: int|
                0 <= x < i2 + 1 implies (!has_repeat(#[trigger] sorted_words@[x]@) ==> wv(
                filtered@,
            ).contains(sorted_words@[x]@)) by {
                if !has_repeat(sorted_words@[x]@) {
                    if x < i2 {
                        assert(wv(pre).contains(sorted_words@[x]@));
                        let q = choose|q: int|
                            0 <= q < pre.len() && wv(pre)[q] == sorted_words@[x]@;
                        assert(filtered@[q] == pre[q]);
                        assert(wv(filtered@)[q] == sorted_words@[x]@);
                    } else {
                        assert(!has_repeat(sorted_words@[i2 as int]@));
                        assert(wv(filtered@)[filtered@.len() - 1] == sorted_words@[i2 as int]@);
                    }
                }
            }
        }
        i2 += 1;
    }
    proof {
        assert forall|w: Seq<char>|
            wv(words@).contains(w) && w.len() == 5 && !has_repeat(w) implies wv(
            filtered@,
        ).contains(w) by {
            assert(wv(sorted_words@).contains(w));
            let x = choose|x: int|
                0 <= x < wv(sorted_words@).len() && wv(sorted_words@)[x] == w;
            assert(sorted_words@[x]@ == w);
            assert(!has_repeat(sorted_words@[x]@));
        }
    }
    let fl = filtered.len();
    let mut coded: Vec<u32> = Vec::new();
    let mut i3: usize = 0;
    while i3 < fl
        invariant
            fl == filtered@.len(),
            i3 <= fl,
            coded@.len() == i3,
            forall|x: int| 0 <= x < i3 ==> coded@[x] == word_mask(wv(filtered@)[x]),
        decreases fl - i3,
    {
        let c = word_to_u32(filtered[i3].as_str());
        coded.push(c);
        proof {
            assert(wv(filtered@)[i3 as int] == filtered@[i3 as int]@);
        }
        i3 += 1;
    }
    let compressed = compress_anagrams(&filtered, &coded);
    let keys = compressed.0;
    let classes = compressed.1;
    let graph = create_graph(&keys);
    let recs = find_cliques(&keys, &graph);
    let mut out: Vec<Vec<String>> = Vec::new();
    let nr = recs.len();
    let mut r: usize = 0;
    while r < nr
        invariant
            nr == recs@.len(),
            r <= nr,
            keys@.len() == classes@.len(),
            forall|p: int, q: int| 0 <= p < q < keys@.len() ==> keys@[p] < keys@[q],
            forall|t: int|
                0 <= t < keys@.len() ==> wv(#[trigger] classes@[t]@) == class_of(
                    wv(filtered@),
                    coded@,
                    keys@[t],
                ),
            good_words(wv(words@), wv(filtered@)),
            forall|w: Seq<char>|
                wv(words@).contains(w) && w.len() == 5 && !has_repeat(w)
                    ==> #[trigger] wv(filtered@).contains(w),
            coded@.len() == wv(filtered@).len(),
            forall|x: int| 0 <= x < coded@.len() ==> coded@[x] == word_mask(wv(filtered@)[x]),
            forall|kk: u32| #[trigger] keys@.contains(kk) <==> coded@.contains(kk),
            forall|rr: CliqueRecord| #[trigger] recs@.contains(rr) <==> clique_valid(keys@, rr),
            forall|rr: CliqueRecord, t: int|
                #![trigger recs@.take(r as int).contains(rr), expand_all(Seq::<Seq<char>>::empty(), rec_classes(classes@, rr))[t]]
                recs@.take(r as int).contains(rr) && 0 <= t < expand_all(
                    Seq::<Seq<char>>::empty(),
                    rec_classes(classes@, rr),
                ).len() ==> wvv(out@).contains(expand_all(
                    Seq::<Seq<char>>::empty(),
                    rec_classes(classes@, rr),
                )[t]),
            forall|t: int| 0 <= t < out@.len() ==> (#[trigger] out@[t]@).len() == 5,
            forall|t: int| 0 <= t < out@.len() ==> sorted_by(wv(#[trigger] out@[t]@), lex_leq()),
            forall|t: int, x: int|
                #![trigger out@[t]@[x]]
                0 <= t < out@.len() && 0 <= x < out@[t]@.len() ==> wv(words@).contains(
                    out@[t]@[x]@,
                ) && !has_repeat(out@[t]@[x]@) && out@[t]@[x]@.len() == 5,
        decreases nr - r,
    {
        let rec = recs[r];
        proof {
            assert(recs@.contains(recs@[r as int]));
            assert(clique_valid(keys@, rec));
            assert(rec.nodes()[0] == rec.a && rec.nodes()[1] == rec.b && rec.nodes()[2] == rec.c
                && rec.nodes()[3] == rec.d && rec.nodes()[4] == rec.e);
            assert(rec.a < keys@.len() && rec.b < keys@.len() && rec.c < keys@.len() && rec.d
                < keys@.len() && rec.e < keys@.len());
        }
        let mut anagram: Vec<u32> = Vec::new();
        anagram.push(keys[rec.a]);
        anagram.push(keys[rec.b]);
        anagram.push(keys[rec.c]);
        anagram.push(keys[rec.d]);
        anagram.push(keys[rec.e]);
        proof {
            assert(anagram@ =~= seq![
                keys@[rec.a as int],
                keys@[rec.b as int],
                keys@[rec.c as int],
                keys@[rec.d as int],
                keys@[rec.e as int],
            ]);
            assert forall|s: int| 0 <= s < 5 implies keys@.contains(#[trigger] anagram@[s]) by {
                if s == 0 {
                    assert(keys@[rec.a as int] == anagram@[s]);
                } else if s == 1 {
                    assert(keys@[rec.b as int] == anagram@[s]);
                } else if s == 2 {
                    assert(keys@[rec.c as int] == anagram@[s]);
                } else if s == 3 {
                    assert(keys@[rec.d as int] == anagram@[s]);
                } else {
                    assert(keys@[rec.e as int] == anagram@[s]);
                }
            }
        }
        let mut lines = cliques_from_anagram(&anagram, &keys, &classes);
        let ghost cs = seq![
            wv(classes@[key_slot(keys@, anagram@[0])]@),
            wv(classes@[key_slot(keys@, anagram@[1])]@),
            wv(classes@[key_slot(keys@, anagram@[2])]@),
            wv(classes@[key_slot(keys@, anagram@[3])]@),
            wv(classes@[key_slot(keys@, anagram@[4])]@),
        ];
        proof {
            lemma_expand_all_words(Seq::<Seq<char>>::empty(), cs);
            // the expander's slots are exactly the record's node indices
            assert forall|ss: int| 0 <= ss < 5 implies key_slot(keys@, anagram@[ss])
                == rec.nodes()[ss] as int by {
                let nd = rec.nodes()[ss] as int;
                assert(keys@[nd] == anagram@[ss]) by {
                    if ss == 0 {
                        assert(nd == rec.a as int);
                    } else if ss == 1 {
                        assert(nd == rec.b as int);
                    } else if ss == 2 {
                        assert(nd == rec.c as int);
                    } else if ss == 3 {
                        assert(nd == rec.d as int);
                    } else {
                        assert(nd == rec.e as int);
                    }
                }
                let slot = key_slot(keys@, anagram@[ss]);
                assert(0 <= slot < keys@.len() && keys@[slot] == anagram@[ss]);
                if slot < nd {
                    assert(keys@[slot] < keys@[nd]);
                    assert(false);
                }
                if nd < slot {
                    assert(keys@[nd] < keys@[slot]);
                    assert(false);
                }
            }
            assert(cs =~= rec_classes(classes@, rec));
            assert(wvv(lines@) == expand_all(Seq::<Seq<char>>::empty(), cs));
            assert forall|t: int, x: int|
                #![trigger lines@[t]@[x]]
                0 <= t < lines@.len() && 0 <= x < lines@[t]@.len() implies wv(words@).contains(
                lines@[t]@[x]@,
            ) && !has_repeat(lines@[t]@[x]@) && lines@[t]@[x]@.len() == 5 by {
                let w = lines@[t]@[x]@;
                assert(wvv(lines@)[t] == wv(lines@[t]@));
                assert(wv(lines@[t]@)[x] == w);
                assert(expand_all(Seq::<Seq<char>>::empty(), cs)[t][x] == w);
                assert(Seq::<Seq<char>>::empty().contains(w) || exists|k: int|
                    0 <= k < cs.len() && cs[k].contains(w));
                let k = choose|k: int| 0 <= k < cs.len() && cs[k].contains(w);
                let slot = key_slot(keys@, anagram@[k]);
                assert(keys@.contains(anagram@[k]));
                assert(0 <= slot < keys@.len() && keys@[slot] == anagram@[k]);
                assert(cs[k] == wv(classes@[slot]@));
                assert(wv(classes@[slot]@) == class_of(wv(filtered@), coded@, keys@[slot]));
                lemma_class_upto_membership(
                    wv(filtered@),
                    coded@,
                    keys@[slot],
                    wv(filtered@).len() as int,
                );
                let j = choose|j: int|
                    0 <= j < wv(filtered@).len() && wv(filtered@)[j] == w && coded@[j] == keys@[slot];
                assert(wv(filtered@)[j].len() == 5 && !has_repeat(wv(filtered@)[j]) && wv(
                    words@,
                ).contains(wv(filtered@)[j]));
            }
            assert forall|t: int| 0 <= t < lines@.len() implies (#[trigger] lines@[t]@).len()
                == 5 by {
                assert(wvv(lines@)[t] == wv(lines@[t]@));
                assert(expand_all(Seq::<Seq<char>>::empty(), cs)[t].len() == 0 + cs.len());
            }
            assert forall|t: int| 0 <= t < lines@.len() implies sorted_by(
                wv(#[trigger] lines@[t]@),
                lex_leq(),
            ) by {
                assert(wvv(lines@)[t] == wv(lines@[t]@));
                assert(sorted_by(expand_all(Seq::<Seq<char>>::empty(), cs)[t], lex_leq()));
            }
        }
        let ghost out0 = out@;
        let ghost lines0 = lines@;
        out.append(&mut lines);
        proof {
            assert(out@ == out0 + lines0);
            assert(forall|t: int| 0 <= t < out0.len() ==> out@[t] == out0[t]);
            assert(forall|t: int|
                out0.len() <= t < out@.len() ==> out@[t] == lines0[t - out0.len()]);
            assert forall|t: int, x: int|
                #![trigger out@[t]@[x]]
                0 <= t < out@.len() && 0 <= x < out@[t]@.len() implies wv(words@).contains(
                out@[t]@[x]@,
            ) && !has_repeat(out@[t]@[x]@) && out@[t]@[x]@.len() == 5 by {
                if t < out0.len() {
                    assert(out0[t]@[x] == out@[t]@[x]);
                } else {
                    assert(lines0[t - out0.len()]@[x] == out@[t]@[x]);
                }
            }
            assert(recs@.take(r + 1) =~= recs@.take(r as int).push(rec));
            assert(wvv(lines0) == expand_all(Seq::<Seq<char>>::empty(), rec_classes(classes@, rec)));
            assert forall|rr: CliqueRecord, t: int|
                #![trigger recs@.take(r + 1).contains(rr), expand_all(Seq::<Seq<char>>::empty(), rec_classes(classes@, rr))[t]]
                recs@.take(r + 1).contains(rr) && 0 <= t < expand_all(
                    Seq::<Seq<char>>::empty(),
                    rec_classes(classes@, rr),
                ).len() implies wvv(out@).contains(expand_all(
                    Seq::<Seq<char>>::empty(),
                    rec_classes(classes@, rr),
                )[t]) by {
                let ln = expand_all(Seq::<Seq<char>>::empty(), rec_classes(classes@, rr))[t];
                if recs@.take(r as int).contains(rr) {
                    assert(wvv(out0).contains(ln));
                    let q = choose|q: int| 0 <= q < out0.len() && wvv(out0)[q] == ln;
                    assert(wvv(out@)[q] == wv(out@[q]@));
                    assert(out@[q] == out0[q]);
                    assert(wvv(out@)[q] == ln);
                } else {
                    let q = choose|q: int|
                        0 <= q < recs@.take(r + 1).len() && #[trigger] recs@.take(r + 1)[q]
                            == rr;
                    assert(q == r);
                    assert(rr == rec);
                    assert(ln == wvv(lines0)[t]);
                    assert(wv(lines0[t]@) == ln);
                    assert(out@[out0.len() + t] == lines0[t]);
                    assert(wvv(out@)[out0.len() + t] == ln);
                }
            }
        }
        r += 1;
    }
    let nk = keys.len();
    proof {
        assert(nk == keys@.len());
        assert(recs@.take(nr as int) =~= recs@);
        assert forall|ws: Seq<Seq<char>>| #[trigger] five_ok(wv(words@), ws) implies exists|t: int|
            0 <= t < out@.len() && wv(#[trigger] out@[t]@).to_multiset() == ws.to_multiset() by {
            assert(forall|i: int|
                0 <= i < 5 ==> (#[trigger] ws[i]).len() == 5 && !has_repeat(ws[i]) && wv(
                    words@,
                ).contains(ws[i]));
            assert forall|i: int| 0 <= i < 5 implies #[trigger] wv(filtered@).contains(ws[i]) by {
                assert(ws[i].len() == 5 && !has_repeat(ws[i]) && wv(words@).contains(ws[i]));
            }
            lemma_word_slot(wv(filtered@), coded@, keys@, classes@, ws[0]);
            lemma_word_slot(wv(filtered@), coded@, keys@, classes@, ws[1]);
            lemma_word_slot(wv(filtered@), coded@, keys@, classes@, ws[2]);
            lemma_word_slot(wv(filtered@), coded@, keys@, classes@, ws[3]);
            lemma_word_slot(wv(filtered@), coded@, keys@, classes@, ws[4]);
            let p0 = choose|p: int|
                0 <= p < keys@.len() && #[trigger] keys@[p] == word_mask(ws[0]) && wv(
                    classes@[p]@,
                ).contains(ws[0]);
            let p1 = choose|p: int|
                0 <= p < keys@.len() && #[trigger] keys@[p] == word_mask(ws[1]) && wv(
                    classes@[p]@,
                ).contains(ws[1]);
            let p2 = choose|p: int|
                0 <= p < keys@.len() && #[trigger] keys@[p] == word_mask(ws[2]) && wv(
                    classes@[p]@,
                ).contains(ws[2]);
            let p3 = choose|p: int|
                0 <= p < keys@.len() && #[trigger] keys@[p] == word_mask(ws[3]) && wv(
                    classes@[p]@,
                ).contains(ws[3]);
            let p4 = choose|p: int|
                0 <= p < keys@.len() && #[trigger] keys@[p] == word_mask(ws[4]) && wv(
                    classes@[p]@,
                ).contains(ws[4]);
            assert(p0 < p1 && p1 < p2 && p2 < p3 && p3 < p4) by {
                assert(keys@[p0] < keys@[p1] && keys@[p1] < keys@[p2] && keys@[p2] < keys@[p3]
                    && keys@[p3] < keys@[p4]);
                if p1 <= p0 {
                    if p1 < p0 {
                        assert(keys@[p1] < keys@[p0]);
                    }
                    assert(false);
                }
                if p2 <= p1 {
                    if p2 < p1 {
                        assert(keys@[p2] < keys@[p1]);
                    }
                    assert(false);
                }
                if p3 <= p2 {
                    if p3 < p2 {
                        assert(keys@[p3] < keys@[p2]);
                    }
                    assert(false);
                }
                if p4 <= p3 {
                    if p4 < p3 {
                        assert(keys@[p4] < keys@[p3]);
                    }
                    assert(false);
                }
            }
            assert((p0 as usize) as int == p0 && (p1 as usize) as int == p1 && (p2 as usize)
                as int == p2 && (p3 as usize) as int == p3 && (p4 as usize) as int == p4);
            let rec = CliqueRecord {
                a: p0 as usize,
                b: p1 as usize,
                c: p2 as usize,
                d: p3 as usize,
                e: p4 as usize,
            };
            let nd = rec.nodes();
            assert(nd[0] == p0 as usize && nd[1] == p1 as usize && nd[2] == p2 as usize && nd[3]
                == p3 as usize && nd[4] == p4 as usize);
            assert(clique_valid(keys@, rec)) by {
                assert forall|x: int| 0 <= x < nd.len() implies (#[trigger] nd[x])
                    < keys@.len() by {
                    if x == 0 {
                    } else if x == 1 {
                    } else if x == 2 {
                    } else if x == 3 {
                    } else {
                        assert(nd[x] == p4 as usize);
                    }
                }
                assert forall|x: int, y: int| 0 <= x < y < nd.len() implies nd[x] < nd[y] by {
                    assert(nd[x] == p0 as usize || nd[x] == p1 as usize || nd[x] == p2 as usize
                        || nd[x] == p3 as usize || nd[x] == p4 as usize);
                }
                assert forall|x: int, y: int|
                    0 <= x < y < nd.len() implies keys@[nd[x] as int] & keys@[nd[y] as int]
                    == 0 by {
                    assert(keys@[nd[x] as int] == word_mask(ws[x]));
                    assert(keys@[nd[y] as int] == word_mask(ws[y]));
                    assert(word_mask(ws[x]) & word_mask(ws[y]) == 0);
                }
            }
            assert(recs@.contains(rec));
            assert(recs@.take(nr as int).contains(rec)) by {
                let q = choose|q: int| 0 <= q < recs@.len() && recs@[q] == rec;
                assert(recs@.take(nr as int)[q] == rec);
            }
            let rcs = rec_classes(classes@, rec);
            assert forall|i: int| 0 <= i < rcs.len() implies #[trigger] rcs[i].contains(
                ws[i],
            ) by {
                if i == 0 {
                    assert(rcs[i] == wv(classes@[p0]@));
                } else if i == 1 {
                    assert(rcs[i] == wv(classes@[p1]@));
                } else if i == 2 {
                    assert(rcs[i] == wv(classes@[p2]@));
                } else if i == 3 {
                    assert(rcs[i] == wv(classes@[p3]@));
                } else {
                    assert(rcs[i] == wv(classes@[p4]@));
                }
            }
            lemma_expand_all_complete(Seq::<Seq<char>>::empty(), rcs, ws);
            let t = choose|t: int|
                0 <= t < expand_all(Seq::<Seq<char>>::empty(), rcs).len() && (#[trigger] expand_all(
                    Seq::<Seq<char>>::empty(),
                    rcs,
                )[t]).to_multiset() == (Seq::<Seq<char>>::empty() + ws).to_multiset();
            assert(Seq::<Seq<char>>::empty() + ws =~= ws);
            let ln = expand_all(Seq::<Seq<char>>::empty(), rcs)[t];
            assert(wvv(out@).contains(ln));
            let q2 = choose|q2: int| 0 <= q2 < wvv(out@).len() && wvv(out@)[q2] == ln;
            assert(wv(out@[q2]@) == ln);
            assert(wv(out@[q2]@).to_multiset() == ws.to_multiset());
        }
    }
    out
}

} // verus!
