//! The result expander: a compressed five-node clique names five anagram
//! classes; the concrete answers are the cross product of those classes,
//! each five-word line put into canonical lexicographic order.

use vstd::prelude::*;
use crate::order::{lemma_lex_total_ordering, lex_leq, sort_strings, wv};
use vstd::pervasive::unreached;
use vstd::relations::sorted_by;

verus! {

/// The views of a vector of word lists: each line as its word sequences.
pub open spec fn wvv(v: Seq<Vec<String>>) -> Seq<Seq<Seq<char>>> {
    v.map_values(|c: Vec<String>| wv(c@))
}

/// All answers that extend the already chosen words with one word from
/// each remaining class, in nested iteration order, each line sorted.
pub open spec fn expand_all(chosen: Seq<Seq<char>>, classes: Seq<Seq<Seq<char>>>) -> Seq<
    Seq<Seq<char>>,
>
    decreases classes.len(), 0int, 0int,
{
    if classes.len() == 0 {
        seq![chosen.sort_by(lex_leq())]
    } else {
        expand_first(chosen, classes[0], classes.drop_first())
    }
}

/// The part of the cross product that draws the next word from `first`,
/// one block per member of `first`, in order.
pub open spec fn expand_first(
    chosen: Seq<Seq<char>>,
    first: Seq<Seq<char>>,
    rest: Seq<Seq<Seq<char>>>,
) -> Seq<Seq<Seq<char>>>
    decreases rest.len(), 1int, first.len(),
{
    if first.len() == 0 {
        Seq::<Seq<Seq<char>>>::empty()
    } else {
        expand_all(chosen.push(first[0]), rest) + expand_first(chosen, first.drop_first(), rest)
    }
}

/// Scanning one more member of `first` appends exactly that member's
/// block of answers.
proof fn lemma_expand_first_take(
    chosen: Seq<Seq<char>>,
    first: Seq<Seq<char>>,
    rest: Seq<Seq<Seq<char>>>,
    t: int,
)
    requires
        0 <= t < first.len(),
    ensures
        expand_first(chosen, first.take(t + 1), rest) == expand_first(chosen, first.take(t), rest)
            + expand_all(chosen.push(first[t]), rest),
    decreases t,
{
    if t == 0 {
        assert(first.take(0).len() == 0);
        assert(first.take(1)[0] == first[0]);
        assert(first.take(1).drop_first() =~= first.take(0));
        assert(expand_first(chosen, first.take(1), rest) =~= expand_first(chosen, first.take(0), rest)
            + expand_all(chosen.push(first[0]), rest));
    } else {
        let sub = first.drop_first();
        assert(first.take(t + 1)[0] == first[0]);
        assert(first.take(t)[0] == first[0]);
        assert(first.take(t + 1).drop_first() =~= sub.take(t));
        assert(first.take(t).drop_first() =~= sub.take(t - 1));
        lemma_expand_first_take(chosen, sub, rest, t - 1);
        assert(sub[t - 1] == first[t]);
        assert(expand_first(chosen, first.take(t + 1), rest) == expand_all(
            chosen.push(first[0]),
            rest,
        ) + expand_first(chosen, sub.take(t), rest));
        assert(expand_all(chosen.push(first[0]), rest) + (expand_first(chosen, sub.take(t - 1), rest)
            + expand_all(chosen.push(first[t]), rest)) =~= (expand_all(chosen.push(first[0]), rest)
            + expand_first(chosen, sub.take(t - 1), rest)) + expand_all(chosen.push(first[t]), rest));
    }
}

/// Every expanded line holds one word per class beside the already chosen
/// ones, in canonical sorted order, and no word from anywhere else.
pub proof fn lemma_expand_all_words(chosen: Seq<Seq<char>>, classes: Seq<Seq<Seq<char>>>)
    ensures
        forall|t: int|
            0 <= t < expand_all(chosen, classes).len() ==> (#[trigger] expand_all(
                chosen,
                classes,
            )[t]).len() == chosen.len() + classes.len(),
        forall|t: int|
            0 <= t < expand_all(chosen, classes).len() ==> sorted_by(
                #[trigger] expand_all(chosen, classes)[t],
                lex_leq(),
            ),
        forall|t: int, x: int|
            #![trigger expand_all(chosen, classes)[t][x]]
            0 <= t < expand_all(chosen, classes).len() && 0 <= x < expand_all(chosen, classes)[t].len()
                ==> chosen.contains(expand_all(chosen, classes)[t][x]) || exists|k: int|
                0 <= k < classes.len() && classes[k].contains(expand_all(chosen, classes)[t][x]),
    decreases classes.len(), 0int, 0int,
{
    broadcast use vstd::seq_lib::group_to_multiset_ensures;

    if classes.len() == 0 {
        lemma_lex_total_ordering();
        chosen.lemma_sort_by_ensures(lex_leq());
        let line = chosen.sort_by(lex_leq());
        assert(expand_all(chosen, classes)[0] == line);
        assert(line.to_multiset().len() == chosen.to_multiset().len());
        assert forall|x: int| 0 <= x < line.len() implies chosen.contains(line[x]) by {
            assert(line.contains(line[x]));
            assert(chosen.to_multiset().count(line[x]) > 0);
        }
    } else {
        lemma_expand_first_words(chosen, classes[0], classes.drop_first());
        let res = expand_all(chosen, classes);
        assert(res == expand_first(chosen, classes[0], classes.drop_first()));
        assert forall|t: int, x: int|
            #![trigger expand_all(chosen, classes)[t][x]]
            0 <= t < res.len() && 0 <= x < res[t].len() implies chosen.contains(res[t][x])
            || exists|k: int| 0 <= k < classes.len() && classes[k].contains(res[t][x]) by {
            let w = res[t][x];
            assert(expand_first(chosen, classes[0], classes.drop_first())[t][x] == w);
            if !chosen.contains(w) {
                if classes[0].contains(w) {
                    assert(classes[0].contains(w) && 0 <= 0 < classes.len());
                } else {
                    let k = choose|k: int|
                        0 <= k < classes.drop_first().len() && classes.drop_first()[k].contains(w);
                    assert(classes[k + 1].contains(w));
                }
            }
        }
    }
}

/// The same statement for the blocks drawn from one class.
proof fn lemma_expand_first_words(
    chosen: Seq<Seq<char>>,
    first: Seq<Seq<char>>,
    rest: Seq<Seq<Seq<char>>>,
)
    ensures
        forall|t: int|
            0 <= t < expand_first(chosen, first, rest).len() ==> (#[trigger] expand_first(
                chosen,
                first,
                rest,
            )[t]).len() == chosen.len() + 1 + rest.len(),
        forall|t: int|
            0 <= t < expand_first(chosen, first, rest).len() ==> sorted_by(
                #[trigger] expand_first(chosen, first, rest)[t],
                lex_leq(),
            ),
        forall|t: int, x: int|
            #![trigger expand_first(chosen, first, rest)[t][x]]
            0 <= t < expand_first(chosen, first, rest).len() && 0 <= x < expand_first(
                chosen,
                first,
                rest,
            )[t].len() ==> chosen.contains(expand_first(chosen, first, rest)[t][x])
                || first.contains(expand_first(chosen, first, rest)[t][x]) || exists|k: int|
                0 <= k < rest.len() && rest[k].contains(expand_first(chosen, first, rest)[t][x]),
    decreases rest.len(), 1int, first.len(),
{
    if first.len() > 0 {
        lemma_expand_all_words(chosen.push(first[0]), rest);
        lemma_expand_first_words(chosen, first.drop_first(), rest);
        let left = expand_all(chosen.push(first[0]), rest);
        let right = expand_first(chosen, first.drop_first(), rest);
        let res = expand_first(chosen, first, rest);
        assert(res == left + right);
        assert forall|t: int, x: int|
            #![trigger expand_first(chosen, first, rest)[t][x]]
            0 <= t < res.len() && 0 <= x < res[t].len() implies chosen.contains(res[t][x])
            || first.contains(res[t][x]) || exists|k: int|
            0 <= k < rest.len() && rest[k].contains(res[t][x]) by {
            let w = res[t][x];
            if t < left.len() {
                assert(left[t][x] == w);
                if !chosen.push(first[0]).contains(w) {
                } else {
                    let p = choose|p: int|
                        0 <= p < chosen.push(first[0]).len() && chosen.push(first[0])[p] == w;
                    if p < chosen.len() {
                        assert(chosen[p] == w);
                        assert(chosen.contains(w));
                    } else {
                        assert(first[0] == w);
                        assert(first.contains(w));
                    }
                }
            } else {
                assert(right[t - left.len()][x] == w);
                if first.drop_first().contains(w) {
                    let p = choose|p: int|
                        0 <= p < first.drop_first().len() && first.drop_first()[p] == w;
                    assert(first[p + 1] == w);
                    assert(first.contains(w));
                }
            }
        }
        assert forall|t: int| 0 <= t < res.len() implies (#[trigger] res[t]).len() == chosen.len()
            + 1 + rest.len() by {
            if t < left.len() {
                assert(left[t] == res[t]);
            } else {
                assert(right[t - left.len()] == res[t]);
            }
        }
        assert forall|t: int| 0 <= t < res.len() implies sorted_by(
            #[trigger] res[t],
            lex_leq(),
        ) by {
            if t < left.len() {
                assert(left[t] == res[t]);
            } else {
                assert(right[t - left.len()] == res[t]);
            }
        }
    }
}

/// The position of key `m` in a strictly ascending key list.
pub open spec fn key_slot(keys: Seq<u32>, m: u32) -> int {
    choose|t: int| 0 <= t < keys.len() && keys[t] == m
}

/// Finds the unique position of `m` among the sorted distinct keys.
fn find_key(keys: &Vec<u32>, m: u32) -> (t: usize)
    requires
        forall|p: int, q: int| 0 <= p < q < keys@.len() ==> keys@[p] < keys@[q],
        keys@.contains(m),
    ensures
        t < keys@.len(),
        keys@[t as int] == m,
        t as int == key_slot(keys@, m),
{
    let n = keys.len();
    let mut t: usize = 0;
    while t < n
        invariant
            n == keys@.len(),
            t <= n,
            keys@.contains(m),
            forall|p: int, q: int| 0 <= p < q < keys@.len() ==> keys@[p] < keys@[q],
            forall|q: int| 0 <= q < t ==> keys@[q] != m,
        decreases n - t,
    {
        if keys[t] == m {
            proof {
                let s = key_slot(keys@, m);
                assert(0 <= s < keys@.len() && keys@[s] == m);
                if s < t as int {
                    assert(keys@[s] != m);
                }
                if s > t as int {
                    assert(keys@[t as int] < keys@[s]);
                }
            }
            return t;
        }
        t += 1;
    }
    proof {
        let s = choose|s: int| 0 <= s < keys@.len() && keys@[s] == m;
        assert(keys@[s] != m);
    }
    unreached()
}

/// Expands one compressed clique of five class keys into every concrete
/// five-word answer: one line per choice of a word from each class, in
/// nested iteration order, each line sorted lexicographically.
#[verifier::rlimit(60)]
pub fn cliques_from_anagram(
    anagram: &Vec<u32>,
    keys: &Vec<u32>,
    classes: &Vec<Vec<String>>,
) -> (res: Vec<Vec<String>>)
    requires
        anagram@.len() == 5,
        keys@.len() == classes@.len(),
        forall|p: int, q: int| 0 <= p < q < keys@.len() ==> keys@[p] < keys@[q],
        forall|s: int| 0 <= s < 5 ==> keys@.contains(#[trigger] anagram@[s]),
    ensures
        wvv(res@) == expand_all(
            Seq::<Seq<char>>::empty(),
            seq![
                wv(classes@[key_slot(keys@, anagram@[0])]@),
                wv(classes@[key_slot(keys@, anagram@[1])]@),
                wv(classes@[key_slot(keys@, anagram@[2])]@),
                wv(classes@[key_slot(keys@, anagram@[3])]@),
                wv(classes@[key_slot(keys@, anagram@[4])]@),
            ],
        ),
{
    let t0 = find_key(keys, anagram[0]);
    let t1 = find_key(keys, anagram[1]);
    let t2 = find_key(keys, anagram[2]);
    let t3 = find_key(keys, anagram[3]);
    let t4 = find_key(keys, anagram[4]);
    let cls0 = &classes[t0];
    let cls1 = &classes[t1];
    let cls2 = &classes[t2];
    let cls3 = &classes[t3];
    let cls4 = &classes[t4];
    let ghost cv0 = wv(cls0@);
    let ghost cv1 = wv(cls1@);
    let ghost cv2 = wv(cls2@);
    let ghost cv3 = wv(cls3@);
    let ghost cv4 = wv(cls4@);
    let ghost all5 = seq![cv0, cv1, cv2, cv3, cv4];
    let mut out: Vec<Vec<String>> = Vec::new();
    proof {
        assert(wvv(out@) =~= Seq::<Seq<Seq<char>>>::empty());
        assert(cv0.take(0) =~= Seq::<Seq<char>>::empty());
        assert(expand_first(Seq::<Seq<char>>::empty(), cv0.take(0), seq![cv1, cv2, cv3, cv4])
            == Seq::<Seq<Seq<char>>>::empty());
    }
    let mut i0: usize = 0;
    while i0 < cls0.len()
        invariant
            i0 <= cls0@.len(),
            cv0 == wv(cls0@),
            cv1 == wv(cls1@),
            cv2 == wv(cls2@),
            cv3 == wv(cls3@),
            cv4 == wv(cls4@),
            wvv(out@) == expand_first(
                Seq::<Seq<char>>::empty(),
                cv0.take(i0 as int),
                seq![cv1, cv2, cv3, cv4],
            ),
        decreases cls0@.len() - i0,
    {
        let w0 = &cls0[i0];
        let ghost ch1 = Seq::<Seq<char>>::empty().push(w0@);
        let ghost s0 = wvv(out@);
        proof {
            assert(cv1.take(0) =~= Seq::<Seq<char>>::empty());
            assert(s0 + expand_first(ch1, cv1.take(0), seq![cv2, cv3, cv4]) =~= s0);
        }
        let mut i1: usize = 0;
        while i1 < cls1.len()
            invariant
                i1 <= cls1@.len(),
                i0 < cls0@.len(),
                cv0 == wv(cls0@),
                cv1 == wv(cls1@),
                cv2 == wv(cls2@),
                cv3 == wv(cls3@),
                cv4 == wv(cls4@),
                ch1 == Seq::<Seq<char>>::empty().push(cls0@[i0 as int]@),
                wvv(out@) == s0 + expand_first(ch1, cv1.take(i1 as int), seq![cv2, cv3, cv4]),
            decreases cls1@.len() - i1,
        {
            let w1 = &cls1[i1];
            let ghost ch2 = ch1.push(w1@);
            let ghost s1 = wvv(out@);
            proof {
                assert(cv2.take(0) =~= Seq::<Seq<char>>::empty());
                assert(s1 + expand_first(ch2, cv2.take(0), seq![cv3, cv4]) =~= s1);
            }
            let mut i2: usize = 0;
            while i2 < cls2.len()
                invariant
                    i2 <= cls2@.len(),
                    i0 < cls0@.len(),
                    i1 < cls1@.len(),
                    cv0 == wv(cls0@),
                    cv1 == wv(cls1@),
                    cv2 == wv(cls2@),
                    cv3 == wv(cls3@),
                    cv4 == wv(cls4@),
                    ch1 == Seq::<Seq<char>>::empty().push(cls0@[i0 as int]@),
                    ch2 == ch1.push(cls1@[i1 as int]@),
                    wvv(out@) == s1 + expand_first(ch2, cv2.take(i2 as int), seq![cv3, cv4]),
                decreases cls2@.len() - i2,
            {
                let w2 = &cls2[i2];
                let ghost ch3 = ch2.push(w2@);
                let ghost s2 = wvv(out@);
                proof {
                    assert(cv3.take(0) =~= Seq::<Seq<char>>::empty());
                    assert(s2 + expand_first(ch3, cv3.take(0), seq![cv4]) =~= s2);
                }
                let mut i3: usize = 0;
                while i3 < cls3.len()
                    invariant
                        i3 <= cls3@.len(),
                        i0 < cls0@.len(),
                        i1 < cls1@.len(),
                        i2 < cls2@.len(),
                        cv0 == wv(cls0@),
                        cv1 == wv(cls1@),
                        cv2 == wv(cls2@),
                        cv3 == wv(cls3@),
                        cv4 == wv(cls4@),
                        ch1 == Seq::<Seq<char>>::empty().push(cls0@[i0 as int]@),
                        ch2 == ch1.push(cls1@[i1 as int]@),
                        ch3 == ch2.push(cls2@[i2 as int]@),
                        wvv(out@) == s2 + expand_first(ch3, cv3.take(i3 as int), seq![cv4]),
                    decreases cls3@.len() - i3,
                {
                    let w3 = &cls3[i3];
                    let ghost ch4 = ch3.push(w3@);
                    let ghost s3 = wvv(out@);
                    proof {
                        assert(cv4.take(0) =~= Seq::<Seq<char>>::empty());
                        assert(s3 + expand_first(ch4, cv4.take(0), Seq::<Seq<Seq<char>>>::empty())
                            =~= s3);
                    }
                    let mut i4: usize = 0;
                    while i4 < cls4.len()
                        invariant
                            i4 <= cls4@.len(),
                            i0 < cls0@.len(),
                            i1 < cls1@.len(),
                            i2 < cls2@.len(),
                            i3 < cls3@.len(),
                            cv0 == wv(cls0@),
                            cv1 == wv(cls1@),
                            cv2 == wv(cls2@),
                            cv3 == wv(cls3@),
                            cv4 == wv(cls4@),
                            ch1 == Seq::<Seq<char>>::empty().push(cls0@[i0 as int]@),
                            ch2 == ch1.push(cls1@[i1 as int]@),
                            ch3 == ch2.push(cls2@[i2 as int]@),
                            ch4 == ch3.push(cls3@[i3 as int]@),
                            wvv(out@) == s3 + expand_first(
                                ch4,
                                cv4.take(i4 as int),
                                Seq::<Seq<Seq<char>>>::empty(),
                            ),
                        decreases cls4@.len() - i4,
                    {
                        let w4 = &cls4[i4];
                        let ghost ch5 = ch4.push(w4@);
                        let mut line: Vec<String> = Vec::new();
                        line.push(cls0[i0].clone());
                        line.push(cls1[i1].clone());
                        line.push(cls2[i2].clone());
                        line.push(cls3[i3].clone());
                        line.push(cls4[i4].clone());
                        proof {
                            assert(wv(line@) =~= ch5);
                        }
                        let sorted_line = sort_strings(&line);
                        let ghost before = out@;
                        out.push(sorted_line);
                        proof {
                            assert(wv(sorted_line@) == ch5.sort_by(lex_leq()));
                            assert(wvv(out@) =~= wvv(before).push(wv(sorted_line@)));
                            assert(expand_all(ch5, Seq::<Seq<Seq<char>>>::empty()) == seq![
                                ch5.sort_by(lex_leq()),
                            ]);
                            lemma_expand_first_take(
                                ch4,
                                cv4,
                                Seq::<Seq<Seq<char>>>::empty(),
                                i4 as int,
                            );
                            assert(cv4[i4 as int] == cls4@[i4 as int]@);
                            assert(wvv(out@) =~= s3 + expand_first(
                                ch4,
                                cv4.take(i4 + 1),
                                Seq::<Seq<Seq<char>>>::empty(),
                            ));
                        }
                        i4 += 1;
                    }
                    proof {
                        assert(cv4.take(cls4@.len() as int) =~= cv4);
                        lemma_expand_first_take(ch3, cv3, seq![cv4], i3 as int);
                        assert(cv3[i3 as int] == cls3@[i3 as int]@);
                        assert(expand_all(ch4, seq![cv4]) == expand_first(
                            ch4,
                            cv4,
                            Seq::<Seq<Seq<char>>>::empty(),
                        )) by {
                            assert(seq![cv4].drop_first() =~= Seq::<Seq<Seq<char>>>::empty());
                        }
                        assert(wvv(out@) =~= s2 + expand_first(ch3, cv3.take(i3 + 1), seq![cv4]));
                    }
                    i3 += 1;
                }
                proof {
                    assert(cv3.take(cls3@.len() as int) =~= cv3);
                    lemma_expand_first_take(ch2, cv2, seq![cv3, cv4], i2 as int);
                    assert(cv2[i2 as int] == cls2@[i2 as int]@);
                    assert(expand_all(ch3, seq![cv3, cv4]) == expand_first(ch3, cv3, seq![cv4]))
                        by {
                        assert(seq![cv3, cv4][0] == cv3);
                        assert(seq![cv3, cv4].drop_first() =~= seq![cv4]);
                    }
                    assert(wvv(out@) =~= s1 + expand_first(ch2, cv2.take(i2 + 1), seq![cv3, cv4]));
                }
                i2 += 1;
            }
            proof {
                assert(cv2.take(cls2@.len() as int) =~= cv2);
                lemma_expand_first_take(ch1, cv1, seq![cv2, cv3, cv4], i1 as int);
                assert(cv1[i1 as int] == cls1@[i1 as int]@);
                assert(expand_all(ch2, seq![cv2, cv3, cv4]) == expand_first(ch2, cv2, seq![cv3, cv4]))
                    by {
                    assert(seq![cv2, cv3, cv4][0] == cv2);
                    assert(seq![cv2, cv3, cv4].drop_first() =~= seq![cv3, cv4]);
                }
                assert(wvv(out@) =~= s0 + expand_first(ch1, cv1.take(i1 + 1), seq![cv2, cv3, cv4]));
            }
            i1 += 1;
        }
        proof {
            assert(cv1.take(cls1@.len() as int) =~= cv1);
            lemma_expand_first_take(
                Seq::<Seq<char>>::empty(),
                cv0,
                seq![cv1, cv2, cv3, cv4],
                i0 as int,
            );
            assert(cv0[i0 as int] == cls0@[i0 as int]@);
            assert(expand_all(ch1, seq![cv1, cv2, cv3, cv4]) == expand_first(
                ch1,
                cv1,
                seq![cv2, cv3, cv4],
            )) by {
                assert(seq![cv1, cv2, cv3, cv4][0] == cv1);
                assert(seq![cv1, cv2, cv3, cv4].drop_first() =~= seq![cv2, cv3, cv4]);
            }
            assert(wvv(out@) =~= Seq::<Seq<Seq<char>>>::empty() + expand_first(
                Seq::<Seq<char>>::empty(),
                cv0.take(i0 + 1),
                seq![cv1, cv2, cv3, cv4],
            ));
            assert(Seq::<Seq<Seq<char>>>::empty() + expand_first(
                Seq::<Seq<char>>::empty(),
                cv0.take(i0 + 1),
                seq![cv1, cv2, cv3, cv4],
            ) =~= expand_first(
                Seq::<Seq<char>>::empty(),
                cv0.take(i0 + 1),
                seq![cv1, cv2, cv3, cv4],
            ));
        }
        i0 += 1;
    }
    proof {
        assert(cv0.take(cls0@.len() as int) =~= cv0);
        assert(expand_all(Seq::<Seq<char>>::empty(), all5) == expand_first(
            Seq::<Seq<char>>::empty(),
            cv0,
            seq![cv1, cv2, cv3, cv4],
        )) by {
            assert(all5[0] == cv0);
            assert(all5.drop_first() =~= seq![cv1, cv2, cv3, cv4]);
        }
    }
    out
}


/// Every admissible selection is expanded: choosing one word from each
/// class always yields some emitted line with exactly those words beside
/// the already chosen ones.
pub proof fn lemma_expand_all_complete(
    chosen: Seq<Seq<char>>,
    classes: Seq<Seq<Seq<char>>>,
    sel: Seq<Seq<char>>,
)
    requires
        sel.len() == classes.len(),
        forall|i: int| 0 <= i < classes.len() ==> #[trigger] classes[i].contains(sel[i]),
    ensures
        exists|t: int|
            0 <= t < expand_all(chosen, classes).len() && (#[trigger] expand_all(
                chosen,
                classes,
            )[t]).to_multiset() == (chosen + sel).to_multiset(),
    decreases classes.len(), 0int, 0int,
{
    broadcast use vstd::seq_lib::group_to_multiset_ensures;

    if classes.len() == 0 {
        lemma_lex_total_ordering();
        chosen.lemma_sort_by_ensures(lex_leq());
        assert(chosen + sel =~= chosen);
        assert(expand_all(chosen, classes)[0] == chosen.sort_by(lex_leq()));
        assert(expand_all(chosen, classes)[0].to_multiset() == (chosen + sel).to_multiset());
    } else {
        let rest = classes.drop_first();
        let sel2 = sel.drop_first();
        assert(classes[0].contains(sel[0]));
        assert forall|i: int| 0 <= i < rest.len() implies #[trigger] rest[i].contains(
            sel2[i],
        ) by {
            assert(rest[i] == classes[i + 1]);
            assert(sel2[i] == sel[i + 1]);
        }
        lemma_expand_first_complete(chosen, classes[0], rest, sel[0], sel2);
        let t = choose|t: int|
            0 <= t < expand_first(chosen, classes[0], rest).len() && (#[trigger] expand_first(
                chosen,
                classes[0],
                rest,
            )[t]).to_multiset() == (chosen + seq![sel[0]] + sel2).to_multiset();
        assert(seq![sel[0]] + sel2 =~= sel);
        assert(chosen + seq![sel[0]] + sel2 =~= chosen + sel);
        assert(expand_all(chosen, classes)[t].to_multiset() == (chosen + sel).to_multiset());
    }
}

/// The block structure of `expand_first` keeps every selection reachable.
proof fn lemma_expand_first_complete(
    chosen: Seq<Seq<char>>,
    first: Seq<Seq<char>>,
    rest: Seq<Seq<Seq<char>>>,
    w: Seq<char>,
    sel: Seq<Seq<char>>,
)
    requires
        first.contains(w),
        sel.len() == rest.len(),
        forall|i: int| 0 <= i < rest.len() ==> #[trigger] rest[i].contains(sel[i]),
    ensures
        exists|t: int|
            0 <= t < expand_first(chosen, first, rest).len() && (#[trigger] expand_first(
                chosen,
                first,
                rest,
            )[t]).to_multiset() == (chosen + seq![w] + sel).to_multiset(),
    decreases rest.len(), 1int, first.len(),
{
    broadcast use vstd::seq_lib::group_to_multiset_ensures;

    let left = expand_all(chosen.push(first[0]), rest);
    let right = expand_first(chosen, first.drop_first(), rest);
    let res = expand_first(chosen, first, rest);
    assert(res == left + right);
    if first[0] == w {
        lemma_expand_all_complete(chosen.push(w), rest, sel);
        let t = choose|t: int|
            0 <= t < expand_all(chosen.push(w), rest).len() && (#[trigger] expand_all(
                chosen.push(w),
                rest,
            )[t]).to_multiset() == (chosen.push(w) + sel).to_multiset();
        assert(chosen.push(w) =~= chosen + seq![w]);
        assert(chosen.push(w) + sel =~= chosen + seq![w] + sel);
        assert(res[t] == left[t]);
        assert(res[t].to_multiset() == (chosen + seq![w] + sel).to_multiset());
    } else {
        assert(first.drop_first().contains(w)) by {
            let x = choose|x: int| 0 <= x < first.len() && first[x] == w;
            assert(x >= 1);
            assert(first.drop_first()[x - 1] == w);
        }
        lemma_expand_first_complete(chosen, first.drop_first(), rest, w, sel);
        let t = choose|t: int|
            0 <= t < right.len() && (#[trigger] right[t]).to_multiset() == (chosen + seq![w]
                + sel).to_multiset();
        assert(res[left.len() + t] == right[t]);
        assert(res[left.len() + t].to_multiset() == (chosen + seq![w] + sel).to_multiset());
    }
}

} // verus!
