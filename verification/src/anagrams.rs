//! Anagram compression: words are grouped by their letter-set mask into
//! equivalence classes, and the distinct masks become the nodes of the
//! search graph, in ascending numeric order.

use vstd::prelude::*;
use crate::encode::word_mask;
use crate::order::wv;

verus! {

/// The words among the first `n` of `words` whose code in `coded` is
/// `key`, in input order.
pub open spec fn class_upto(words: Seq<Seq<char>>, coded: Seq<u32>, key: u32, n: int) -> Seq<
    Seq<char>,
>
    decreases n,
{
    if n <= 0 {
        Seq::<Seq<char>>::empty()
    } else {
        let rest = class_upto(words, coded, key, n - 1);
        if coded[n - 1] == key {
            rest.push(words[n - 1])
        } else {
            rest
        }
    }
}

/// The anagram class of `key`: every word of `words` whose code is `key`,
/// in input order.
pub open spec fn class_of(words: Seq<Seq<char>>, coded: Seq<u32>, key: u32) -> Seq<Seq<char>> {
    class_upto(words, coded, key, words.len() as int)
}

proof fn lemma_class_upto_absent(words: Seq<Seq<char>>, coded: Seq<u32>, key: u32, n: int)
    requires
        forall|x: int| 0 <= x < n ==> coded[x] != key,
    ensures
        class_upto(words, coded, key, n) == Seq::<Seq<char>>::empty(),
    decreases n,
{
    if n > 0 {
        lemma_class_upto_absent(words, coded, key, n - 1);
    }
}

/// Which words a class holds: exactly the input words carrying its key.
pub proof fn lemma_class_upto_membership(words: Seq<Seq<char>>, coded: Seq<u32>, key: u32, n: int)
    ensures
        forall|w: Seq<char>|
            class_upto(words, coded, key, n).contains(w) <==> exists|j: int|
                0 <= j < n && words[j] == w && coded[j] == key,
    decreases n,
{
    if n > 0 {
        lemma_class_upto_membership(words, coded, key, n - 1);
        let rest = class_upto(words, coded, key, n - 1);
        let cur = class_upto(words, coded, key, n);
        assert forall|w: Seq<char>| cur.contains(w) implies exists|j: int|
            0 <= j < n && words[j] == w && coded[j] == key by {
            let p = choose|p: int| 0 <= p < cur.len() && cur[p] == w;
            if coded[n - 1] == key {
                if p < rest.len() {
                    assert(rest.contains(w)) by {
                        assert(rest[p] == w);
                    }
                } else {
                    assert(words[n - 1] == w && coded[n - 1] == key);
                }
            } else {
                assert(rest.contains(w)) by {
                    assert(rest[p] == w);
                }
            }
        }
        assert forall|w: Seq<char>| (exists|j: int| 0 <= j < n && words[j] == w && coded[j] == key)
            implies cur.contains(w) by {
            let j = choose|j: int| 0 <= j < n && words[j] == w && coded[j] == key;
            if j < n - 1 {
                assert(rest.contains(w));
                let p = choose|p: int| 0 <= p < rest.len() && rest[p] == w;
                assert(cur[p] == w);
            } else {
                assert(cur[cur.len() - 1] == w);
            }
        }
    }
}

/// Compression partitions the filtered word list exactly: when every code
/// is the word's own mask, each word lies in the class of its own code and
/// in no other class.
pub proof fn lemma_compress_partition(words: Seq<Seq<char>>, coded: Seq<u32>, i: int)
    requires
        coded.len() == words.len(),
        forall|j: int| 0 <= j < words.len() ==> coded[j] == word_mask(words[j]),
        0 <= i < words.len(),
    ensures
        class_of(words, coded, coded[i]).contains(words[i]),
        forall|key: u32| key != coded[i] ==> !class_of(words, coded, key).contains(words[i]),
{
    lemma_class_upto_membership(words, coded, coded[i], words.len() as int);
    assert(class_of(words, coded, coded[i]).contains(words[i]));
    assert forall|key: u32| key != coded[i] implies !class_of(words, coded, key).contains(
        words[i],
    ) by {
        lemma_class_upto_membership(words, coded, key, words.len() as int);
        if class_of(words, coded, key).contains(words[i]) {
            let j = choose|j: int| 0 <= j < words.len() && words[j] == words[i] && coded[j] == key;
            assert(coded[j] == word_mask(words[j]));
            assert(coded[i] == word_mask(words[i]));
        }
    }
}

/// Groups the words by their codes: returns the distinct codes in strictly
/// ascending order, and, aligned with them, the anagram classes, each in
/// input order.
#[verifier::rlimit(60)]
pub fn compress_anagrams(words: &Vec<String>, coded: &Vec<u32>) -> (res: (Vec<u32>, Vec<Vec<String>>))
    requires
        coded@.len() == words@.len(),
    ensures
        res.0@.len() == res.1@.len(),
        forall|p: int, q: int| 0 <= p < q < res.0@.len() ==> res.0@[p] < res.0@[q],
        forall|k: u32| res.0@.contains(k) <==> coded@.contains(k),
        forall|t: int|
            0 <= t < res.0@.len() ==> wv(#[trigger] res.1@[t]@) == class_of(
                wv(words@),
                coded@,
                res.0@[t],
            ),
{
    let n = words.len();
    let mut keys: Vec<u32> = Vec::new();
    let mut classes: Vec<Vec<String>> = Vec::new();
    let mut i: usize = 0;
    while i < n
        invariant
            n == words@.len(),
            coded@.len() == words@.len(),
            i <= n,
            keys@.len() == classes@.len(),
            forall|p: int, q: int| 0 <= p < q < keys@.len() ==> keys@[p] < keys@[q],
            forall|k: u32| keys@.contains(k) <==> coded@.take(i as int).contains(k),
            forall|t: int|
                0 <= t < keys@.len() ==> wv(#[trigger] classes@[t]@) == class_upto(
                    wv(words@),
                    coded@,
                    keys@[t],
                    i as int,
                ),
        decreases n - i,
    {
        let c = coded[i];
        let w = words[i].clone();
        proof {
            assert(w@ == wv(words@)[i as int]);
            assert(coded@.take(i + 1) =~= coded@.take(i as int).push(c));
        }
        let mut t: usize = 0;
        while t < keys.len() && keys[t] < c
            invariant
                t <= keys@.len(),
                forall|q: int| 0 <= q < t ==> keys@[q] < c,
            decreases keys@.len() - t,
        {
            t += 1;
        }
        // every key strictly before position `t` is below `c`, every key at
        // or past it is at least `c`
        proof {
            assert forall|q: int| t <= q < keys@.len() implies keys@[q] >= c by {
                if q > t {
                    assert(keys@[t as int] < keys@[q]);
                }
            }
        }
        if t < keys.len() && keys[t] == c {
            let ghost classes0 = classes@;
            let mut cls = classes.remove(t);
            let ghost cls0 = cls@;
            cls.push(w);
            proof {
                assert(wv(cls@) =~= wv(cls0).push(w@));
            }
            classes.insert(t, cls);
            proof {
                assert(classes@ =~= classes0.update(t as int, cls));
                assert forall|tt: int| 0 <= tt < keys@.len() implies wv(
                    #[trigger] classes@[tt]@,
                ) == class_upto(wv(words@), coded@, keys@[tt], i + 1) by {
                    if tt == t {
                        assert(classes@[tt] == cls);
                        assert(cls0 == classes0[t as int]@);
                        assert(wv(cls0) == class_upto(wv(words@), coded@, c, i as int));
                        assert(coded@[i as int] == keys@[tt]);
                        assert(class_upto(wv(words@), coded@, keys@[tt], i + 1) == class_upto(
                            wv(words@),
                            coded@,
                            keys@[tt],
                            i as int,
                        ).push(wv(words@)[i as int]));
                    } else {
                        assert(classes@[tt] == classes0[tt]);
                        assert(keys@[tt] != c) by {
                            if tt < t {
                                assert(keys@[tt] < keys@[t as int]);
                            } else {
                                assert(keys@[t as int] < keys@[tt]);
                            }
                        }
                        assert(class_upto(wv(words@), coded@, keys@[tt], i + 1) == class_upto(
                            wv(words@),
                            coded@,
                            keys@[tt],
                            i as int,
                        ));
                    }
                }
                assert forall|k: u32| keys@.contains(k) <==> coded@.take(i + 1).contains(k) by {
                    if coded@.take(i + 1).contains(k) {
                        let p = choose|p: int| 0 <= p < i + 1 && #[trigger] coded@.take(i + 1)[p] == k;
                        if p < i {
                            assert(coded@.take(i as int)[p] == k);
                            assert(coded@.take(i as int).contains(k));
                        } else {
                            assert(k == c);
                            assert(keys@[t as int] == c);
                        }
                    }
                    if keys@.contains(k) {
                        assert(coded@.take(i as int).contains(k));
                        let p = choose|p: int| 0 <= p < i && coded@.take(i as int)[p] == k;
                        assert(coded@.take(i + 1)[p] == k);
                    }
                }
            }
        } else {
            let ghost old_keys = keys@;
            let ghost old_classes = classes@;
            keys.insert(t, c);
            let mut ncls: Vec<String> = Vec::new();
            ncls.push(w);
            classes.insert(t, ncls);
            proof {
                old_keys.insert_ensures(t as int, c);
                old_classes.insert_ensures(t as int, ncls);
                // `c` is new: it was not among the first `i` codes
                assert(!old_keys.contains(c)) by {
                    if old_keys.contains(c) {
                        let q = choose|q: int| 0 <= q < old_keys.len() && old_keys[q] == c;
                    }
                }
                assert(forall|x: int| 0 <= x < i ==> coded@[x] != c) by {
                    if exists|x: int| 0 <= x < i && coded@[x] == c {
                        let x = choose|x: int| 0 <= x < i && coded@[x] == c;
                        assert(coded@.take(i as int)[x] == c);
                        assert(coded@.take(i as int).contains(c));
                        assert(old_keys.contains(c));
                    }
                }
                lemma_class_upto_absent(wv(words@), coded@, c, i as int);
                assert(wv(ncls@) =~= class_upto(wv(words@), coded@, c, i as int).push(
                    wv(words@)[i as int],
                ));
                assert forall|p: int, q: int| 0 <= p < q < keys@.len() implies keys@[p]
                    < keys@[q] by {
                    if q < t {
                    } else if p < t && q == t {
                        assert(keys@[p] == old_keys[p]);
                    } else if p < t && q > t {
                        assert(keys@[q] == old_keys[q - 1]);
                        assert(old_keys[q - 1] >= c);
                        assert(old_keys[q - 1] != c);
                    } else if p == t && q > t {
                        assert(keys@[q] == old_keys[q - 1]);
                        assert(old_keys[q - 1] >= c);
                        assert(old_keys[q - 1] != c);
                    } else {
                        assert(keys@[p] == old_keys[p - 1] && keys@[q] == old_keys[q - 1]);
                    }
                }
                assert forall|tt: int| 0 <= tt < keys@.len() implies wv(
                    #[trigger] classes@[tt]@,
                ) == class_upto(wv(words@), coded@, keys@[tt], i + 1) by {
                    if tt == t {
                        assert(classes@[tt] == ncls);
                        assert(keys@[tt] == c);
                        assert(class_upto(wv(words@), coded@, c, i + 1) == class_upto(
                            wv(words@),
                            coded@,
                            c,
                            i as int,
                        ).push(wv(words@)[i as int]));
                    } else {
                        let ss: int = if tt < t {
                            tt
                        } else {
                            tt - 1
                        };
                        assert(classes@[tt] == old_classes[ss]);
                        assert(keys@[tt] == old_keys[ss]);
                        assert(keys@[tt] != c);
                        assert(class_upto(wv(words@), coded@, keys@[tt], i + 1) == class_upto(
                            wv(words@),
                            coded@,
                            keys@[tt],
                            i as int,
                        ));
                    }
                }
                assert forall|k: u32| keys@.contains(k) <==> coded@.take(i + 1).contains(k) by {
                    if coded@.take(i + 1).contains(k) {
                        let p = choose|p: int| 0 <= p < i + 1 && #[trigger] coded@.take(i + 1)[p] == k;
                        if p < i {
                            assert(coded@.take(i as int)[p] == k);
                            assert(coded@.take(i as int).contains(k));
                            assert(old_keys.contains(k));
                            let q = choose|q: int| 0 <= q < old_keys.len() && old_keys[q] == k;
                            if q < t {
                                assert(keys@[q] == k);
                            } else {
                                assert(keys@[q + 1] == k);
                            }
                        } else {
                            assert(k == c);
                            assert(keys@[t as int] == c);
                        }
                    }
                    if keys@.contains(k) {
                        let q = choose|q: int| 0 <= q < keys@.len() && keys@[q] == k;
                        if q == t {
                            assert(k == c);
                            assert(coded@.take(i + 1)[i as int] == c);
                        } else {
                            let ss: int = if q < t {
                                q
                            } else {
                                q - 1
                            };
                            assert(old_keys[ss] == k);
                            assert(old_keys.contains(k));
                            assert(coded@.take(i as int).contains(k));
                            let p = choose|p: int| 0 <= p < i && coded@.take(i as int)[p] == k;
                            assert(coded@.take(i + 1)[p] == k);
                        }
                    }
                }
            }
        }
        i += 1;
    }
    proof {
        assert(coded@.take(n as int) =~= coded@);
    }
    (keys, classes)
}

} // verus!
