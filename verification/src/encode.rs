//! Letter-set encoding: a word becomes a 26-bit mask with one bit per
//! distinct letter, and words with a repeated character are detected so
//! that they can be filtered out before encoding.

use vstd::prelude::*;
use vstd::string::*;

verus! {

/// Some character occurs at two different positions of `s`.
pub open spec fn has_repeat(s: Seq<char>) -> bool {
    exists|p: int, q: int| 0 <= p < q < s.len() && s[p] == s[q]
}

/// `s` contains the lowercase letter with alphabet index `k` (0 for 'a',
/// 25 for 'z').
pub open spec fn letter_in(s: Seq<char>, k: int) -> bool {
    exists|p: int| 0 <= p < s.len() && s[p] as int == 97 + k
}

/// The mask accumulated after scanning the first `k` letters of the
/// alphabet, one shift-and-or step per letter: after all 26 steps the
/// letter with alphabet index `i` occupies bit `25 - i`.
pub open spec fn mask_prefix(s: Seq<char>, k: int) -> u32
    decreases k,
{
    if k <= 0 {
        0u32
    } else {
        (mask_prefix(s, k - 1) << 1u32) | (if letter_in(s, k - 1) {
            1u32
        } else {
            0u32
        })
    }
}

/// The letter-set mask of a word: bit `25 - i` is set iff the letter with
/// alphabet index `i` occurs somewhere in the word.  Characters outside
/// 'a'..='z' contribute nothing.
pub open spec fn word_mask(s: Seq<char>) -> u32 {
    mask_prefix(s, 26)
}

/// Whether `w` contains the lowercase letter with alphabet index `k`.
fn contains_letter(w: &str, k: usize) -> (r: bool)
    requires
        k < 26,
    ensures
        r == letter_in(w@, k as int),
{
    let len = w.unicode_len();
    let target: u32 = 97 + k as u32;
    let mut p: usize = 0;
    while p < len
        invariant
            len == w@.len(),
            p <= len,
            k < 26,
            target == 97 + k as u32,
            forall|q: int| 0 <= q < p ==> w@[q] as int != 97 + k,
        decreases len - p,
    {
        let c = w.get_char(p);
        if c as u32 == target {
            assert(w@[p as int] as int == 97 + k);
            return true;
        }
        p += 1;
    }
    false
}

/// Whether some character of `w` occurs twice.  The second argument is the
/// word length the caller expects, kept only as a sizing hint; this
/// implementation does not need it.
pub fn word_repeat_char(w: &str, _word_size: usize) -> (r: bool)
    ensures
        r == has_repeat(w@),
{
    let len = w.unicode_len();
    let mut p: usize = 0;
    while p < len
        invariant
            len == w@.len(),
            p <= len,
            forall|a: int, b: int| 0 <= a < b < len && a < p ==> w@[a] != w@[b],
        decreases len - p,
    {
        let cp = w.get_char(p);
        let mut q: usize = p + 1;
        while q < len
            invariant
                len == w@.len(),
                p < q <= len || (p + 1 == q && q > len),
                cp == w@[p as int],
                forall|b: int| p < b < q ==> w@[p as int] != w@[b],
            decreases len - q,
        {
            if cp == w.get_char(q) {
                return true;
            }
            q += 1;
        }
        p += 1;
    }
    false
}

/// Maps a word to its letter-set mask: one pass over the alphabet,
/// shifting a bit in per letter, exactly as `word_mask` describes.
pub fn word_to_u32(w: &str) -> (r: u32)
    ensures
        r == word_mask(w@),
{
    let mut coded: u32 = 0;
    let mut k: usize = 0;
    while k < 26
        invariant
            k <= 26,
            coded == mask_prefix(w@, k as int),
        decreases 26 - k,
    {
        let b: u32 = if contains_letter(w, k) {
            1
        } else {
            0
        };
        coded = (coded << 1u32) | b;
        k += 1;
    }
    coded
}

proof fn lemma_mask_prefix_congruent(s1: Seq<char>, s2: Seq<char>, k: int)
    requires
        forall|i: int| letter_in(s1, i) <==> letter_in(s2, i),
    ensures
        mask_prefix(s1, k) == mask_prefix(s2, k),
    decreases k,
{
    if k > 0 {
        lemma_mask_prefix_congruent(s1, s2, k - 1);
    }
}

/// Encoding is anagram-invariant: two words with the same multiset of
/// characters — one a permutation of the other — have the same mask.
pub proof fn lemma_mask_anagram_invariant(s1: Seq<char>, s2: Seq<char>)
    requires
        s1.to_multiset() == s2.to_multiset(),
    ensures
        word_mask(s1) == word_mask(s2),
{
    broadcast use vstd::seq_lib::group_to_multiset_ensures;

    assert forall|i: int| letter_in(s1, i) <==> letter_in(s2, i) by {
        if letter_in(s1, i) {
            let p = choose|p: int| 0 <= p < s1.len() && s1[p] as int == 97 + i;
            assert(s1.contains(s1[p]));
            assert(s2.to_multiset().count(s1[p]) > 0);
            assert(s2.contains(s1[p]));
            let q = choose|q: int| 0 <= q < s2.len() && s2[q] == s1[p];
            assert(s2[q] as int == 97 + i);
        }
        if letter_in(s2, i) {
            let p = choose|p: int| 0 <= p < s2.len() && s2[p] as int == 97 + i;
            assert(s2.contains(s2[p]));
            assert(s1.to_multiset().count(s2[p]) > 0);
            assert(s1.contains(s2[p]));
            let q = choose|q: int| 0 <= q < s1.len() && s1[q] == s2[p];
            assert(s1[q] as int == 97 + i);
        }
    }
    lemma_mask_prefix_congruent(s1, s2, 26);
}

} // verus!
