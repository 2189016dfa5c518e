use five_cliques::anagrams::compress_anagrams;
use five_cliques::encode::{word_repeat_char, word_to_u32};
use five_cliques::expand::cliques_from_anagram;
use five_cliques::graph::create_graph;
use five_cliques::order::{sort_strings, str_le};
use five_cliques::search::find_cliques;

fn dict(words: &[&str]) -> Vec<String> {
    words.iter().map(|w| w.to_string()).collect()
}

#[test]
fn repeat_char_detection() {
    assert!(word_repeat_char("aabcd", 5));
    assert!(word_repeat_char("abcda", 5));
    assert!(!word_repeat_char("abcde", 5));
    assert!(!word_repeat_char("", 5));
    assert!(word_repeat_char("aa", 5));
}

#[test]
fn encode_exact_value() {
    // 'a'..'e' occupy the five topmost of the 26 mask bits
    assert_eq!(word_to_u32("abcde"), 0b11111 << 21);
    assert_eq!(word_to_u32("z"), 1);
    assert_eq!(word_to_u32("a"), 1 << 25);
    assert_eq!(word_to_u32(""), 0);
}

#[test]
fn encode_anagram_invariant() {
    assert_eq!(word_to_u32("abcde"), word_to_u32("edcba"));
    assert_eq!(word_to_u32("abcde"), word_to_u32("bcdea"));
    assert_ne!(word_to_u32("abcde"), word_to_u32("abcdf"));
}

#[test]
fn encode_ignores_other_characters() {
    assert_eq!(word_to_u32("a-b"), word_to_u32("ab"));
}

#[test]
fn string_order() {
    assert!(str_le("abc", "abd"));
    assert!(str_le("abc", "abc"));
    assert!(str_le("ab", "abc"));
    assert!(!str_le("abd", "abc"));
    assert!(!str_le("b", "abc"));
}

#[test]
fn sorting_words() {
    let v = dict(&["pear", "apple", "fig", "apple"]);
    let s = sort_strings(&v);
    assert_eq!(s, dict(&["apple", "apple", "fig", "pear"]));
}

#[test]
fn compress_groups_anagrams() {
    let words = dict(&["abcde", "bcdea", "fghij"]);
    let coded: Vec<u32> = words.iter().map(|w| word_to_u32(w)).collect();
    let (keys, classes) = compress_anagrams(&words, &coded);
    assert_eq!(keys.len(), 2);
    assert!(keys[0] < keys[1]);
    let m_abcde = word_to_u32("abcde");
    let m_fghij = word_to_u32("fghij");
    let slot_abcde = keys.iter().position(|&k| k == m_abcde).unwrap();
    let slot_fghij = keys.iter().position(|&k| k == m_fghij).unwrap();
    assert_eq!(classes[slot_abcde], dict(&["abcde", "bcdea"]));
    assert_eq!(classes[slot_fghij], dict(&["fghij"]));
}

#[test]
fn graph_forward_rows() {
    // masks 1 and 2 are disjoint; 3 meets both
    let coded: Vec<u32> = vec![1, 2, 3];
    let graph = create_graph(&coded);
    assert_eq!(graph.len(), 3);
    assert_eq!(graph[0], vec![1usize]);
    assert_eq!(graph[1], Vec::<usize>::new());
    assert_eq!(graph[2], Vec::<usize>::new());
}

#[test]
fn graph_edge_stored_once_forward() {
    let coded: Vec<u32> = vec![1, 2];
    let graph = create_graph(&coded);
    assert_eq!(graph[0], vec![1usize]);
    assert!(graph[1].is_empty());
}

#[test]
fn search_single_clique() {
    let coded: Vec<u32> = vec![1, 2, 4, 8, 16];
    let graph = create_graph(&coded);
    let recs = find_cliques(&coded, &graph);
    assert_eq!(recs.len(), 1);
    let r = recs[0];
    assert_eq!((r.a, r.b, r.c, r.d, r.e), (0, 1, 2, 3, 4));
}

#[test]
fn search_all_five_subsets() {
    // six pairwise-disjoint nodes give six five-cliques
    let coded: Vec<u32> = vec![1, 2, 4, 8, 16, 32];
    let graph = create_graph(&coded);
    let recs = find_cliques(&coded, &graph);
    assert_eq!(recs.len(), 6);
    for r in &recs {
        assert!(r.a < r.b && r.b < r.c && r.c < r.d && r.d < r.e);
    }
}

#[test]
fn search_blocked_by_shared_bit() {
    // the last mask shares a bit with the first: no clique
    let coded: Vec<u32> = vec![3, 4, 8, 16, 33];
    let graph = create_graph(&coded);
    assert_eq!(find_cliques(&coded, &graph).len(), 0);
}

#[test]
fn expansion_cross_product() {
    let words = dict(&["abcde", "bcdea", "fghij", "klmno", "pqrst", "uvwxy"]);
    let coded: Vec<u32> = words.iter().map(|w| word_to_u32(w)).collect();
    let (keys, classes) = compress_anagrams(&words, &coded);
    let anagram: Vec<u32> = vec![
        word_to_u32("abcde"),
        word_to_u32("fghij"),
        word_to_u32("klmno"),
        word_to_u32("pqrst"),
        word_to_u32("uvwxy"),
    ];
    let lines = cliques_from_anagram(&anagram, &keys, &classes);
    assert_eq!(lines.len(), 2);
    assert!(lines.contains(&dict(&["abcde", "fghij", "klmno", "pqrst", "uvwxy"])));
    assert!(lines.contains(&dict(&["bcdea", "fghij", "klmno", "pqrst", "uvwxy"])));
}

#[test]
fn expansion_sorts_each_line() {
    let words = dict(&["uvwxy", "fghij", "klmno", "pqrst", "abcde"]);
    let coded: Vec<u32> = words.iter().map(|w| word_to_u32(w)).collect();
    let (keys, classes) = compress_anagrams(&words, &coded);
    let anagram: Vec<u32> = coded.clone();
    let lines = cliques_from_anagram(&anagram, &keys, &classes);
    assert_eq!(lines.len(), 1);
    assert_eq!(lines[0], dict(&["abcde", "fghij", "klmno", "pqrst", "uvwxy"]));
}

#[test]
fn duplicate_words_expand_separately() {
    // a word listed twice sits twice in its class, giving two equal lines
    let words = dict(&["abcde", "abcde", "fghij", "klmno", "pqrst", "uvwxy"]);
    let out = five_cliques::solve::solve(&words);
    assert_eq!(out.len(), 2);
    assert_eq!(out[0], out[1]);
}

#[test]
fn search_prunes_low_degree_roots() {
    // node 0 meets everything and is skipped; the other five still connect
    let coded: Vec<u32> = vec![0x3ffffff, 1, 2, 4, 8, 16];
    let graph = create_graph(&coded);
    assert!(graph[0].is_empty());
    assert_eq!(find_cliques(&coded, &graph).len(), 1);
}
