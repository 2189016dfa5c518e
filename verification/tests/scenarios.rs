use five_cliques::solve::solve;

fn dict(words: &[&str]) -> Vec<String> {
    words.iter().map(|w| w.to_string()).collect()
}

#[test]
fn scenario_full_cover() {
    // five words covering 25 of the 26 letters, omitting 'z'
    let words = dict(&["abcde", "fghij", "klmno", "pqrst", "uvwxy"]);
    let out = solve(&words);
    assert_eq!(out.len(), 1);
    assert_eq!(out[0], dict(&["abcde", "fghij", "klmno", "pqrst", "uvwxy"]));
}

#[test]
fn scenario_repeated_letter_word_never_appears() {
    // "aabcd" has a repeated letter and must never appear in any answer
    let words = dict(&["aabcd", "fghij", "klmno", "pqrst", "uvwxy"]);
    let out = solve(&words);
    for line in &out {
        for w in line {
            assert_ne!(w, "aabcd");
        }
    }
    // with the invalid word discarded only four valid words remain
    assert_eq!(out.len(), 0);
}

#[test]
fn scenario_anagram_expansion() {
    // two anagrams share one node; the clique expands to one line each
    let words = dict(&["abcde", "bcdea", "fghij", "klmno", "pqrst", "uvwxy"]);
    let out = solve(&words);
    assert_eq!(out.len(), 2);
    assert!(out.contains(&dict(&["abcde", "fghij", "klmno", "pqrst", "uvwxy"])));
    assert!(out.contains(&dict(&["bcdea", "fghij", "klmno", "pqrst", "uvwxy"])));
}

#[test]
fn scenario_output_lines_sorted() {
    let words = dict(&["uvwxy", "pqrst", "klmno", "fghij", "abcde"]);
    let out = solve(&words);
    assert_eq!(out.len(), 1);
    let mut sorted_line = out[0].clone();
    sorted_line.sort();
    assert_eq!(out[0], sorted_line);
}

#[test]
fn scenario_no_words() {
    let words: Vec<String> = Vec::new();
    assert_eq!(solve(&words).len(), 0);
}

#[test]
fn scenario_wrong_length_discarded() {
    let words = dict(&["abcdef", "ghij", "abcde", "fghij", "klmno", "pqrst", "uvwxy"]);
    let out = solve(&words);
    assert_eq!(out.len(), 1);
    assert_eq!(out[0], dict(&["abcde", "fghij", "klmno", "pqrst", "uvwxy"]));
}

#[test]
fn scenario_overlapping_letters_no_answer() {
    // "apqrs" shares 'a' with "abcde", leaving no disjoint five
    let words = dict(&["abcde", "fghij", "klmno", "apqrs", "uvwxy"]);
    assert_eq!(solve(&words).len(), 0);
}
