use five_cliques::cache::{deserialize, serialize};
use five_cliques::encode::word_to_u32;
use five_cliques::graph::create_graph;

#[test]
fn cache_round_trip() {
    let keys: Vec<u32> = {
        let mut v: Vec<u32> = ["abcde", "fghij", "klmno", "pqrst", "uvwxy"]
            .iter()
            .map(|w| word_to_u32(w))
            .collect();
        v.sort_unstable();
        v
    };
    let graph = create_graph(&keys);
    let data = serialize(&keys, &graph);
    let loaded = deserialize(&data);
    assert!(loaded.is_some());
    let (keys2, graph2) = loaded.unwrap();
    assert_eq!(keys2, keys);
    assert_eq!(graph2, graph);
}

#[test]
fn cache_text_shape() {
    // two disjoint nodes: the first line names the second as neighbor
    let mut keys: Vec<u32> = vec![word_to_u32("abcde"), word_to_u32("fghij")];
    keys.sort_unstable();
    let graph = create_graph(&keys);
    let data = serialize(&keys, &graph);
    let text = String::from_utf8(data).unwrap();
    // keys ascend numerically: "fghij" has the smaller mask of the two
    assert_eq!(text, "fghij abcde\nabcde\n");
}

#[test]
fn cache_empty_graph() {
    let keys: Vec<u32> = Vec::new();
    let graph: Vec<Vec<usize>> = Vec::new();
    let data = serialize(&keys, &graph);
    assert!(data.is_empty());
    let loaded = deserialize(&data);
    assert_eq!(loaded, Some((Vec::new(), Vec::new())));
}

#[test]
fn cache_rejects_garbage() {
    assert!(deserialize(&b"!!\n".to_vec()).is_none());
    assert!(deserialize(&b"abcde".to_vec()).is_none());
    assert!(deserialize(&b"aa\n".to_vec()).is_none());
    assert!(deserialize(&b"abcde zzzzz\n".to_vec()).is_none());
    assert!(deserialize(&b" abcde\n".to_vec()).is_none());
}

#[test]
fn cache_rejects_misordered_keys() {
    // node keys must ascend by mask value
    let keys: Vec<u32> = {
        let mut v: Vec<u32> = vec![word_to_u32("abcde"), word_to_u32("fghij")];
        v.sort_unstable();
        v
    };
    let graph = create_graph(&keys);
    let data = serialize(&keys, &graph);
    let text = String::from_utf8(data).unwrap();
    let mut lines: Vec<&str> = text.lines().collect();
    lines.reverse();
    let reversed = format!("{}\n{}\n", lines[0], lines[1]);
    assert!(deserialize(&reversed.into_bytes()).is_none());
}
