use trie::dot::GraphStmt;
use trie::dot::dec_string;
use trie::dot::render_stmt;
use trie::trie::TrieNode;

fn build() -> TrieNode {
    let mut t = TrieNode::new();
    t.insert("cat".to_string());
    t.insert("car".to_string());
    t.insert("care".to_string());
    t.insert("dog".to_string());
    t
}

fn sorted(mut v: Vec<String>) -> Vec<String> {
    v.sort();
    v
}

#[test]
fn complete_ca() {
    let t = build();
    assert_eq!(
        sorted(t.complete("ca".to_string())),
        vec!["car".to_string(), "care".to_string(), "cat".to_string()]
    );
}

#[test]
fn complete_car() {
    let t = build();
    assert_eq!(
        sorted(t.complete("car".to_string())),
        vec!["car".to_string(), "care".to_string()]
    );
}

#[test]
fn complete_care() {
    let t = build();
    assert_eq!(sorted(t.complete("care".to_string())), vec!["care".to_string()]);
}

#[test]
fn complete_d() {
    let t = build();
    assert_eq!(t.complete("d".to_string()), vec!["dog".to_string()]);
}

#[test]
fn complete_absent() {
    let t = build();
    assert!(t.complete("z".to_string()).is_empty());
    assert!(t.complete("zebra".to_string()).is_empty());
    assert!(t.complete("cart".to_string()).is_empty());
}

#[test]
fn complete_empty_prefix_lists_all_words() {
    let t = build();
    assert_eq!(
        sorted(t.complete(String::new())),
        vec![
            "car".to_string(),
            "care".to_string(),
            "cat".to_string(),
            "dog".to_string()
        ]
    );
}

#[test]
fn round_trip_each_word() {
    let t = build();
    for word in ["cat", "car", "care", "dog"] {
        let res = t.complete(word.to_string());
        let hits = res.iter().filter(|w| w.as_str() == word).count();
        assert_eq!(hits, 1);
    }
}

#[test]
fn prefix_monotonic_on_scenario() {
    let t = build();
    let longer = t.complete("car".to_string());
    let shorter = t.complete("ca".to_string());
    for w in &longer {
        assert!(shorter.contains(w));
    }
}

#[test]
fn insert_is_idempotent() {
    let mut once = TrieNode::new();
    once.insert("cat".to_string());
    let mut thrice = TrieNode::new();
    thrice.insert("cat".to_string());
    thrice.insert("cat".to_string());
    thrice.insert("cat".to_string());
    assert_eq!(
        sorted(once.complete(String::new())),
        sorted(thrice.complete(String::new()))
    );
    assert_eq!(thrice.complete(String::new()).len(), 1);
}

#[test]
fn empty_word_can_be_stored() {
    let mut t = TrieNode::new();
    t.insert(String::new());
    let all = t.complete(String::new());
    assert_eq!(all, vec![String::new()]);
    assert!(t.complete("x".to_string()).is_empty());
}

#[test]
fn empty_tree_completes_nothing() {
    let t = TrieNode::new();
    assert!(t.complete(String::new()).is_empty());
    assert!(t.complete("a".to_string()).is_empty());
}

#[test]
fn dump_counts_on_scenario() {
    let t = build();
    let mut stmts: Vec<GraphStmt> = Vec::new();
    let next = t.dump_dot(&mut stmts, 0, 1);
    // root + c,a,t,r,e + d,o,g = 9 distinct nodes, 8 edges
    assert_eq!(next, 9);
    assert_eq!(stmts.len(), 17);
    let nodes = stmts
        .iter()
        .filter(|s| matches!(s, GraphStmt::Node { .. }))
        .count();
    let edges = stmts
        .iter()
        .filter(|s| matches!(s, GraphStmt::Edge { .. }))
        .count();
    assert_eq!(nodes, 9);
    assert_eq!(edges, 8);
    assert_eq!(stmts[0], GraphStmt::Node { id: 0, terminal: false });
    // ids are dump-local unique: exactly 0..=8, one per node statement
    let mut ids: Vec<usize> = stmts
        .iter()
        .filter_map(|s| match s {
            GraphStmt::Node { id, .. } => Some(*id),
            GraphStmt::Edge { .. } => None,
        })
        .collect();
    ids.sort();
    assert_eq!(ids, vec![0, 1, 2, 3, 4, 5, 6, 7, 8]);
    // each parent-child edge carries its transition character
    let mut labels: Vec<char> = stmts
        .iter()
        .filter_map(|s| match s {
            GraphStmt::Edge { label, .. } => Some(*label),
            GraphStmt::Node { .. } => None,
        })
        .collect();
    labels.sort();
    assert_eq!(labels, vec!['a', 'c', 'd', 'e', 'g', 'o', 'r', 't']);
    // the number of terminal marks equals the number of stored words
    let terminals = stmts
        .iter()
        .filter(|s| matches!(s, GraphStmt::Node { terminal: true, .. }))
        .count();
    assert_eq!(terminals, 4);
}

#[test]
fn dump_of_single_word() {
    let mut t = TrieNode::new();
    t.insert("ab".to_string());
    let mut stmts: Vec<GraphStmt> = Vec::new();
    let next = t.dump_dot(&mut stmts, 0, 1);
    assert_eq!(next, 3);
    assert_eq!(stmts.len(), 5);
}

#[test]
fn render_node_and_edge_lines() {
    let node = GraphStmt::Node { id: 3, terminal: true };
    assert_eq!(render_stmt(&node), "    Node_3 [label=\"*\"]");
    let blank = GraphStmt::Node { id: 0, terminal: false };
    assert_eq!(render_stmt(&blank), "    Node_0 [label=\" \"]");
    let edge = GraphStmt::Edge { from: 0, to: 12, label: 'a' };
    assert_eq!(render_stmt(&edge), "    Node_0 -> Node_12 [label=\"a\"]");
}

#[test]
fn decimal_rendering() {
    assert_eq!(dec_string(0), "0");
    assert_eq!(dec_string(7), "7");
    assert_eq!(dec_string(42), "42");
    assert_eq!(dec_string(1000), "1000");
    assert_eq!(dec_string(90107), "90107");
}
