use taskgraph::db::Database;
use taskgraph::find::MAX_DISTANCE;
use taskgraph::find::find_candidates;
use taskgraph::find::levenshtein_distance;
use taskgraph::node::Node;
use taskgraph::node::NodeID;

fn titled(id: NodeID, title: &str) -> Node {
    Node {
        id,
        title: String::from(title),
        description: String::new(),
        scheduled: None,
        due: None,
    }
}

#[test]
fn equal_strings_are_at_distance_zero() {
    assert_eq!(levenshtein_distance("Buy groceries", "Buy groceries"), 0);
    assert_eq!(levenshtein_distance("", ""), 0);
}

#[test]
fn a_prefix_query_is_at_distance_zero() {
    // Insertions toward the title are free.
    assert_eq!(levenshtein_distance("Buy gro", "Buy groceries"), 0);
    assert_eq!(levenshtein_distance("", "anything at all"), 0);
}

#[test]
fn one_wrong_character_costs_one() {
    assert_eq!(levenshtein_distance("Buy groxeries", "Buy groceries"), 1);
}

#[test]
fn deletions_cost_one_each() {
    assert_eq!(levenshtein_distance("xxxx", ""), 4);
    assert_eq!(levenshtein_distance("xxxxx", ""), 5);
}

#[test]
fn search_keeps_matches_strictly_below_the_threshold() {
    let mut g = Database::new();
    g.add(&titled(1, "Buy groceries"));
    g.add(&titled(2, ""));
    let candidates = find_candidates("Buy gro", &g);
    // the matching title is at distance 0 and included
    assert!(candidates.iter().any(|p| p.0.id == 1 && p.1 == 0));
    // the empty title needs 7 deletions and is excluded
    assert_eq!(levenshtein_distance("Buy gro", ""), 7);
    assert!(!candidates.iter().any(|p| p.0.id == 2));
}

#[test]
fn threshold_is_exclusive() {
    let mut g = Database::new();
    g.add(&titled(1, ""));
    // distance 4: strictly below 5, kept
    let four = find_candidates("xxxx", &g);
    assert_eq!(four.len(), 1);
    assert_eq!(four[0].1, 4);
    // distance exactly 5: excluded
    let five = find_candidates("xxxxx", &g);
    assert!(five.is_empty());
}

#[test]
fn mostly_wrong_query_scores_at_least_four() {
    let d = levenshtein_distance("Buy xyz1", "Buy groceries");
    assert!(d >= 4);
    let mut g = Database::new();
    g.add(&titled(1, "Buy groceries"));
    let candidates = find_candidates("Buy xyz1", &g);
    assert_eq!(candidates.iter().any(|p| p.0.id == 1), d < MAX_DISTANCE);
}

#[test]
fn candidates_carry_their_distance() {
    let mut g = Database::new();
    g.add(&titled(1, "water plants"));
    g.add(&titled(2, "water plant"));
    let candidates = find_candidates("water plants", &g);
    assert_eq!(candidates.len(), 2);
    assert_eq!(candidates[0].0.id, 1);
    assert_eq!(candidates[0].1, 0);
    assert_eq!(candidates[1].0.id, 2);
    // one deletion from the query
    assert_eq!(candidates[1].1, 1);
}

#[test]
fn distance_counts_characters_not_bytes() {
    assert_eq!(levenshtein_distance("caf\u{e9}", "caf\u{e9}"), 0);
    assert_eq!(levenshtein_distance("caf\u{e9}", "cafe"), 1);
}

#[test]
fn sorting_orders_candidates_by_distance() {
    let mut candidates = vec![
        (titled(1, "a"), 3usize),
        (titled(2, "b"), 0),
        (titled(3, "c"), 4),
        (titled(4, "d"), 1),
    ];
    taskgraph::find::sort_candidates(&mut candidates);
    let view: Vec<(u128, usize)> = candidates.iter().map(|p| (p.0.id, p.1)).collect();
    assert_eq!(view, vec![(2, 0), (4, 1), (1, 3), (3, 4)]);
}

#[test]
fn distance_zero_is_subsequence_matching() {
    // an in-order scattering of the query is free
    assert_eq!(levenshtein_distance("ace", "abcde"), 0);
    assert_eq!(levenshtein_distance("Bgro", "Buy groceries"), 0);
    // out of order costs
    assert!(levenshtein_distance("aec", "abcde") > 0);
}
