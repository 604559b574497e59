use taskgraph::Error;
use taskgraph::db::Database;
use taskgraph::node::Node;
use taskgraph::node::checked_timestamp;
use taskgraph::node::NodeID;

fn plain(id: NodeID, title: &str) -> Node {
    Node {
        id,
        title: String::from(title),
        description: String::new(),
        scheduled: None,
        due: None,
    }
}

#[test]
fn added_node_is_retrievable_and_a_root() {
    let mut g = Database::new();
    let n = plain(7, "a task");
    g.add(&n);
    let got = g.get_node(7).unwrap();
    assert_eq!(got, n);
    assert_eq!(g.get_roots(), vec![7u128]);
}

#[test]
fn get_missing_node_fails() {
    let g = Database::new();
    assert_eq!(g.get_node(1).unwrap_err(), Error::NotFound);
}

#[test]
fn update_overwrites_fields_in_place() {
    let mut g = Database::new();
    g.add(&plain(1, "before"));
    let mut n = plain(1, "after");
    n.description = String::from("words");
    n.scheduled = Some(1_700_000_000_000);
    g.update(&n).unwrap();
    assert_eq!(g.get_node(1).unwrap(), n);
    // identity and root membership are untouched
    assert_eq!(g.get_roots(), vec![1u128]);
}

#[test]
fn update_missing_node_fails() {
    let mut g = Database::new();
    assert_eq!(g.update(&plain(9, "x")).unwrap_err(), Error::NotFound);
}

#[test]
fn connect_adds_child_and_unroots_target() {
    let mut g = Database::new();
    g.add(&plain(1, "parent"));
    g.add(&plain(2, "child"));
    g.connect(1, 2).unwrap();
    assert_eq!(g.get_children(1).unwrap(), vec![2u128]);
    assert_eq!(g.get_roots(), vec![1u128]);
    // reconnecting the same edge is harmless
    g.connect(1, 2).unwrap();
    assert_eq!(g.get_children(1).unwrap(), vec![2u128]);
    assert_eq!(g.get_roots(), vec![1u128]);
}

#[test]
fn connect_missing_endpoint_fails_and_changes_nothing() {
    let mut g = Database::new();
    g.add(&plain(1, "only"));
    assert_eq!(g.connect(1, 99).unwrap_err(), Error::NotFound);
    assert_eq!(g.connect(99, 1).unwrap_err(), Error::NotFound);
    assert_eq!(g.get_roots(), vec![1u128]);
    assert_eq!(g.get_children(1).unwrap(), Vec::<u128>::new());
}

#[test]
fn has_children_follows_connect() {
    let mut g = Database::new();
    g.add(&plain(1, "parent"));
    g.add(&plain(2, "child"));
    assert_eq!(g.has_children(1).unwrap(), false);
    g.connect(1, 2).unwrap();
    assert_eq!(g.has_children(1).unwrap(), true);
    assert_eq!(g.has_children(2).unwrap(), false);
    assert_eq!(g.has_children(3).unwrap_err(), Error::NotFound);
}

#[test]
fn children_and_roots_come_in_identifier_order() {
    let mut g = Database::new();
    g.add(&plain(5, "e"));
    g.add(&plain(3, "c"));
    g.add(&plain(4, "d"));
    g.add(&plain(1, "a"));
    assert_eq!(g.get_roots(), vec![1u128, 3, 4, 5]);
    g.connect(1, 5).unwrap();
    g.connect(1, 3).unwrap();
    g.connect(1, 4).unwrap();
    assert_eq!(g.get_children(1).unwrap(), vec![3u128, 4, 5]);
    assert_eq!(g.get_roots(), vec![1u128]);
}

#[test]
fn multiple_parents_are_representable() {
    let mut g = Database::new();
    g.add(&plain(1, "p1"));
    g.add(&plain(2, "p2"));
    g.add(&plain(3, "shared"));
    g.connect(1, 3).unwrap();
    g.connect(2, 3).unwrap();
    assert_eq!(g.get_children(1).unwrap(), vec![3u128]);
    assert_eq!(g.get_children(2).unwrap(), vec![3u128]);
    assert_eq!(g.get_roots(), vec![1u128, 2]);
}

#[test]
fn fresh_nodes_are_blank_with_distinct_ids() {
    let a = Node::new();
    let b = Node::new();
    assert_eq!(a.title, "");
    assert_eq!(a.description, "");
    assert!(a.scheduled.is_none());
    assert!(a.due.is_none());
    assert_ne!(a.id, b.id);
}

#[test]
fn short_repr_is_title_then_identifier() {
    let mut n = Node::new();
    n.title = String::from("buy milk");
    let expected = format!("buy milk ({})", uuid::Uuid::from_u128(n.id));
    assert_eq!(n.short_repr(), expected);
}

#[test]
fn short_repr_spells_the_identifier_hyphenated_lowercase() {
    let n = Node {
        id: 0x00112233445566778899aabbccddeeffu128,
        title: String::from("x"),
        description: String::new(),
        scheduled: None,
        due: None,
    };
    assert_eq!(n.short_repr(), "x (00112233-4455-6677-8899-aabbccddeeff)");
}

#[test]
fn error_messages_name_the_failure() {
    assert_eq!(Error::NotFound.message(), "node not found");
    assert_eq!(Error::StorageIO.message(), "storage failure");
    assert_eq!(Error::Malformed.message(), "malformed stored data");
}

#[test]
fn stored_timestamps_must_be_representable() {
    assert_eq!(checked_timestamp(None), Ok(None));
    assert_eq!(checked_timestamp(Some(1_700_000_000_000)), Ok(Some(1_700_000_000_000)));
    assert_eq!(checked_timestamp(Some(-12_345)), Ok(Some(-12_345)));
    // around 292 million years from now: no calendar instant carries it
    assert_eq!(checked_timestamp(Some(i64::MAX)), Err(Error::Malformed));
}
