use taskgraph::Error;
use taskgraph::db::Database;
use taskgraph::node::Node;
use taskgraph::node::NodeID;
use taskgraph::snapshot::decode_snapshot;
use taskgraph::snapshot::encode_snapshot;

fn full(id: NodeID, title: &str, descr: &str, scheduled: Option<i64>, due: Option<i64>) -> Node {
    Node {
        id,
        title: String::from(title),
        description: String::from(descr),
        scheduled,
        due,
    }
}

fn sample() -> Database {
    let mut g = Database::new();
    g.add(&full(1, "write report", "the quarterly one", Some(1_700_000_000_000), None));
    g.add(&full(2, "gather numbers", "", None, Some(-12_345)));
    g.add(&full(3, "café run ☕", "unicode survives", None, None));
    g.connect(1, 2).unwrap();
    g.connect(1, 3).unwrap();
    g.connect(3, 2).unwrap();
    g
}

#[test]
fn round_trip_reproduces_nodes_edges_and_roots() {
    let g = sample();
    let bytes = encode_snapshot(&g);
    let g2 = decode_snapshot(&bytes).unwrap();
    // identical node set
    for id in [1u128, 2, 3] {
        assert_eq!(g2.get_node(id).unwrap(), g.get_node(id).unwrap());
    }
    // identical edge set (queried as adjacency)
    for id in [1u128, 2, 3] {
        assert_eq!(g2.get_children(id).unwrap(), g.get_children(id).unwrap());
    }
    // identical root set
    assert_eq!(g2.get_roots(), g.get_roots());
    // and the reloaded store writes the same snapshot again
    assert_eq!(encode_snapshot(&g2), bytes);
}

#[test]
fn empty_store_round_trips() {
    let g = Database::new();
    let bytes = encode_snapshot(&g);
    let g2 = decode_snapshot(&bytes).unwrap();
    assert_eq!(g2.get_roots(), Vec::<u128>::new());
    assert_eq!(g2.get_node(1).unwrap_err(), Error::NotFound);
}

#[test]
fn truncated_snapshot_is_malformed() {
    let g = sample();
    let mut bytes = encode_snapshot(&g);
    bytes.pop();
    assert_eq!(decode_snapshot(&bytes).unwrap_err(), Error::Malformed);
}

#[test]
fn corrupted_root_list_is_malformed() {
    let g = sample();
    let mut bytes = encode_snapshot(&g);
    // flip a bit in the final root identifier
    let last = bytes.len() - 1;
    bytes[last] ^= 1;
    assert_eq!(decode_snapshot(&bytes).unwrap_err(), Error::Malformed);
}

#[test]
fn garbage_is_malformed() {
    assert_eq!(decode_snapshot(&[]).unwrap_err(), Error::Malformed);
    assert_eq!(decode_snapshot(&[1, 2, 3]).unwrap_err(), Error::Malformed);
    let huge_count = [0xffu8; 8];
    assert_eq!(decode_snapshot(&huge_count).unwrap_err(), Error::Malformed);
}

#[test]
fn trailing_bytes_are_malformed() {
    let g = sample();
    let mut bytes = encode_snapshot(&g);
    bytes.push(0);
    assert_eq!(decode_snapshot(&bytes).unwrap_err(), Error::Malformed);
}
