//! The snapshot form of the graph store: one byte string holding the node
//! list, the edge list and the root list, written and read back whole.
//!
//! Layout, all integers little-endian: a record count, then per record its
//! 16-byte identifier, each text as a byte count plus UTF-8 bytes, and each
//! timestamp as a presence byte plus 8 bytes (biased so the sign needs no
//! care); then the edge pairs and the root identifiers, each list behind
//! its count. A snapshot that does not read back as a well-formed store
//! that would have written exactly these bytes is `Malformed`.

use vstd::bytes::*;
use vstd::prelude::*;
use vstd::slice::slice_index_get;
use vstd::slice::slice_subrange;
use vstd::slice::slice_to_vec;
use vstd::string::StrSliceExecFns;
use vstd::utf8::encode_utf8;
use vstd::utf8::valid_utf8;

use crate::Error;
use crate::db::Database;
use crate::db::ids_distinct;
use crate::db::map_of;
use crate::db::sorted_strict;
use crate::node::Node;
use crate::node::NodeID;

verus! {

/// The bias that maps a signed timestamp onto an unsigned 64-bit word.
pub open spec fn ts_biased(v: i64) -> u64 {
    (v + 0x8000_0000_0000_0000) as u64
}

pub open spec fn enc_u64(x: u64) -> Seq<u8> {
    spec_u64_to_le_bytes(x)
}

pub open spec fn enc_id(x: NodeID) -> Seq<u8> {
    spec_u128_to_le_bytes(x)
}

/// An optional timestamp: a presence byte, then the biased value (zero
/// when absent).
pub open spec fn enc_ts(t: Option<i64>) -> Seq<u8> {
    match t {
        None => seq![0u8] + enc_u64(0),
        Some(v) => seq![1u8] + enc_u64(ts_biased(v)),
    }
}

/// A text: its UTF-8 byte count, then those bytes.
pub open spec fn enc_str(s: Seq<char>) -> Seq<u8> {
    enc_u64(encode_utf8(s).len() as u64) + encode_utf8(s)
}

pub open spec fn enc_node(n: Node) -> Seq<u8> {
    enc_id(n.id) + enc_str(n.title@) + enc_str(n.description@) + enc_ts(n.scheduled) + enc_ts(n.due)
}

pub open spec fn enc_edge(e: (NodeID, NodeID)) -> Seq<u8> {
    enc_id(e.0) + enc_id(e.1)
}

pub open spec fn enc_nodes(s: Seq<Node>) -> Seq<u8>
    decreases s.len(),
{
    if s.len() == 0 {
        Seq::empty()
    } else {
        enc_node(s.first()) + enc_nodes(s.drop_first())
    }
}

pub open spec fn enc_edges(s: Seq<(NodeID, NodeID)>) -> Seq<u8>
    decreases s.len(),
{
    if s.len() == 0 {
        Seq::empty()
    } else {
        enc_edge(s.first()) + enc_edges(s.drop_first())
    }
}

pub open spec fn enc_ids(s: Seq<NodeID>) -> Seq<u8>
    decreases s.len(),
{
    if s.len() == 0 {
        Seq::empty()
    } else {
        enc_id(s.first()) + enc_ids(s.drop_first())
    }
}

/// Encoding one more record extends the byte string at its end.
proof fn lemma_enc_nodes_push(s: Seq<Node>, n: Node)
    ensures
        enc_nodes(s.push(n)) == enc_nodes(s) + enc_node(n),
    decreases s.len(),
{
    if s.len() == 0 {
        assert(s.push(n).drop_first() =~= s);
        assert(s.push(n).first() == n);
        assert(enc_nodes(s.push(n)) =~= enc_nodes(s) + enc_node(n));
    } else {
        assert(s.push(n).drop_first() =~= s.drop_first().push(n));
        assert(s.push(n).first() == s.first());
        lemma_enc_nodes_push(s.drop_first(), n);
        assert(enc_nodes(s.push(n)) =~= enc_nodes(s) + enc_node(n));
    }
}

proof fn lemma_enc_edges_push(s: Seq<(NodeID, NodeID)>, e: (NodeID, NodeID))
    ensures
        enc_edges(s.push(e)) == enc_edges(s) + enc_edge(e),
    decreases s.len(),
{
    if s.len() == 0 {
        assert(s.push(e).drop_first() =~= s);
        assert(s.push(e).first() == e);
        assert(enc_edges(s.push(e)) =~= enc_edges(s) + enc_edge(e));
    } else {
        assert(s.push(e).drop_first() =~= s.drop_first().push(e));
        assert(s.push(e).first() == s.first());
        lemma_enc_edges_push(s.drop_first(), e);
        assert(enc_edges(s.push(e)) =~= enc_edges(s) + enc_edge(e));
    }
}

proof fn lemma_enc_ids_push(s: Seq<NodeID>, x: NodeID)
    ensures
        enc_ids(s.push(x)) == enc_ids(s) + enc_id(x),
    decreases s.len(),
{
    if s.len() == 0 {
        assert(s.push(x).drop_first() =~= s);
        assert(s.push(x).first() == x);
        assert(enc_ids(s.push(x)) =~= enc_ids(s) + enc_id(x));
    } else {
        assert(s.push(x).drop_first() =~= s.drop_first().push(x));
        assert(s.push(x).first() == s.first());
        lemma_enc_ids_push(s.drop_first(), x);
        assert(enc_ids(s.push(x)) =~= enc_ids(s) + enc_id(x));
    }
}

/// The whole snapshot a store writes: nodes, then edges, then roots.
pub open spec fn spec_encode(g: Database) -> Seq<u8> {
    enc_u64(g.nodes_seq().len() as u64) + enc_nodes(g.nodes_seq()) + enc_u64(
        g.edges_seq().len() as u64,
    ) + enc_edges(g.edges_seq()) + enc_u64(g.roots_seq().len() as u64) + enc_ids(g.roots_seq())
}

/// Appends the little-endian bytes of a count or value.
fn push_u64(out: &mut Vec<u8>, x: u64)
    ensures
        final(out)@ == old(out)@ + enc_u64(x),
{
    let mut b = u64_to_le_bytes(x);
    out.append(&mut b);
}

fn push_id(out: &mut Vec<u8>, x: NodeID)
    ensures
        final(out)@ == old(out)@ + enc_id(x),
{
    let mut b = u128_to_le_bytes(x);
    out.append(&mut b);
}

fn push_str(out: &mut Vec<u8>, s: &str)
    ensures
        final(out)@ == old(out)@ + enc_str(s@),
{
    let mut b = s.as_bytes_vec();
    push_u64(out, b.len() as u64);
    out.append(&mut b);
    proof {
        assert(final(out)@ == old(out)@ + enc_str(s@)) by {
            assert(old(out)@ + enc_u64(encode_utf8(s@).len() as u64) + encode_utf8(s@) =~= old(
                out,
            )@ + enc_str(s@));
        }
    }
}

fn push_ts(out: &mut Vec<u8>, t: &Option<i64>)
    ensures
        final(out)@ == old(out)@ + enc_ts(*t),
{
    match t {
        None => {
            out.push(0u8);
            push_u64(out, 0);
            proof {
                assert(final(out)@ =~= old(out)@ + enc_ts(None::<i64>));
            }
        },
        Some(v) => {
            out.push(1u8);
            let biased = (((*v) as i128) + 0x8000_0000_0000_0000i128) as u64;
            proof {
                assert(biased == ts_biased(*v));
            }
            push_u64(out, biased);
            proof {
                assert(final(out)@ =~= old(out)@ + enc_ts(Some(*v)));
            }
        },
    }
}

fn push_node(out: &mut Vec<u8>, n: &Node)
    ensures
        final(out)@ == old(out)@ + enc_node(*n),
{
    push_id(out, n.id);
    push_str(out, n.title.as_str());
    push_str(out, n.description.as_str());
    push_ts(out, &n.scheduled);
    push_ts(out, &n.due);
    proof {
        assert(final(out)@ =~= old(out)@ + enc_node(*n));
    }
}

/// Writes the whole store as one snapshot byte string.
pub fn encode_snapshot(g: &Database) -> (r: Vec<u8>)
    ensures
        r@ == spec_encode(*g),
{
    let nodes = g.nodes_ref();
    let edges = g.edges_ref();
    let roots = g.roots_ref();
    let mut out: Vec<u8> = Vec::new();
    push_u64(&mut out, nodes.len() as u64);
    let mut i: usize = 0;
    while i < nodes.len()
        invariant
            nodes@ == g.nodes_seq(),
            i <= nodes@.len(),
            out@ == enc_u64(nodes@.len() as u64) + enc_nodes(nodes@.take(i as int)),
        decreases nodes@.len() - i,
    {
        push_node(&mut out, &nodes[i]);
        proof {
            let t1 = nodes@.take(i + 1);
            assert(t1 =~= nodes@.take(i as int).push(nodes@[i as int]));
            lemma_enc_nodes_push(nodes@.take(i as int), nodes@[i as int]);
            assert(out@ =~= enc_u64(nodes@.len() as u64) + enc_nodes(t1));
        }
        i = i + 1;
    }
    proof {
        assert(nodes@.take(nodes@.len() as int) =~= nodes@);
    }
    let ghost part1 = enc_u64(nodes@.len() as u64) + enc_nodes(nodes@);
    push_u64(&mut out, edges.len() as u64);
    let mut i: usize = 0;
    while i < edges.len()
        invariant
            nodes@ == g.nodes_seq(),
            edges@ == g.edges_seq(),
            part1 == enc_u64(nodes@.len() as u64) + enc_nodes(nodes@),
            i <= edges@.len(),
            out@ == part1 + enc_u64(edges@.len() as u64) + enc_edges(edges@.take(i as int)),
        decreases edges@.len() - i,
    {
        let e = edges[i];
        push_id(&mut out, e.0);
        push_id(&mut out, e.1);
        proof {
            let t1 = edges@.take(i + 1);
            assert(t1 =~= edges@.take(i as int).push(edges@[i as int]));
            lemma_enc_edges_push(edges@.take(i as int), edges@[i as int]);
            assert(out@ =~= part1 + enc_u64(edges@.len() as u64) + enc_edges(t1));
        }
        i = i + 1;
    }
    proof {
        assert(edges@.take(edges@.len() as int) =~= edges@);
    }
    let ghost part2 = part1 + enc_u64(edges@.len() as u64) + enc_edges(edges@);
    push_u64(&mut out, roots.len() as u64);
    let mut i: usize = 0;
    while i < roots.len()
        invariant
            nodes@ == g.nodes_seq(),
            edges@ == g.edges_seq(),
            roots@ == g.roots_seq(),
            part2 == enc_u64(nodes@.len() as u64) + enc_nodes(nodes@) + enc_u64(
                edges@.len() as u64,
            ) + enc_edges(edges@),
            i <= roots@.len(),
            out@ == part2 + enc_u64(roots@.len() as u64) + enc_ids(roots@.take(i as int)),
        decreases roots@.len() - i,
    {
        push_id(&mut out, roots[i]);
        proof {
            let t1 = roots@.take(i + 1);
            assert(t1 =~= roots@.take(i as int).push(roots@[i as int]));
            lemma_enc_ids_push(roots@.take(i as int), roots@[i as int]);
            assert(out@ =~= part2 + enc_u64(roots@.len() as u64) + enc_ids(t1));
        }
        i = i + 1;
    }
    proof {
        assert(roots@.take(roots@.len() as int) =~= roots@);
        assert(out@ =~= spec_encode(*g));
    }
    out
}

/// Relies on String::from_utf8: succeeds exactly on valid UTF-8 and then
/// holds exactly those bytes.
#[verifier::external_body]
fn string_from_utf8(v: Vec<u8>) -> (r: Option<String>)
    ensures
        r is Some <==> valid_utf8(v@),
        r matches Some(s) ==> encode_utf8(s@) == v@,
{
    match String::from_utf8(v) {
        Ok(s) => Some(s),
        Err(_) => None,
    }
}

fn read_u64_at(bytes: &[u8], pos: usize) -> (r: u64)
    requires
        pos + 8 <= bytes@.len(),
        bytes@.len() <= usize::MAX,
    ensures
        r == spec_u64_from_le_bytes(bytes@.subrange(pos as int, pos as int + 8)),
{
    u64_from_le_bytes(slice_subrange(bytes, pos, pos + 8))
}

fn read_id_at(bytes: &[u8], pos: usize) -> (r: NodeID)
    requires
        pos + 16 <= bytes@.len(),
        bytes@.len() <= usize::MAX,
    ensures
        r == spec_u128_from_le_bytes(bytes@.subrange(pos as int, pos as int + 16)),
{
    u128_from_le_bytes(slice_subrange(bytes, pos, pos + 16))
}

/// Every identifier distinct, pairwise.
fn check_ids_distinct(nodes: &Vec<Node>) -> (r: bool)
    ensures
        r == ids_distinct(nodes@),
{
    let mut i: usize = 0;
    while i < nodes.len()
        invariant
            i <= nodes@.len(),
            forall|p: int, q: int| 0 <= p < q < i ==> nodes@[p].id != nodes@[q].id,
        decreases nodes@.len() - i,
    {
        let mut j: usize = 0;
        while j < i
            invariant
                j <= i < nodes@.len(),
                forall|p: int, q: int| 0 <= p < q < i ==> nodes@[p].id != nodes@[q].id,
                forall|p: int| 0 <= p < j ==> nodes@[p].id != nodes@[i as int].id,
            decreases i - j,
        {
            if nodes[j].id == nodes[i].id {
                return false;
            }
            j = j + 1;
        }
        i = i + 1;
    }
    true
}

/// Whether some record carries this identifier.
fn check_has_id(nodes: &Vec<Node>, id: NodeID) -> (r: bool)
    requires
        ids_distinct(nodes@),
    ensures
        r == map_of(nodes@).dom().contains(id),
{
    proof {
        crate::db::lemma_map_of_props(nodes@);
    }
    let mut i: usize = 0;
    while i < nodes.len()
        invariant
            i <= nodes@.len(),
            forall|k: int| 0 <= k < i ==> nodes@[k].id != id,
            ids_distinct(nodes@),
            map_of(nodes@).dom().contains(id) <==> exists|k: int|
                0 <= k < nodes@.len() && nodes@[k].id == id,
        decreases nodes@.len() - i,
    {
        if nodes[i].id == id {
            return true;
        }
        i = i + 1;
    }
    proof {
        if map_of(nodes@).dom().contains(id) {
            let k = choose|k: int| 0 <= k < nodes@.len() && nodes@[k].id == id;
            assert(false);
        }
    }
    false
}

/// Edge pairs distinct and both endpoints stored.
fn check_edges(nodes: &Vec<Node>, edges: &Vec<(NodeID, NodeID)>) -> (r: bool)
    requires
        ids_distinct(nodes@),
    ensures
        r == (edges@.no_duplicates() && forall|i: int|
            0 <= i < edges@.len() ==> map_of(nodes@).dom().contains((#[trigger] edges@[i]).0)
                && map_of(nodes@).dom().contains(edges@[i].1)),
{
    let mut i: usize = 0;
    while i < edges.len()
        invariant
            i <= edges@.len(),
            ids_distinct(nodes@),
            forall|p: int, q: int| 0 <= p < q < i ==> edges@[p] != edges@[q],
            forall|k: int|
                0 <= k < i ==> map_of(nodes@).dom().contains((#[trigger] edges@[k]).0) && map_of(
                    nodes@,
                ).dom().contains(edges@[k].1),
        decreases edges@.len() - i,
    {
        let e = edges[i];
        if !check_has_id(nodes, e.0) || !check_has_id(nodes, e.1) {
            return false;
        }
        let mut j: usize = 0;
        while j < i
            invariant
                j <= i < edges@.len(),
                forall|p: int, q: int| 0 <= p < q < i ==> edges@[p] != edges@[q],
                forall|p: int| 0 <= p < j ==> edges@[p] != edges@[i as int],
            decreases i - j,
        {
            if edges[j].0 == edges[i].0 && edges[j].1 == edges[i].1 {
                proof {
                    assert(edges@[j as int] == edges@[i as int]);
                }
                return false;
            }
            j = j + 1;
        }
        i = i + 1;
    }
    proof {
        if !edges@.no_duplicates() {
            let (p, q) = choose|p: int, q: int|
                0 <= p < edges@.len() && 0 <= q < edges@.len() && p != q && edges@[p] == edges@[q];
        }
    }
    true
}

/// Strictly ascending identifiers.
fn check_sorted(roots: &Vec<NodeID>) -> (r: bool)
    ensures
        r == sorted_strict(roots@),
{
    let mut i: usize = 0;
    if roots.len() == 0 {
        return true;
    }
    while i < roots.len() - 1
        invariant
            roots@.len() > 0,
            i <= roots@.len() - 1,
            forall|k: int| 0 <= k < i ==> #[trigger] roots@[k] < roots@[k + 1],
        decreases roots@.len() - i,
    {
        if roots[i] >= roots[i + 1] {
            return false;
        }
        i = i + 1;
    }
    proof {
        assert forall|p: int, q: int| 0 <= p < q < roots@.len() implies roots@[p] < roots@[q] by {
            lemma_adjacent_sorted(roots@, p, q);
        }
    }
    true
}

/// Adjacent ascent gives global ascent.
proof fn lemma_adjacent_sorted(s: Seq<NodeID>, p: int, q: int)
    requires
        forall|k: int| 0 <= k < s.len() - 1 ==> #[trigger] s[k] < s[k + 1],
        0 <= p < q < s.len(),
    ensures
        s[p] < s[q],
    decreases q - p,
{
    if p + 1 < q {
        lemma_adjacent_sorted(s, p + 1, q);
    }
}

/// The root list names exactly the stored identifiers that no edge
/// targets.
fn check_roots(nodes: &Vec<Node>, edges: &Vec<(NodeID, NodeID)>, roots: &Vec<NodeID>) -> (r: bool)
    requires
        ids_distinct(nodes@),
    ensures
        r == forall|id: NodeID| #[trigger]
            roots@.to_set().contains(id) <==> (map_of(nodes@).dom().contains(id) && !(exists|
                e: (NodeID, NodeID),
            | #[trigger] edges@.to_set().contains(e) && e.1 == id)),
{
    // Every listed root is stored.
    let mut i: usize = 0;
    while i < roots.len()
        invariant
            i <= roots@.len(),
            ids_distinct(nodes@),
            forall|k: int| 0 <= k < i ==> map_of(nodes@).dom().contains(#[trigger] roots@[k]),
        decreases roots@.len() - i,
    {
        if !check_has_id(nodes, roots[i]) {
            proof {
                assert(roots@.to_set().contains(roots@[i as int]));
            }
            return false;
        }
        i = i + 1;
    }
    // Every stored identifier is listed exactly when untargeted.
    let mut i: usize = 0;
    while i < nodes.len()
        invariant
            i <= nodes@.len(),
            ids_distinct(nodes@),
            forall|k: int| 0 <= k < roots@.len() ==> map_of(nodes@).dom().contains(
                #[trigger] roots@[k],
            ),
            forall|k: int|
                0 <= k < i ==> (roots@.contains(#[trigger] nodes@[k].id) <==> !(exists|
                    e: (NodeID, NodeID),
                | #[trigger] edges@.to_set().contains(e) && e.1 == nodes@[k].id)),
        decreases nodes@.len() - i,
    {
        let id = nodes[i].id;
        let targeted = contains_target(edges, id);
        let listed = contains_root(roots, id);
        if listed == targeted {
            proof {
                if listed {
                    assert(roots@.to_set().contains(id));
                } else {
                    assert(!roots@.to_set().contains(id));
                    crate::db::lemma_map_of_props(nodes@);
                    assert(map_of(nodes@).dom().contains(id));
                }
            }
            return false;
        }
        i = i + 1;
    }
    proof {
        crate::db::lemma_map_of_props(nodes@);
        assert forall|id: NodeID| #[trigger]
            roots@.to_set().contains(id) <==> (map_of(nodes@).dom().contains(id) && !(exists|
                e: (NodeID, NodeID),
            | #[trigger] edges@.to_set().contains(e) && e.1 == id)) by {
            if roots@.to_set().contains(id) {
                let k = choose|k: int| 0 <= k < roots@.len() && roots@[k] == id;
                assert(map_of(nodes@).dom().contains(roots@[k]));
                let m = choose|m: int| 0 <= m < nodes@.len() && nodes@[m].id == id;
                assert(roots@.contains(nodes@[m].id));
            } else {
                if map_of(nodes@).dom().contains(id) {
                    let m = choose|m: int| 0 <= m < nodes@.len() && nodes@[m].id == id;
                    assert(!roots@.contains(nodes@[m].id));
                }
            }
        }
    }
    true
}

/// Whether any edge targets this identifier.
fn contains_target(edges: &Vec<(NodeID, NodeID)>, id: NodeID) -> (r: bool)
    ensures
        r == exists|e: (NodeID, NodeID)| #[trigger] edges@.to_set().contains(e) && e.1 == id,
{
    let mut i: usize = 0;
    while i < edges.len()
        invariant
            i <= edges@.len(),
            forall|k: int| 0 <= k < i ==> (#[trigger] edges@[k]).1 != id,
        decreases edges@.len() - i,
    {
        if edges[i].1 == id {
            proof {
                assert(edges@.to_set().contains(edges@[i as int]));
            }
            return true;
        }
        i = i + 1;
    }
    proof {
        if exists|e: (NodeID, NodeID)| #[trigger] edges@.to_set().contains(e) && e.1 == id {
            let e = choose|e: (NodeID, NodeID)| #[trigger] edges@.to_set().contains(e) && e.1
                == id;
            let k = choose|k: int| 0 <= k < edges@.len() && edges@[k] == e;
            assert(false);
        }
    }
    false
}

/// Whether the root list holds this identifier.
fn contains_root(roots: &Vec<NodeID>, id: NodeID) -> (r: bool)
    ensures
        r == roots@.contains(id),
{
    let mut i: usize = 0;
    while i < roots.len()
        invariant
            i <= roots@.len(),
            forall|k: int| 0 <= k < i ==> roots@[k] != id,
        decreases roots@.len() - i,
    {
        if roots[i] == id {
            return true;
        }
        i = i + 1;
    }
    false
}

/// Whether a slice and a vector hold the same bytes.
fn bytes_eq(a: &[u8], b: &Vec<u8>) -> (r: bool)
    ensures
        r == (a@ == b@),
{
    if a.len() != b.len() {
        proof {
            if a@ == b@ {
                assert(a@.len() == b@.len());
            }
        }
        return false;
    }
    let mut i: usize = 0;
    while i < b.len()
        invariant
            a@.len() == b@.len(),
            i <= b@.len(),
            forall|k: int| 0 <= k < i ==> a@[k] == b@[k],
        decreases b@.len() - i,
    {
        if *slice_index_get(a, i) != b[i] {
            proof {
                if a@ == b@ {
                    assert(a@[i as int] == b@[i as int]);
                }
            }
            return false;
        }
        i = i + 1;
    }
    proof {
        assert(a@ =~= b@);
    }
    true
}

/// Reads one optional timestamp; the presence byte must be 0 or 1.
fn read_ts(bytes: &[u8], pos: usize) -> (r: Option<(Option<i64>, usize)>)
    requires
        pos + 9 <= bytes@.len(),
        bytes@.len() <= usize::MAX,
    ensures
        r matches Some(p) ==> p.1 == pos + 9,
        forall|t: Option<i64>|
            bytes@.subrange(pos as int, pos + 9) == enc_ts(t) ==> r == Some(
                (t, (pos + 9) as usize),
            ),
{
    let tag = *slice_index_get(bytes, pos);
    let raw = read_u64_at(bytes, pos + 1);
    let r = if tag == 0 {
        Some((None, pos + 9))
    } else if tag == 1 {
        let v = ((raw as i128) - 0x8000_0000_0000_0000i128) as i64;
        Some((Some(v), pos + 9))
    } else {
        None
    };
    proof {
        lemma_auto_spec_u64_to_from_le_bytes();
        assert forall|t: Option<i64>|
            bytes@.subrange(pos as int, pos + 9) == enc_ts(t) implies r == Some(
            (t, (pos + 9) as usize),
        ) by {
            lemma_enc_ts_fields(t);
            let blk = bytes@.subrange(pos as int, pos + 9);
            assert(tag == blk[0]);
            assert(bytes@.subrange(pos + 1, pos + 9) =~= blk.subrange(1, 9));
            match t {
                None => {
                    assert(tag == 0);
                },
                Some(v) => {
                    assert(tag == 1);
                    assert(blk.subrange(1, 9) == enc_u64(ts_biased(v)));
                    assert(raw == ts_biased(v));
                },
            }
        }
    }
    r
}

/// Reads back a snapshot. Succeeds on exactly the byte strings that some
/// well-formed store writes, and then returns a store that writes exactly
/// the given bytes; anything else is `Malformed`.
#[verifier::rlimit(100)]
#[verifier::spinoff_prover]
pub fn decode_snapshot(bytes: &[u8]) -> (r: Result<Database, Error>)
    ensures
        r matches Ok(g) ==> g.wf() && spec_encode(g) == bytes@,
        r is Err ==> r == Err::<Database, Error>(Error::Malformed),
        (exists|g0: Database| encodes(bytes@, g0)) ==> r is Ok,
{
    let ghost has_model = exists|g0: Database| encodes(bytes@, g0);
    let ghost model = choose|g0: Database| encodes(bytes@, g0);
    let ghost mnodes = model.nodes_seq();
    let ghost medges = model.edges_seq();
    let ghost mroots = model.roots_seq();
    let ghost pn = 8 + enc_nodes(mnodes).len() as int;
    let ghost pe = pn + 8;
    let ghost pr = pe + 32 * medges.len() as int;
    let ghost prr = pr + 8;
    let total = bytes.len();
    proof {
        if has_model {
            lemma_model_layout(bytes@, model);
            lemma_enc_nodes_min_len(mnodes);
            lemma_auto_spec_u64_to_from_le_bytes();
        }
    }
    let mut pos: usize = 0;
    if total < 8 {
        proof {
            if has_model {
                assert(false);
            }
        }
        return Err(Error::Malformed);
    }
    let node_count = read_u64_at(bytes, pos);
    proof {
        if has_model {
            lemma_u64_roundtrip(mnodes.len() as u64);
            assert(bytes@.subrange(0, 8) == enc_u64(mnodes.len() as u64));
            assert(node_count == mnodes.len());
        }
    }
    pos = pos + 8;
    if node_count > (total as u64) {
        proof {
            if has_model {
                assert(mnodes.len() <= enc_nodes(mnodes).len() <= total);
                assert(false);
            }
        }
        return Err(Error::Malformed);
    }
    let node_count = node_count as usize;
    let mut nodes: Vec<Node> = Vec::new();
    let mut i: usize = 0;
    while i < node_count
        invariant
            total == bytes@.len(),
            i <= node_count,
            pos <= total,
            nodes@.len() == i,
            has_model == exists|g0: Database| encodes(bytes@, g0),
            has_model ==> encodes(bytes@, model) && mnodes == model.nodes_seq() && node_count
                == mnodes.len() && pos == 8 + enc_nodes(mnodes.take(i as int)).len()
                && nodes_alike(nodes@, mnodes.take(i as int)),
        decreases node_count - i,
    {
        let ghost mn = mnodes[i as int];
        let ghost tl = enc_str(mn.title@).len() as int;
        let ghost dl = enc_str(mn.description@).len() as int;
        proof {
            if has_model {
                lemma_model_node_block(bytes@, model, i as int);
                lemma_auto_spec_u128_to_from_le_bytes();
                assert(str_size_ok(mn.title@) && str_size_ok(mn.description@));
            }
        }
        if total - pos < 16 {
            proof {
                if has_model {
                    assert(false);
                }
            }
            return Err(Error::Malformed);
        }
        let id = read_id_at(bytes, pos);
        proof {
            if has_model {
                lemma_id_roundtrip(mn.id);
                assert(bytes@.subrange(pos as int, pos + 16) == enc_id(mn.id));
                assert(id == mn.id);
            }
        }
        pos = pos + 16;
        proof {
            if has_model {
                assert(str_fits(bytes@, pos as int, mn.title@));
            }
        }
        let (title, p2) = match read_str(bytes, pos) {
            None => {
                proof {
                    if has_model {
                        assert(false);
                    }
                }
                return Err(Error::Malformed);
            },
            Some(t) => t,
        };
        proof {
            if has_model {
                assert(title@ == mn.title@ && p2 == pos + tl);
            }
        }
        pos = p2;
        proof {
            if has_model {
                assert(str_fits(bytes@, pos as int, mn.description@));
            }
        }
        let (description, p3) = match read_str(bytes, pos) {
            None => {
                proof {
                    if has_model {
                        assert(false);
                    }
                }
                return Err(Error::Malformed);
            },
            Some(t) => t,
        };
        proof {
            if has_model {
                assert(description@ == mn.description@ && p3 == pos + dl);
            }
        }
        pos = p3;
        if total - pos < 9 {
            proof {
                if has_model {
                    assert(false);
                }
            }
            return Err(Error::Malformed);
        }
        let (scheduled, p4) = match read_ts(bytes, pos) {
            None => {
                proof {
                    if has_model {
                        assert(bytes@.subrange(pos as int, pos + 9) == enc_ts(mn.scheduled));
                        assert(false);
                    }
                }
                return Err(Error::Malformed);
            },
            Some(t) => t,
        };
        proof {
            if has_model {
                assert(bytes@.subrange(pos as int, pos + 9) == enc_ts(mn.scheduled));
                assert(scheduled == mn.scheduled && p4 == pos + 9);
            }
        }
        pos = p4;
        if total - pos < 9 {
            proof {
                if has_model {
                    assert(false);
                }
            }
            return Err(Error::Malformed);
        }
        let (due, p5) = match read_ts(bytes, pos) {
            None => {
                proof {
                    if has_model {
                        assert(bytes@.subrange(pos as int, pos + 9) == enc_ts(mn.due));
                        assert(false);
                    }
                }
                return Err(Error::Malformed);
            },
            Some(t) => t,
        };
        proof {
            if has_model {
                assert(bytes@.subrange(pos as int, pos + 9) == enc_ts(mn.due));
                assert(due == mn.due && p5 == pos + 9);
            }
        }
        pos = p5;
        let ghost nodes_pre = nodes@;
        nodes.push(Node { id, title, description, scheduled, due });
        proof {
            if has_model {
                assert(pos == 8 + enc_nodes(mnodes.take(i + 1)).len());
                assert(nodes_alike(nodes@, mnodes.take(i + 1))) by {
                    assert forall|k: int|
                        0 <= k < nodes@.len() implies (#[trigger] nodes@[k]).id == (
                        #[trigger] mnodes.take(i + 1)[k]).id && nodes@[k].title@ == mnodes.take(
                        i + 1,
                    )[k].title@ && nodes@[k].description@ == mnodes.take(i + 1)[k].description@
                        && nodes@[k].scheduled == mnodes.take(i + 1)[k].scheduled && nodes@[k].due
                        == mnodes.take(i + 1)[k].due by {
                        if k < i {
                            assert(nodes@[k] == nodes_pre[k]);
                            assert(mnodes.take(i + 1)[k] == mnodes.take(i as int)[k]);
                        } else {
                            assert(mnodes.take(i + 1)[k] == mn);
                        }
                    }
                }
            }
        }
        i = i + 1;
    }
    proof {
        if has_model {
            assert(mnodes.take(node_count as int) =~= mnodes);
            lemma_model_layout(bytes@, model);
            lemma_auto_spec_u64_to_from_le_bytes();
            assert(pos == pn);
        }
    }
    if total - pos < 8 {
        proof {
            if has_model {
                assert(false);
            }
        }
        return Err(Error::Malformed);
    }
    let edge_count = read_u64_at(bytes, pos);
    proof {
        if has_model {
            lemma_u64_roundtrip(medges.len() as u64);
            assert(bytes@.subrange(pn, pe) == enc_u64(medges.len() as u64));
            assert(edge_count == medges.len());
        }
    }
    pos = pos + 8;
    if edge_count > (total as u64) {
        proof {
            if has_model {
                assert(false);
            }
        }
        return Err(Error::Malformed);
    }
    let edge_count = edge_count as usize;
    let mut edges: Vec<(NodeID, NodeID)> = Vec::new();
    let mut i: usize = 0;
    while i < edge_count
        invariant
            total == bytes@.len(),
            i <= edge_count,
            pos <= total,
            has_model == exists|g0: Database| encodes(bytes@, g0),
            has_model ==> encodes(bytes@, model) && mnodes == model.nodes_seq() && medges
                == model.edges_seq() && mroots == model.roots_seq() && edge_count == medges.len()
                && pos == pe + 32 * i && pe == 16 + enc_nodes(mnodes).len() && edges@
                == medges.take(i as int),
        decreases edge_count - i,
    {
        proof {
            if has_model {
                lemma_model_layout(bytes@, model);
                lemma_auto_spec_u128_to_from_le_bytes();
            }
        }
        if total - pos < 32 {
            proof {
                if has_model {
                    assert(false);
                }
            }
            return Err(Error::Malformed);
        }
        let from = read_id_at(bytes, pos);
        let to = read_id_at(bytes, pos + 16);
        proof {
            if has_model {
                lemma_id_roundtrip(medges[i as int].0);
                lemma_id_roundtrip(medges[i as int].1);
                assert(bytes@.subrange(pos as int, pos + 16) == enc_id(medges[i as int].0));
                assert(bytes@.subrange(pos + 16, pos + 32) == enc_id(medges[i as int].1));
                assert(from == medges[i as int].0 && to == medges[i as int].1);
                assert(medges.take(i + 1) =~= medges.take(i as int).push(medges[i as int]));
            }
        }
        pos = pos + 32;
        edges.push((from, to));
        i = i + 1;
    }
    proof {
        if has_model {
            assert(medges.take(edge_count as int) =~= medges);
            lemma_model_layout(bytes@, model);
            lemma_auto_spec_u64_to_from_le_bytes();
            assert(pos == pr);
        }
    }
    if total - pos < 8 {
        proof {
            if has_model {
                assert(false);
            }
        }
        return Err(Error::Malformed);
    }
    let root_count = read_u64_at(bytes, pos);
    proof {
        if has_model {
            lemma_u64_roundtrip(mroots.len() as u64);
            assert(bytes@.subrange(pr, prr) == enc_u64(mroots.len() as u64));
            assert(root_count == mroots.len());
        }
    }
    pos = pos + 8;
    if root_count > (total as u64) {
        proof {
            if has_model {
                assert(false);
            }
        }
        return Err(Error::Malformed);
    }
    let root_count = root_count as usize;
    let mut roots: Vec<NodeID> = Vec::new();
    let mut i: usize = 0;
    while i < root_count
        invariant
            total == bytes@.len(),
            i <= root_count,
            pos <= total,
            has_model == exists|g0: Database| encodes(bytes@, g0),
            has_model ==> encodes(bytes@, model) && mnodes == model.nodes_seq() && medges
                == model.edges_seq() && mroots == model.roots_seq() && root_count == mroots.len()
                && pos == prr + 16 * i && prr == 24 + enc_nodes(mnodes).len() + 32 * medges.len()
                && roots@ == mroots.take(i as int),
        decreases root_count - i,
    {
        proof {
            if has_model {
                lemma_model_layout(bytes@, model);
                lemma_auto_spec_u128_to_from_le_bytes();
            }
        }
        if total - pos < 16 {
            proof {
                if has_model {
                    assert(false);
                }
            }
            return Err(Error::Malformed);
        }
        let rid = read_id_at(bytes, pos);
        proof {
            if has_model {
                lemma_id_roundtrip(mroots[i as int]);
                assert(bytes@.subrange(pos as int, pos + 16) == enc_id(mroots[i as int]));
                assert(rid == mroots[i as int]);
                assert(mroots.take(i + 1) =~= mroots.take(i as int).push(mroots[i as int]));
            }
        }
        roots.push(rid);
        pos = pos + 16;
        i = i + 1;
    }
    proof {
        if has_model {
            assert(mroots.take(root_count as int) =~= mroots);
            lemma_model_layout(bytes@, model);
        }
    }
    if pos != total {
        proof {
            if has_model {
                assert(false);
            }
        }
        return Err(Error::Malformed);
    }
    // The parts must form a well-formed store.
    proof {
        if has_model {
            lemma_alike_dom(nodes@, mnodes);
        }
    }
    if !check_ids_distinct(&nodes) {
        proof {
            if has_model {
                assert(false);
            }
        }
        return Err(Error::Malformed);
    }
    if !check_edges(&nodes, &edges) {
        proof {
            if has_model {
                assert forall|k: int| 0 <= k < edges@.len() implies map_of(nodes@).dom().contains(
                    (#[trigger] edges@[k]).0,
                ) && map_of(nodes@).dom().contains(edges@[k].1) by {
                    assert(model.has_node(model.edges_seq()[k].0));
                    assert(model.has_node(model.edges_seq()[k].1));
                }
                assert(false);
            }
        }
        return Err(Error::Malformed);
    }
    if !check_sorted(&roots) {
        proof {
            if has_model {
                assert(false);
            }
        }
        return Err(Error::Malformed);
    }
    if !check_roots(&nodes, &edges, &roots) {
        proof {
            if has_model {
                assert forall|id: NodeID| #[trigger]
                    roots@.to_set().contains(id) <==> (map_of(nodes@).dom().contains(id) && !(
                    exists|e: (NodeID, NodeID)| #[trigger] edges@.to_set().contains(e) && e.1
                        == id)) by {
                    assert(model.root_set().contains(id) <==> (model.has_node(id)
                        && !model.targeted(id)));
                    assert(model.root_set() == roots@.to_set());
                    assert(model.edge_set() == edges@.to_set());
                    assert(model.targeted(id) == (exists|e: (NodeID, NodeID)| #[trigger]
                        edges@.to_set().contains(e) && e.1 == id));
                }
                assert(false);
            }
        }
        return Err(Error::Malformed);
    }
    let g = Database::from_parts(nodes, edges, roots);
    // The store must write back exactly the bytes it was read from.
    let written = encode_snapshot(&g);
    proof {
        if has_model {
            lemma_enc_nodes_alike(g.nodes_seq(), mnodes);
            assert(spec_encode(g) =~= spec_encode(model));
            assert(written@ == bytes@);
        }
    }
    if !bytes_eq(bytes, &written) {
        proof {
            if has_model {
                assert(false);
            }
        }
        return Err(Error::Malformed);
    }
    Ok(g)
}

/// Reads one length-prefixed text.
fn read_str(bytes: &[u8], pos: usize) -> (r: Option<(String, usize)>)
    requires
        pos <= bytes@.len(),
        bytes@.len() <= usize::MAX,
    ensures
        r matches Some(p) ==> pos <= p.1 <= bytes@.len(),
        forall|t: Seq<char>| #[trigger]
            str_fits(bytes@, pos as int, t) ==> (r matches Some(p) && p.0@ == t && p.1 == pos
                + enc_str(t).len()),
{
    proof {
        lemma_auto_spec_u64_to_from_le_bytes();
    }
    let total = bytes.len();
    if total - pos < 8 {
        proof {
            assert forall|t: Seq<char>| #[trigger] str_fits(bytes@, pos as int, t) implies false by {
                lemma_enc_str_fields(t);
            }
        }
        return None;
    }
    let len = read_u64_at(bytes, pos);
    proof {
        assert forall|t: Seq<char>| #[trigger] str_fits(bytes@, pos as int, t) implies len == encode_utf8(t).len() by {
            lemma_enc_str_fields(t);
            lemma_subrange_within(bytes@, pos as int, enc_str(t), 0, 8);
            assert(bytes@.subrange(pos as int, pos + 8) == enc_u64(encode_utf8(t).len() as u64));
        }
    }
    let start = pos + 8;
    if len > ((total - start) as u64) {
        proof {
            assert forall|t: Seq<char>| #[trigger] str_fits(bytes@, pos as int, t) implies false by {
                lemma_enc_str_fields(t);
            }
        }
        return None;
    }
    let len = len as usize;
    let sub = slice_subrange(bytes, start, start + len);
    let v = slice_to_vec(sub);
    proof {
        assert forall|t: Seq<char>| #[trigger] str_fits(bytes@, pos as int, t) implies v@ == encode_utf8(t) by {
            lemma_enc_str_fields(t);
            lemma_subrange_within(
                bytes@,
                pos as int,
                enc_str(t),
                8,
                enc_str(t).len() as int,
            );
            assert(bytes@.subrange(start as int, start + len) == encode_utf8(t));
        }
    }
    match string_from_utf8(v) {
        None => {
            proof {
                assert forall|t: Seq<char>| #[trigger] str_fits(bytes@, pos as int, t) implies false by {
                    vstd::utf8::encode_utf8_valid_utf8(t);
                }
            }
            None
        },
        Some(s) => {
            proof {
                assert forall|t: Seq<char>| #[trigger]
                    str_fits(bytes@, pos as int, t) implies s@ == t && start + len == pos
                    + enc_str(t).len() by {
                    lemma_enc_str_fields(t);
                    vstd::utf8::encode_utf8_decode_utf8(s@);
                    vstd::utf8::encode_utf8_decode_utf8(t);
                }
            }
            Some((s, start + len))
        },
    }
}


/// Equal-length prefixes of equal concatenations agree, and so do the
/// remainders.
proof fn lemma_concat_prefix(a1: Seq<u8>, r1: Seq<u8>, a2: Seq<u8>, r2: Seq<u8>)
    requires
        a1 + r1 == a2 + r2,
        a1.len() == a2.len(),
    ensures
        a1 == a2,
        r1 == r2,
{
    assert forall|i: int| 0 <= i < a1.len() implies a1[i] == a2[i] by {
        assert((a1 + r1)[i] == a1[i]);
        assert((a2 + r2)[i] == a2[i]);
    }
    assert(a1 =~= a2);
    assert((a1 + r1).len() == (a2 + r2).len());
    assert((a1 + r1).len() == a1.len() + r1.len());
    assert((a2 + r2).len() == a2.len() + r2.len());
    assert(r1.len() == r2.len());
    assert forall|i: int| 0 <= i < r1.len() implies r1[i] == r2[i] by {
        assert((a1 + r1)[a1.len() + i] == r1[i]);
        assert((a2 + r2)[a2.len() + i] == r2[i]);
    }
    assert(r1 =~= r2);
}

/// A count or value is read back unambiguously from the front.
proof fn lemma_enc_u64_inj(x1: u64, r1: Seq<u8>, x2: u64, r2: Seq<u8>)
    requires
        enc_u64(x1) + r1 == enc_u64(x2) + r2,
    ensures
        x1 == x2,
        r1 == r2,
{
    lemma_auto_spec_u64_to_from_le_bytes();
    lemma_concat_prefix(enc_u64(x1), r1, enc_u64(x2), r2);
}

/// An identifier is read back unambiguously from the front.
proof fn lemma_enc_id_inj(x1: NodeID, r1: Seq<u8>, x2: NodeID, r2: Seq<u8>)
    requires
        enc_id(x1) + r1 == enc_id(x2) + r2,
    ensures
        x1 == x2,
        r1 == r2,
{
    lemma_auto_spec_u128_to_from_le_bytes();
    assert(spec_u128_to_le_bytes(x1).len() == 16 && spec_u128_to_le_bytes(x2).len() == 16);
    lemma_concat_prefix(enc_id(x1), r1, enc_id(x2), r2);
    assert(spec_u128_from_le_bytes(spec_u128_to_le_bytes(x1)) == x1);
    assert(spec_u128_from_le_bytes(spec_u128_to_le_bytes(x2)) == x2);
}

/// A timestamp is read back unambiguously from the front.
proof fn lemma_enc_ts_inj(t1: Option<i64>, r1: Seq<u8>, t2: Option<i64>, r2: Seq<u8>)
    requires
        enc_ts(t1) + r1 == enc_ts(t2) + r2,
    ensures
        t1 == t2,
        r1 == r2,
{
    lemma_auto_spec_u64_to_from_le_bytes();
    assert(enc_ts(t1).len() == 9 && enc_ts(t2).len() == 9);
    lemma_concat_prefix(enc_ts(t1), r1, enc_ts(t2), r2);
    assert(enc_ts(t1)[0] == enc_ts(t2)[0]);
    match (t1, t2) {
        (None, None) => {},
        (Some(v1), Some(v2)) => {
            assert(enc_ts(t1)[0] == 1u8 && enc_ts(t2)[0] == 1u8);
            assert forall|i: int| 0 <= i < 8 implies enc_u64(ts_biased(v1))[i] == enc_u64(
                ts_biased(v2),
            )[i] by {
                assert(enc_ts(t1)[1 + i] == enc_u64(ts_biased(v1))[i]);
                assert(enc_ts(t2)[1 + i] == enc_u64(ts_biased(v2))[i]);
            }
            assert(enc_u64(ts_biased(v1)) =~= enc_u64(ts_biased(v2)));
            assert(spec_u64_from_le_bytes(enc_u64(ts_biased(v1))) == ts_biased(v1));
            assert(ts_biased(v1) == ts_biased(v2));
        },
        (None, Some(v2)) => {
            assert(enc_ts(t1)[0] == 0u8 && enc_ts(t2)[0] == 1u8);
        },
        (Some(v1), None) => {
            assert(enc_ts(t1)[0] == 1u8 && enc_ts(t2)[0] == 0u8);
        },
    }
}

/// How large a text may be for its byte count to fit the length field.
pub open spec fn str_size_ok(s: Seq<char>) -> bool {
    encode_utf8(s).len() < 0x1_0000_0000_0000_0000
}

/// A text is read back unambiguously from the front.
proof fn lemma_enc_str_inj(s1: Seq<char>, r1: Seq<u8>, s2: Seq<char>, r2: Seq<u8>)
    requires
        enc_str(s1) + r1 == enc_str(s2) + r2,
        str_size_ok(s1),
        str_size_ok(s2),
    ensures
        s1 == s2,
        r1 == r2,
{
    let b1 = encode_utf8(s1);
    let b2 = encode_utf8(s2);
    assert(enc_u64(b1.len() as u64) + (b1 + r1) =~= enc_str(s1) + r1);
    assert(enc_u64(b2.len() as u64) + (b2 + r2) =~= enc_str(s2) + r2);
    lemma_enc_u64_inj(b1.len() as u64, b1 + r1, b2.len() as u64, b2 + r2);
    assert(b1.len() == b2.len());
    lemma_concat_prefix(b1, r1, b2, r2);
    vstd::utf8::encode_utf8_decode_utf8(s1);
    vstd::utf8::encode_utf8_decode_utf8(s2);
}

/// One record is read back unambiguously from the front.
#[verifier::rlimit(100)]
#[verifier::spinoff_prover]
proof fn lemma_enc_node_inj(n1: Node, r1: Seq<u8>, n2: Node, r2: Seq<u8>)
    requires
        enc_node(n1) + r1 == enc_node(n2) + r2,
        str_size_ok(n1.title@),
        str_size_ok(n1.description@),
        str_size_ok(n2.title@),
        str_size_ok(n2.description@),
    ensures
        n1.id == n2.id,
        n1.title@ == n2.title@,
        n1.description@ == n2.description@,
        n1.scheduled == n2.scheduled,
        n1.due == n2.due,
        r1 == r2,
{
    let q1 = enc_str(n1.title@) + enc_str(n1.description@) + enc_ts(n1.scheduled) + enc_ts(n1.due)
        + r1;
    let q2 = enc_str(n2.title@) + enc_str(n2.description@) + enc_ts(n2.scheduled) + enc_ts(n2.due)
        + r2;
    assert(enc_id(n1.id) + q1 =~= enc_node(n1) + r1);
    assert(enc_id(n2.id) + q2 =~= enc_node(n2) + r2);
    lemma_enc_id_inj(n1.id, q1, n2.id, q2);
    let w1 = enc_str(n1.description@) + enc_ts(n1.scheduled) + enc_ts(n1.due) + r1;
    let w2 = enc_str(n2.description@) + enc_ts(n2.scheduled) + enc_ts(n2.due) + r2;
    assert(enc_str(n1.title@) + w1 =~= q1);
    assert(enc_str(n2.title@) + w2 =~= q2);
    lemma_enc_str_inj(n1.title@, w1, n2.title@, w2);
    let v1 = enc_ts(n1.scheduled) + enc_ts(n1.due) + r1;
    let v2 = enc_ts(n2.scheduled) + enc_ts(n2.due) + r2;
    assert(enc_str(n1.description@) + v1 =~= w1);
    assert(enc_str(n2.description@) + v2 =~= w2);
    lemma_enc_str_inj(n1.description@, v1, n2.description@, v2);
    let u1 = enc_ts(n1.due) + r1;
    let u2 = enc_ts(n2.due) + r2;
    assert(enc_ts(n1.scheduled) + u1 =~= v1);
    assert(enc_ts(n2.scheduled) + u2 =~= v2);
    lemma_enc_ts_inj(n1.scheduled, u1, n2.scheduled, u2);
    lemma_enc_ts_inj(n1.due, r1, n2.due, r2);
}

/// The records match pairwise in everything their views show.
pub open spec fn nodes_alike(a: Seq<Node>, b: Seq<Node>) -> bool {
    &&& a.len() == b.len()
    &&& forall|i: int|
        0 <= i < a.len() ==> (#[trigger] a[i]).id == (#[trigger] b[i]).id && a[i].title@
            == b[i].title@ && a[i].description@ == b[i].description@ && a[i].scheduled
            == b[i].scheduled && a[i].due == b[i].due
}

/// Every text in the list fits its length field.
pub open spec fn nodes_sizes_ok(s: Seq<Node>) -> bool {
    forall|i: int|
        0 <= i < s.len() ==> str_size_ok((#[trigger] s[i]).title@) && str_size_ok(
            s[i].description@,
        )
}

/// A record list of known length is read back unambiguously.
proof fn lemma_enc_nodes_inj(s1: Seq<Node>, r1: Seq<u8>, s2: Seq<Node>, r2: Seq<u8>)
    requires
        enc_nodes(s1) + r1 == enc_nodes(s2) + r2,
        s1.len() == s2.len(),
        nodes_sizes_ok(s1),
        nodes_sizes_ok(s2),
    ensures
        nodes_alike(s1, s2),
        r1 == r2,
    decreases s1.len(),
{
    if s1.len() == 0 {
        assert(enc_nodes(s1) =~= Seq::<u8>::empty());
        assert(enc_nodes(s2) =~= Seq::<u8>::empty());
        assert(r1 =~= enc_nodes(s1) + r1);
        assert(r2 =~= enc_nodes(s2) + r2);
    } else {
        let q1 = enc_nodes(s1.drop_first()) + r1;
        let q2 = enc_nodes(s2.drop_first()) + r2;
        assert(enc_node(s1.first()) + q1 =~= enc_nodes(s1) + r1);
        assert(enc_node(s2.first()) + q2 =~= enc_nodes(s2) + r2);
        assert(str_size_ok(s1[0].title@) && str_size_ok(s1[0].description@));
        assert(str_size_ok(s2[0].title@) && str_size_ok(s2[0].description@));
        lemma_enc_node_inj(s1.first(), q1, s2.first(), q2);
        assert forall|i: int| 0 <= i < s1.drop_first().len() implies str_size_ok(
            (#[trigger] s1.drop_first()[i]).title@,
        ) && str_size_ok(s1.drop_first()[i].description@) by {
            assert(s1.drop_first()[i] == s1[i + 1]);
        }
        assert forall|i: int| 0 <= i < s2.drop_first().len() implies str_size_ok(
            (#[trigger] s2.drop_first()[i]).title@,
        ) && str_size_ok(s2.drop_first()[i].description@) by {
            assert(s2.drop_first()[i] == s2[i + 1]);
        }
        lemma_enc_nodes_inj(s1.drop_first(), r1, s2.drop_first(), r2);
        assert forall|i: int|
            0 <= i < s1.len() implies (#[trigger] s1[i]).id == (#[trigger] s2[i]).id && s1[i].title@
            == s2[i].title@ && s1[i].description@ == s2[i].description@ && s1[i].scheduled
            == s2[i].scheduled && s1[i].due == s2[i].due by {
            if i > 0 {
                assert(s1.drop_first()[i - 1] == s1[i]);
                assert(s2.drop_first()[i - 1] == s2[i]);
            } else {
                assert(s1[0] == s1.first() && s2[0] == s2.first());
            }
        }
    }
}

/// An edge list of known length is read back unambiguously.
proof fn lemma_enc_edges_inj(s1: Seq<(NodeID, NodeID)>, r1: Seq<u8>, s2: Seq<(NodeID, NodeID)>, r2: Seq<u8>)
    requires
        enc_edges(s1) + r1 == enc_edges(s2) + r2,
        s1.len() == s2.len(),
    ensures
        s1 == s2,
        r1 == r2,
    decreases s1.len(),
{
    if s1.len() == 0 {
        assert(enc_edges(s1) =~= Seq::<u8>::empty());
        assert(enc_edges(s2) =~= Seq::<u8>::empty());
        assert(r1 =~= enc_edges(s1) + r1);
        assert(r2 =~= enc_edges(s2) + r2);
        assert(s1 =~= s2);
    } else {
        let q1 = enc_id(s1.first().1) + enc_edges(s1.drop_first()) + r1;
        let q2 = enc_id(s2.first().1) + enc_edges(s2.drop_first()) + r2;
        assert(enc_id(s1.first().0) + q1 =~= enc_edges(s1) + r1);
        assert(enc_id(s2.first().0) + q2 =~= enc_edges(s2) + r2);
        lemma_enc_id_inj(s1.first().0, q1, s2.first().0, q2);
        assert(enc_id(s1.first().1) + (enc_edges(s1.drop_first()) + r1) =~= q1);
        assert(enc_id(s2.first().1) + (enc_edges(s2.drop_first()) + r2) =~= q2);
        lemma_enc_id_inj(
            s1.first().1,
            enc_edges(s1.drop_first()) + r1,
            s2.first().1,
            enc_edges(s2.drop_first()) + r2,
        );
        lemma_enc_edges_inj(s1.drop_first(), r1, s2.drop_first(), r2);
        assert(s1 =~= s2) by {
            assert(s1.first() == s2.first());
            assert forall|i: int| 0 <= i < s1.len() implies s1[i] == s2[i] by {
                if i > 0 {
                    assert(s1.drop_first()[i - 1] == s2.drop_first()[i - 1]);
                    assert(s1.drop_first()[i - 1] == s1[i]);
                    assert(s2.drop_first()[i - 1] == s2[i]);
                }
            }
        }
    }
}

/// An identifier list of known length is read back unambiguously.
proof fn lemma_enc_ids_inj(s1: Seq<NodeID>, r1: Seq<u8>, s2: Seq<NodeID>, r2: Seq<u8>)
    requires
        enc_ids(s1) + r1 == enc_ids(s2) + r2,
        s1.len() == s2.len(),
    ensures
        s1 == s2,
        r1 == r2,
    decreases s1.len(),
{
    if s1.len() == 0 {
        assert(enc_ids(s1) =~= Seq::<u8>::empty());
        assert(enc_ids(s2) =~= Seq::<u8>::empty());
        assert(r1 =~= enc_ids(s1) + r1);
        assert(r2 =~= enc_ids(s2) + r2);
        assert(s1 =~= s2);
    } else {
        let q1 = enc_ids(s1.drop_first()) + r1;
        let q2 = enc_ids(s2.drop_first()) + r2;
        assert(enc_id(s1.first()) + q1 =~= enc_ids(s1) + r1);
        assert(enc_id(s2.first()) + q2 =~= enc_ids(s2) + r2);
        lemma_enc_id_inj(s1.first(), q1, s2.first(), q2);
        lemma_enc_ids_inj(s1.drop_first(), r1, s2.drop_first(), r2);
        assert(s1 =~= s2) by {
            assert forall|i: int| 0 <= i < s1.len() implies s1[i] == s2[i] by {
                if i > 0 {
                    assert(s1.drop_first()[i - 1] == s2.drop_first()[i - 1]);
                    assert(s1.drop_first()[i - 1] == s1[i]);
                    assert(s2.drop_first()[i - 1] == s2[i]);
                }
            }
        }
    }
}

/// Every count and text in the store fits its field in the layout. Real
/// stores always do: a list's length and a text's byte count fit the
/// machine word.
pub open spec fn snapshot_sizes_ok(g: Database) -> bool {
    &&& g.nodes_seq().len() < 0x1_0000_0000_0000_0000
    &&& g.edges_seq().len() < 0x1_0000_0000_0000_0000
    &&& g.roots_seq().len() < 0x1_0000_0000_0000_0000
    &&& nodes_sizes_ok(g.nodes_seq())
}

/// Reading back one encoded value.
proof fn lemma_u64_roundtrip(x: u64)
    ensures
        enc_u64(x).len() == 8,
        spec_u64_from_le_bytes(enc_u64(x)) == x,
{
    lemma_auto_spec_u64_to_from_le_bytes();
    assert(spec_u64_to_le_bytes(x).len() == 8);
}

proof fn lemma_id_roundtrip(x: NodeID)
    ensures
        enc_id(x).len() == 16,
        spec_u128_from_le_bytes(enc_id(x)) == x,
{
    lemma_auto_spec_u128_to_from_le_bytes();
    assert(spec_u128_to_le_bytes(x).len() == 16);
}

/// The byte string is the snapshot of this well-formed store.
pub open spec fn encodes(bytes: Seq<u8>, g0: Database) -> bool {
    &&& g0.wf()
    &&& snapshot_sizes_ok(g0)
    &&& spec_encode(g0) == bytes
}

/// The round trip: two stores that write the same snapshot hold the same
/// records, the same edges and the same roots, so reloading a saved
/// snapshot reproduces the graph. Together with the reader's contract
/// (what it returns is well-formed and writes back the given bytes), a
/// saved store is recovered whole.
#[verifier::rlimit(100)]
#[verifier::spinoff_prover]
pub proof fn lemma_snapshot_round_trip(g1: Database, g2: Database)
    requires
        spec_encode(g1) == spec_encode(g2),
        snapshot_sizes_ok(g1),
        snapshot_sizes_ok(g2),
    ensures
        nodes_alike(g1.nodes_seq(), g2.nodes_seq()),
        g1.edges_seq() == g2.edges_seq(),
        g1.roots_seq() == g2.roots_seq(),
{
    let n1 = g1.nodes_seq();
    let n2 = g2.nodes_seq();
    let e1 = g1.edges_seq();
    let e2 = g2.edges_seq();
    let t1 = g1.roots_seq();
    let t2 = g2.roots_seq();
    let q1 = enc_nodes(n1) + enc_u64(e1.len() as u64) + enc_edges(e1) + enc_u64(t1.len() as u64)
        + enc_ids(t1);
    let q2 = enc_nodes(n2) + enc_u64(e2.len() as u64) + enc_edges(e2) + enc_u64(t2.len() as u64)
        + enc_ids(t2);
    assert(enc_u64(n1.len() as u64) + q1 =~= spec_encode(g1));
    assert(enc_u64(n2.len() as u64) + q2 =~= spec_encode(g2));
    lemma_enc_u64_inj(n1.len() as u64, q1, n2.len() as u64, q2);
    assert(n1.len() == n2.len());
    let w1 = enc_u64(e1.len() as u64) + enc_edges(e1) + enc_u64(t1.len() as u64) + enc_ids(t1);
    let w2 = enc_u64(e2.len() as u64) + enc_edges(e2) + enc_u64(t2.len() as u64) + enc_ids(t2);
    assert(enc_nodes(n1) + w1 =~= q1);
    assert(enc_nodes(n2) + w2 =~= q2);
    lemma_enc_nodes_inj(n1, w1, n2, w2);
    let v1 = enc_edges(e1) + enc_u64(t1.len() as u64) + enc_ids(t1);
    let v2 = enc_edges(e2) + enc_u64(t2.len() as u64) + enc_ids(t2);
    assert(enc_u64(e1.len() as u64) + v1 =~= w1);
    assert(enc_u64(e2.len() as u64) + v2 =~= w2);
    lemma_enc_u64_inj(e1.len() as u64, v1, e2.len() as u64, v2);
    assert(e1.len() == e2.len());
    let u1 = enc_u64(t1.len() as u64) + enc_ids(t1);
    let u2 = enc_u64(t2.len() as u64) + enc_ids(t2);
    assert(enc_edges(e1) + u1 =~= v1);
    assert(enc_edges(e2) + u2 =~= v2);
    lemma_enc_edges_inj(e1, u1, e2, u2);
    assert(enc_u64(t1.len() as u64) + enc_ids(t1) =~= u1);
    assert(enc_u64(t2.len() as u64) + enc_ids(t2) =~= u2);
    lemma_enc_u64_inj(t1.len() as u64, enc_ids(t1), t2.len() as u64, enc_ids(t2));
    assert(t1.len() == t2.len());
    lemma_enc_ids_inj(t1, Seq::empty(), t2, Seq::empty());
}


/// List encodings concatenate.
proof fn lemma_enc_nodes_concat(a: Seq<Node>, b: Seq<Node>)
    ensures
        enc_nodes(a + b) == enc_nodes(a) + enc_nodes(b),
    decreases b.len(),
{
    if b.len() == 0 {
        assert(a + b =~= a);
        assert(enc_nodes(a) + enc_nodes(b) =~= enc_nodes(a));
    } else {
        lemma_enc_nodes_concat(a, b.drop_last());
        assert(a + b =~= (a + b.drop_last()).push(b.last()));
        lemma_enc_nodes_push(a + b.drop_last(), b.last());
        lemma_enc_nodes_push(b.drop_last(), b.last());
        assert(b.drop_last().push(b.last()) =~= b);
        assert(enc_nodes(a + b) =~= enc_nodes(a) + enc_nodes(b));
    }
}

proof fn lemma_enc_edges_concat(a: Seq<(NodeID, NodeID)>, b: Seq<(NodeID, NodeID)>)
    ensures
        enc_edges(a + b) == enc_edges(a) + enc_edges(b),
    decreases b.len(),
{
    if b.len() == 0 {
        assert(a + b =~= a);
        assert(enc_edges(a) + enc_edges(b) =~= enc_edges(a));
    } else {
        lemma_enc_edges_concat(a, b.drop_last());
        assert(a + b =~= (a + b.drop_last()).push(b.last()));
        lemma_enc_edges_push(a + b.drop_last(), b.last());
        lemma_enc_edges_push(b.drop_last(), b.last());
        assert(b.drop_last().push(b.last()) =~= b);
        assert(enc_edges(a + b) =~= enc_edges(a) + enc_edges(b));
    }
}

proof fn lemma_enc_ids_concat(a: Seq<NodeID>, b: Seq<NodeID>)
    ensures
        enc_ids(a + b) == enc_ids(a) + enc_ids(b),
    decreases b.len(),
{
    if b.len() == 0 {
        assert(a + b =~= a);
        assert(enc_ids(a) + enc_ids(b) =~= enc_ids(a));
    } else {
        lemma_enc_ids_concat(a, b.drop_last());
        assert(a + b =~= (a + b.drop_last()).push(b.last()));
        lemma_enc_ids_push(a + b.drop_last(), b.last());
        lemma_enc_ids_push(b.drop_last(), b.last());
        assert(b.drop_last().push(b.last()) =~= b);
        assert(enc_ids(a + b) =~= enc_ids(a) + enc_ids(b));
    }
}

/// A text encoding sits at `pos` in the byte string.
pub open spec fn str_fits(bytes: Seq<u8>, pos: int, t: Seq<char>) -> bool {
    &&& str_size_ok(t)
    &&& pos + enc_str(t).len() <= bytes.len()
    &&& bytes.subrange(pos, pos + enc_str(t).len()) == enc_str(t)
}

/// Where the pieces of one text encoding sit.
proof fn lemma_enc_str_fields(s: Seq<char>)
    ensures
        enc_str(s).len() == 8 + encode_utf8(s).len(),
        enc_str(s).subrange(0, 8) == enc_u64(encode_utf8(s).len() as u64),
        enc_str(s).subrange(8, enc_str(s).len() as int) == encode_utf8(s),
{
    lemma_auto_spec_u64_to_from_le_bytes();
    assert(enc_str(s).subrange(0, 8) =~= enc_u64(encode_utf8(s).len() as u64));
    assert(enc_str(s).subrange(8, enc_str(s).len() as int) =~= encode_utf8(s));
}

/// Where the pieces of one timestamp encoding sit.
proof fn lemma_enc_ts_fields(t: Option<i64>)
    ensures
        enc_ts(t).len() == 9,
        enc_ts(t)[0] == (if t is Some {
            1u8
        } else {
            0u8
        }),
        t matches Some(v) ==> enc_ts(t).subrange(1, 9) == enc_u64(ts_biased(v)),
{
    lemma_auto_spec_u64_to_from_le_bytes();
    match t {
        None => {
            assert(enc_ts(t)[0] == seq![0u8][0]);
        },
        Some(v) => {
            assert(enc_ts(t)[0] == seq![1u8][0]);
            assert(enc_ts(t).subrange(1, 9) =~= enc_u64(ts_biased(v)));
        },
    }
}

/// Where the five fields of one record encoding sit.
proof fn lemma_enc_node_fields(n: Node)
    ensures
        ({
            let t = enc_str(n.title@).len() as int;
            let dd = enc_str(n.description@).len() as int;
            &&& enc_node(n).len() == 16 + t + dd + 18
            &&& enc_node(n).subrange(0, 16) == enc_id(n.id)
            &&& enc_node(n).subrange(16, 16 + t) == enc_str(n.title@)
            &&& enc_node(n).subrange(16 + t, 16 + t + dd) == enc_str(n.description@)
            &&& enc_node(n).subrange(16 + t + dd, 16 + t + dd + 9) == enc_ts(n.scheduled)
            &&& enc_node(n).subrange(16 + t + dd + 9, 16 + t + dd + 18) == enc_ts(n.due)
        }),
{
    lemma_auto_spec_u128_to_from_le_bytes();
    lemma_enc_str_fields(n.title@);
    lemma_enc_str_fields(n.description@);
    lemma_enc_ts_fields(n.scheduled);
    lemma_enc_ts_fields(n.due);
    let t = enc_str(n.title@).len() as int;
    let dd = enc_str(n.description@).len() as int;
    assert(enc_node(n).subrange(0, 16) =~= enc_id(n.id));
    assert(enc_node(n).subrange(16, 16 + t) =~= enc_str(n.title@));
    assert(enc_node(n).subrange(16 + t, 16 + t + dd) =~= enc_str(n.description@));
    assert(enc_node(n).subrange(16 + t + dd, 16 + t + dd + 9) =~= enc_ts(n.scheduled));
    assert(enc_node(n).subrange(16 + t + dd + 9, 16 + t + dd + 18) =~= enc_ts(n.due));
}

/// A record encoding takes at least one byte per record.
proof fn lemma_enc_nodes_min_len(s: Seq<Node>)
    ensures
        enc_nodes(s).len() >= s.len(),
    decreases s.len(),
{
    if s.len() > 0 {
        lemma_enc_nodes_min_len(s.drop_first());
        lemma_enc_node_fields(s.first());
    }
}

/// Edge and root encodings have fixed-size blocks.
proof fn lemma_enc_edges_len(s: Seq<(NodeID, NodeID)>)
    ensures
        enc_edges(s).len() == 32 * s.len(),
    decreases s.len(),
{
    lemma_auto_spec_u128_to_from_le_bytes();
    if s.len() > 0 {
        lemma_enc_edges_len(s.drop_first());
    }
}

proof fn lemma_enc_ids_len(s: Seq<NodeID>)
    ensures
        enc_ids(s).len() == 16 * s.len(),
    decreases s.len(),
{
    lemma_auto_spec_u128_to_from_le_bytes();
    if s.len() > 0 {
        lemma_enc_ids_len(s.drop_first());
    }
}

/// A block laid down after a known prefix is read back by subrange.
proof fn lemma_prefix_block(all: Seq<u8>, head: Seq<u8>, blk: Seq<u8>, rest: Seq<u8>)
    requires
        all == head + blk + rest,
    ensures
        all.len() == head.len() + blk.len() + rest.len(),
        all.subrange(head.len() as int, head.len() + blk.len() as int) == blk,
{
    assert forall|i: int|
        0 <= i < blk.len() implies all.subrange(
        head.len() as int,
        head.len() + blk.len() as int,
    )[i] == blk[i] by {
        assert(all[head.len() + i] == (head + blk + rest)[head.len() + i]);
        assert((head + blk)[head.len() + i] == blk[i]);
    }
    assert(all.subrange(head.len() as int, head.len() + blk.len() as int) =~= blk);
}

/// A piece of a block is a piece of the whole.
proof fn lemma_subrange_within(all: Seq<u8>, p: int, blk: Seq<u8>, a: int, b: int)
    requires
        0 <= p,
        p + blk.len() <= all.len(),
        all.subrange(p, p + blk.len()) == blk,
        0 <= a <= b <= blk.len(),
    ensures
        all.subrange(p + a, p + b) == blk.subrange(a, b),
{
    assert forall|i: int| 0 <= i < b - a implies all.subrange(p + a, p + b)[i] == blk.subrange(
        a,
        b,
    )[i] by {
        assert(all.subrange(p, p + blk.len())[a + i] == blk[a + i]);
    }
    assert(all.subrange(p + a, p + b) =~= blk.subrange(a, b));
}

/// View-alike record lists write the same bytes.
proof fn lemma_enc_nodes_alike(a: Seq<Node>, b: Seq<Node>)
    requires
        nodes_alike(a, b),
    ensures
        enc_nodes(a) == enc_nodes(b),
    decreases a.len(),
{
    if a.len() > 0 {
        assert(nodes_alike(a.drop_first(), b.drop_first())) by {
            assert forall|i: int|
                0 <= i < a.drop_first().len() implies (#[trigger] a.drop_first()[i]).id == (
                #[trigger] b.drop_first()[i]).id && a.drop_first()[i].title@
                == b.drop_first()[i].title@ && a.drop_first()[i].description@
                == b.drop_first()[i].description@ && a.drop_first()[i].scheduled
                == b.drop_first()[i].scheduled && a.drop_first()[i].due
                == b.drop_first()[i].due by {
                assert(a.drop_first()[i] == a[i + 1]);
                assert(b.drop_first()[i] == b[i + 1]);
            }
        }
        lemma_enc_nodes_alike(a.drop_first(), b.drop_first());
        assert(a[0].id == b[0].id && a[0].title@ == b[0].title@ && a[0].description@
            == b[0].description@ && a[0].scheduled == b[0].scheduled && a[0].due == b[0].due);
        assert(enc_node(a.first()) == enc_node(b.first()));
    }
}


/// Where the three sections of a store's snapshot sit.
#[verifier::rlimit(60)]
#[verifier::spinoff_prover]
proof fn lemma_model_layout(bytes: Seq<u8>, g0: Database)
    requires
        spec_encode(g0) == bytes,
    ensures
        ({
            let nodes = g0.nodes_seq();
            let edges = g0.edges_seq();
            let roots = g0.roots_seq();
            let pn = 8 + enc_nodes(nodes).len() as int;
            let pe = pn + 8;
            let pr = pe + 32 * edges.len() as int;
            let prr = pr + 8;
            &&& bytes.len() == prr + 16 * roots.len()
            &&& bytes.subrange(0, 8) == enc_u64(nodes.len() as u64)
            &&& bytes.subrange(pn, pe) == enc_u64(edges.len() as u64)
            &&& bytes.subrange(pr, prr) == enc_u64(roots.len() as u64)
            &&& forall|i: int|
                0 <= i < edges.len() ==> bytes.subrange(pe + 32 * i, pe + 32 * i + 16) == enc_id(
                    (#[trigger] edges[i]).0,
                ) && bytes.subrange(pe + 32 * i + 16, pe + 32 * i + 32) == enc_id(edges[i].1)
            &&& forall|i: int|
                0 <= i < roots.len() ==> bytes.subrange(prr + 16 * i, prr + 16 * i + 16) == enc_id(
                    #[trigger] roots[i],
                )
        }),
{
    lemma_auto_spec_u64_to_from_le_bytes();
    lemma_auto_spec_u128_to_from_le_bytes();
    let nodes = g0.nodes_seq();
    let edges = g0.edges_seq();
    let roots = g0.roots_seq();
    lemma_enc_edges_len(edges);
    lemma_enc_ids_len(roots);
    let pn = 8 + enc_nodes(nodes).len() as int;
    let pe = pn + 8;
    let pr = pe + 32 * edges.len() as int;
    let prr = pr + 8;
    let e0 = enc_u64(nodes.len() as u64);
    let e1 = enc_u64(edges.len() as u64);
    let e2 = enc_u64(roots.len() as u64);
    assert(bytes =~= Seq::empty() + e0 + (enc_nodes(nodes) + e1 + enc_edges(edges) + e2 + enc_ids(
        roots,
    )));
    lemma_prefix_block(
        bytes,
        Seq::empty(),
        e0,
        enc_nodes(nodes) + e1 + enc_edges(edges) + e2 + enc_ids(roots),
    );
    assert(bytes.subrange(0, 8) == e0);
    assert(bytes =~= (e0 + enc_nodes(nodes)) + e1 + (enc_edges(edges) + e2 + enc_ids(roots)));
    lemma_prefix_block(bytes, e0 + enc_nodes(nodes), e1, enc_edges(edges) + e2 + enc_ids(roots));
    assert(bytes.subrange(pn, pe) == e1);
    assert(bytes =~= (e0 + enc_nodes(nodes) + e1 + enc_edges(edges)) + e2 + enc_ids(roots));
    lemma_prefix_block(bytes, e0 + enc_nodes(nodes) + e1 + enc_edges(edges), e2, enc_ids(roots));
    assert(bytes.subrange(pr, prr) == e2);
    // each edge block
    assert(bytes =~= (e0 + enc_nodes(nodes) + e1) + enc_edges(edges) + (e2 + enc_ids(roots)));
    lemma_prefix_block(bytes, e0 + enc_nodes(nodes) + e1, enc_edges(edges), e2 + enc_ids(roots));
    assert(bytes.subrange(pe, pe + 32 * edges.len() as int) == enc_edges(edges));
    assert forall|i: int| 0 <= i < edges.len() implies bytes.subrange(pe + 32 * i, pe + 32 * i + 16)
        == enc_id((#[trigger] edges[i]).0) && bytes.subrange(pe + 32 * i + 16, pe + 32 * i + 32)
        == enc_id(edges[i].1) by {
        lemma_enc_edges_concat(edges.take(i), edges.skip(i));
        assert(edges.take(i) + edges.skip(i) =~= edges);
        lemma_enc_edges_len(edges.take(i));
        lemma_enc_edges_len(edges.skip(i));
        assert(edges.skip(i).first() == edges[i]);
        assert(edges.skip(i).drop_first() =~= edges.skip(i + 1));
        lemma_enc_edges_len(edges.skip(i + 1));
        assert(enc_edges(edges.skip(i)) == enc_edge(edges[i]) + enc_edges(edges.skip(i + 1)));
        assert(enc_edges(edges) == enc_edges(edges.take(i)) + (enc_edge(edges[i]) + enc_edges(
            edges.skip(i + 1),
        )));
        lemma_subrange_within(
            bytes,
            pe,
            enc_edges(edges),
            32 * i,
            32 * i + 32,
        );
        assert(enc_edges(edges).subrange(32 * i, 32 * i + 32) =~= enc_edge(edges[i])) by {
            assert(enc_edges(edges) =~= enc_edges(edges.take(i)) + enc_edge(edges[i]) + enc_edges(
                edges.skip(i + 1),
            ));
            lemma_prefix_block(
                enc_edges(edges),
                enc_edges(edges.take(i)),
                enc_edge(edges[i]),
                enc_edges(edges.skip(i + 1)),
            );
        }
        assert(bytes.subrange(pe + 32 * i, pe + 32 * i + 32) == enc_edge(edges[i]));
        lemma_subrange_within(bytes, pe + 32 * i, enc_edge(edges[i]), 0, 16);
        lemma_subrange_within(bytes, pe + 32 * i, enc_edge(edges[i]), 16, 32);
        assert(enc_edge(edges[i]).subrange(0, 16) =~= enc_id(edges[i].0));
        assert(enc_edge(edges[i]).subrange(16, 32) =~= enc_id(edges[i].1));
    }
    // each root block
    assert(bytes =~= (e0 + enc_nodes(nodes) + e1 + enc_edges(edges) + e2) + enc_ids(roots)
        + Seq::<u8>::empty());
    lemma_prefix_block(
        bytes,
        e0 + enc_nodes(nodes) + e1 + enc_edges(edges) + e2,
        enc_ids(roots),
        Seq::empty(),
    );
    assert(bytes.subrange(prr, prr + 16 * roots.len() as int) == enc_ids(roots));
    assert forall|i: int| 0 <= i < roots.len() implies bytes.subrange(
        prr + 16 * i,
        prr + 16 * i + 16,
    ) == enc_id(#[trigger] roots[i]) by {
        lemma_enc_ids_concat(roots.take(i), roots.skip(i));
        assert(roots.take(i) + roots.skip(i) =~= roots);
        lemma_enc_ids_len(roots.take(i));
        assert(roots.skip(i).first() == roots[i]);
        assert(roots.skip(i).drop_first() =~= roots.skip(i + 1));
        assert(enc_ids(roots.skip(i)) == enc_id(roots[i]) + enc_ids(roots.skip(i + 1)));
        assert(enc_ids(roots) == enc_ids(roots.take(i)) + (enc_id(roots[i]) + enc_ids(
            roots.skip(i + 1),
        )));
        lemma_subrange_within(bytes, prr, enc_ids(roots), 16 * i, 16 * i + 16);
        assert(enc_ids(roots).subrange(16 * i, 16 * i + 16) =~= enc_id(roots[i])) by {
            assert(enc_ids(roots) =~= enc_ids(roots.take(i)) + enc_id(roots[i]) + enc_ids(
                roots.skip(i + 1),
            ));
            lemma_prefix_block(
                enc_ids(roots),
                enc_ids(roots.take(i)),
                enc_id(roots[i]),
                enc_ids(roots.skip(i + 1)),
            );
        }
    }
}

/// Where the fields of record `i` sit inside a store's snapshot.
#[verifier::rlimit(60)]
#[verifier::spinoff_prover]
proof fn lemma_model_node_block(bytes: Seq<u8>, g0: Database, i: int)
    requires
        spec_encode(g0) == bytes,
        0 <= i < g0.nodes_seq().len(),
    ensures
        ({
            let n = g0.nodes_seq()[i];
            let p = 8 + enc_nodes(g0.nodes_seq().take(i)).len() as int;
            let t = enc_str(n.title@).len() as int;
            let dd = enc_str(n.description@).len() as int;
            &&& p + 16 + t + dd + 18 <= 8 + enc_nodes(g0.nodes_seq()).len()
            &&& 8 + enc_nodes(g0.nodes_seq()).len() <= bytes.len()
            &&& 8 + enc_nodes(g0.nodes_seq().take(i + 1)).len() == p + 16 + t + dd + 18
            &&& bytes.subrange(p, p + 16) == enc_id(n.id)
            &&& bytes.subrange(p + 16, p + 16 + t) == enc_str(n.title@)
            &&& bytes.subrange(p + 16 + t, p + 16 + t + dd) == enc_str(n.description@)
            &&& bytes.subrange(p + 16 + t + dd, p + 16 + t + dd + 9) == enc_ts(n.scheduled)
            &&& bytes.subrange(p + 16 + t + dd + 9, p + 16 + t + dd + 18) == enc_ts(n.due)
        }),
{
    let nodes = g0.nodes_seq();
    let n = nodes[i];
    let p = 8 + enc_nodes(nodes.take(i)).len() as int;
    lemma_enc_node_fields(n);
    let t = enc_str(n.title@).len() as int;
    let dd = enc_str(n.description@).len() as int;
    lemma_enc_nodes_concat(nodes.take(i), nodes.skip(i));
    assert(nodes.take(i) + nodes.skip(i) =~= nodes);
    assert(nodes.skip(i).first() == nodes[i]);
    assert(nodes.skip(i).drop_first() =~= nodes.skip(i + 1));
    assert(enc_nodes(nodes.skip(i)) == enc_node(n) + enc_nodes(nodes.skip(i + 1)));
    assert(enc_nodes(nodes) == enc_nodes(nodes.take(i)) + (enc_node(n) + enc_nodes(
        nodes.skip(i + 1),
    )));
    assert(nodes.take(i + 1) =~= nodes.take(i).push(nodes[i]));
    lemma_enc_nodes_push(nodes.take(i), nodes[i]);
    let e0 = enc_u64(nodes.len() as u64);
    lemma_auto_spec_u64_to_from_le_bytes();
    let suffix = enc_nodes(nodes.skip(i + 1)) + enc_u64(g0.edges_seq().len() as u64) + enc_edges(
        g0.edges_seq(),
    ) + enc_u64(g0.roots_seq().len() as u64) + enc_ids(g0.roots_seq());
    assert(bytes =~= (e0 + enc_nodes(nodes.take(i))) + enc_node(n) + suffix);
    lemma_prefix_block(bytes, e0 + enc_nodes(nodes.take(i)), enc_node(n), suffix);
    assert(bytes.subrange(p, p + enc_node(n).len() as int) == enc_node(n));
    lemma_subrange_within(bytes, p, enc_node(n), 0, 16);
    lemma_subrange_within(bytes, p, enc_node(n), 16, 16 + t);
    lemma_subrange_within(bytes, p, enc_node(n), 16 + t, 16 + t + dd);
    lemma_subrange_within(bytes, p, enc_node(n), 16 + t + dd, 16 + t + dd + 9);
    lemma_subrange_within(bytes, p, enc_node(n), 16 + t + dd + 9, 16 + t + dd + 18);
}


/// View-alike record lists store the same identifiers.
proof fn lemma_alike_dom(a: Seq<Node>, b: Seq<Node>)
    requires
        nodes_alike(a, b),
        ids_distinct(b),
    ensures
        ids_distinct(a),
        forall|id: NodeID| #[trigger]
            map_of(a).dom().contains(id) <==> map_of(b).dom().contains(id),
{
    assert(ids_distinct(a)) by {
        assert forall|i: int, j: int| 0 <= i < j < a.len() implies a[i].id != a[j].id by {
            assert(a[i].id == b[i].id && a[j].id == b[j].id);
        }
    }
    crate::db::lemma_map_of_props(a);
    crate::db::lemma_map_of_props(b);
    assert forall|id: NodeID| #[trigger]
        map_of(a).dom().contains(id) <==> map_of(b).dom().contains(id) by {
        if map_of(a).dom().contains(id) {
            let i = choose|i: int| 0 <= i < a.len() && a[i].id == id;
            assert(b[i].id == id);
        }
        if map_of(b).dom().contains(id) {
            let i = choose|i: int| 0 <= i < b.len() && b[i].id == id;
            assert(a[i].id == id);
        }
    }
}

} // verus!
