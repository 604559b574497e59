//! The graph store: node records, directed parent -> child edges, and the
//! incrementally maintained root set.
//!
//! The store keeps the whole graph resident. The root set (nodes never
//! targeted by a connect) is updated on every structural change, so that
//! `get_roots` is a plain read.

use vstd::prelude::*;
use vstd::seq_lib::*;
use vstd::set_lib::*;

use crate::Error;
use crate::node::Node;
use crate::node::NodeID;

verus! {

broadcast use vstd::seq_lib::lemma_seq_contains_after_push;

/// No two records share an identifier.
pub open spec fn ids_distinct(s: Seq<Node>) -> bool {
    forall|i: int, j: int| 0 <= i < j < s.len() ==> s[i].id != s[j].id
}

/// Strictly ascending identifier order.
pub open spec fn sorted_strict(s: Seq<NodeID>) -> bool {
    forall|i: int, j: int| 0 <= i < j < s.len() ==> s[i] < s[j]
}

/// The identifier-to-record map that a sequence of records represents.
/// A later record wins when identifiers collide.
pub open spec fn map_of(s: Seq<Node>) -> Map<NodeID, Node>
    decreases s.len(),
{
    if s.len() == 0 {
        Map::empty()
    } else {
        map_of(s.drop_last()).insert(s.last().id, s.last())
    }
}

/// An identifier is in the map exactly when some record carries it, and
/// with distinct identifiers each record is found under its own.
pub proof fn lemma_map_of_props(s: Seq<Node>)
    requires
        ids_distinct(s),
    ensures
        forall|id: NodeID| #[trigger]
            map_of(s).dom().contains(id) <==> exists|i: int| 0 <= i < s.len() && s[i].id == id,
        forall|i: int| 0 <= i < s.len() ==> map_of(s)[#[trigger] s[i].id] == s[i],
    decreases s.len(),
{
    if s.len() > 0 {
        lemma_map_of_props(s.drop_last());
        assert(map_of(s) == map_of(s.drop_last()).insert(s.last().id, s.last()));
        assert forall|id: NodeID| #[trigger] map_of(s).dom().contains(id) implies exists|i: int|
            0 <= i < s.len() && s[i].id == id by {
            if id == s.last().id {
                assert(0 <= s.len() - 1 < s.len() && s[s.len() - 1].id == id);
            } else {
                assert(map_of(s.drop_last()).dom().contains(id));
                let i = choose|i: int| 0 <= i < s.drop_last().len() && s.drop_last()[i].id == id;
                assert(s.drop_last()[i] == s[i]);
                assert(0 <= i < s.len() && s[i].id == id);
            }
        }
        assert forall|id: NodeID| (exists|i: int| 0 <= i < s.len() && s[i].id == id) implies
            #[trigger] map_of(s).dom().contains(id) by {
            let i = choose|i: int| 0 <= i < s.len() && s[i].id == id;
            if i < s.len() - 1 {
                assert(s.drop_last()[i].id == id);
            }
        }
        assert forall|i: int| 0 <= i < s.len() implies map_of(s)[#[trigger] s[i].id] == s[i] by {
            if i < s.len() - 1 {
                assert(s.drop_last()[i] == s[i]);
                assert(s[i].id != s.last().id);
                assert(map_of(s.drop_last())[s.drop_last()[i].id] == s.drop_last()[i]);
            }
        }
    }
}

/// Two stores with the same edge set target the same identifiers.
pub proof fn lemma_targeted_congruence(g1: Database, g2: Database)
    requires
        g1.edge_set() == g2.edge_set(),
    ensures
        forall|id: NodeID| #[trigger] g1.targeted(id) == g2.targeted(id),
{
    assert forall|id: NodeID| #[trigger] g1.targeted(id) == g2.targeted(id) by {
        if g1.targeted(id) {
            let e = choose|e: (NodeID, NodeID)| #[trigger] g1.edge_set().contains(e) && e.1 == id;
            assert(g2.edge_set().contains(e));
        }
        if g2.targeted(id) {
            let e = choose|e: (NodeID, NodeID)| #[trigger] g2.edge_set().contains(e) && e.1 == id;
            assert(g1.edge_set().contains(e));
        }
    }
}

/// Both endpoints of a stored edge are stored nodes.
pub proof fn lemma_edge_endpoints(g: Database, e: (NodeID, NodeID))
    requires
        g.wf(),
        g.edge_set().contains(e),
    ensures
        g.has_node(e.0),
        g.has_node(e.1),
{
    assert(g.edges_seq().contains(e));
    let k = choose|k: int| 0 <= k < g.edges_seq().len() && g.edges_seq()[k] == e;
    assert(g.has_node(g.edges_seq()[k].0));
}

/// With distinct identifiers the map has exactly one entry per record.
pub proof fn lemma_map_of_len(s: Seq<Node>)
    requires
        ids_distinct(s),
    ensures
        map_of(s).dom().finite(),
        map_of(s).dom().len() == s.len(),
    decreases s.len(),
{
    if s.len() > 0 {
        lemma_map_of_len(s.drop_last());
        lemma_map_of_props(s.drop_last());
        assert(!map_of(s.drop_last()).dom().contains(s.last().id));
    }
}

/// Overwriting the record at a position replaces its map entry and nothing
/// else, provided the identifier is kept.
pub proof fn lemma_map_of_update(s: Seq<Node>, i: int, n: Node)
    requires
        ids_distinct(s),
        0 <= i < s.len(),
        n.id == s[i].id,
    ensures
        ids_distinct(s.update(i, n)),
        map_of(s.update(i, n)) =~= map_of(s).insert(n.id, n),
    decreases s.len(),
{
    let su = s.update(i, n);
    if i == s.len() - 1 {
        assert(su.drop_last() =~= s.drop_last());
    } else {
        lemma_map_of_update(s.drop_last(), i, n);
        assert(su.drop_last() =~= s.drop_last().update(i, n));
        assert(su.last() == s.last());
        assert(s.last().id != n.id);
    }
}

/// The graph store. Both the node map and the root set are kept directly;
/// adjacency is recomputed per query from the edge list.
#[derive(Debug)]
pub struct Database {
    nodes: Vec<Node>,
    edges: Vec<(NodeID, NodeID)>,
    roots: Vec<NodeID>,
}

impl Database {
    /// The stored records, in insertion order.
    pub closed spec fn nodes_seq(self) -> Seq<Node> {
        self.nodes@
    }

    /// The stored edges, in insertion order.
    pub closed spec fn edges_seq(self) -> Seq<(NodeID, NodeID)> {
        self.edges@
    }

    /// The root identifiers, in ascending order.
    pub closed spec fn roots_seq(self) -> Seq<NodeID> {
        self.roots@
    }

    /// The identifier-to-record map.
    pub open spec fn nodes_map(self) -> Map<NodeID, Node> {
        map_of(self.nodes_seq())
    }

    /// The set of directed edges.
    pub open spec fn edge_set(self) -> Set<(NodeID, NodeID)> {
        self.edges_seq().to_set()
    }

    /// The set of roots: nodes never targeted by a connect.
    pub open spec fn root_set(self) -> Set<NodeID> {
        self.roots_seq().to_set()
    }

    /// A record with this identifier exists.
    pub open spec fn has_node(self, id: NodeID) -> bool {
        self.nodes_map().dom().contains(id)
    }

    /// Some edge points at this identifier.
    pub open spec fn targeted(self, id: NodeID) -> bool {
        exists|e: (NodeID, NodeID)| #[trigger] self.edge_set().contains(e) && e.1 == id
    }

    /// The set of direct children of an identifier.
    pub open spec fn child_set(self, id: NodeID) -> Set<NodeID> {
        Set::new(|c: NodeID| self.edge_set().contains((id, c)))
    }

    /// The identifier has at least one outgoing edge.
    pub open spec fn has_children_spec(self, id: NodeID) -> bool {
        exists|c: NodeID| #[trigger] self.edge_set().contains((id, c))
    }

    pub open spec fn spec_node_count(self) -> nat {
        self.nodes_seq().len()
    }

    /// Well-formedness: identifiers are unique, every edge joins existing
    /// nodes, the edge list holds no duplicate pair, and the root list is
    /// sorted and holds exactly the untargeted existing identifiers.
    pub open spec fn wf(self) -> bool {
        &&& ids_distinct(self.nodes_seq())
        &&& self.edges_seq().no_duplicates()
        &&& forall|i: int|
            0 <= i < self.edges_seq().len() ==> self.has_node(#[trigger] self.edges_seq()[i].0)
                && self.has_node(self.edges_seq()[i].1)
        &&& sorted_strict(self.roots_seq())
        &&& forall|id: NodeID| #[trigger]
            self.root_set().contains(id) <==> (self.has_node(id) && !self.targeted(id))
    }

    /// An empty graph: no nodes, no edges, no roots.
    pub fn new() -> (g: Database)
        ensures
            g.wf(),
            g.nodes_seq() == Seq::<Node>::empty(),
            g.nodes_map() == Map::<NodeID, Node>::empty(),
            g.edge_set() == Set::<(NodeID, NodeID)>::empty(),
            g.root_set() == Set::<NodeID>::empty(),
    {
        let g = Database { nodes: Vec::new(), edges: Vec::new(), roots: Vec::new() };
        proof {
            assert(g.edge_set() =~= Set::<(NodeID, NodeID)>::empty());
            assert(g.root_set() =~= Set::<NodeID>::empty());
        }
        g
    }

    /// The position of the record carrying an identifier, if any.
    fn index_of_node(&self, id: NodeID) -> (r: Option<usize>)
        ensures
            match r {
                Some(i) => i < self.nodes_seq().len() && self.nodes_seq()[i as int].id == id,
                None => forall|i: int| 0 <= i < self.nodes_seq().len()
                    ==> self.nodes_seq()[i].id != id,
            },
    {
        let mut i: usize = 0;
        while i < self.nodes.len()
            invariant
                i <= self.nodes_seq().len(),
                forall|k: int| 0 <= k < i ==> self.nodes_seq()[k].id != id,
            decreases self.nodes_seq().len() - i,
        {
            if self.nodes[i].id == id {
                return Some(i);
            }
            i = i + 1;
        }
        None
    }

    /// Existence of a record under this identifier.
    pub fn contains_node(&self, id: NodeID) -> (r: bool)
        requires
            self.wf(),
        ensures
            r == self.has_node(id),
    {
        proof {
            lemma_map_of_props(self.nodes_seq());
        }
        self.index_of_node(id).is_some()
    }

    /// The shared precondition check: succeeds exactly when the identifier
    /// exists, and reports `NotFound` otherwise.
    fn exists_check(&self, id: NodeID) -> (r: Result<(), Error>)
        requires
            self.wf(),
        ensures
            r is Ok <==> self.has_node(id),
            r is Err ==> r == Err::<(), Error>(Error::NotFound),
    {
        if self.contains_node(id) {
            Ok(())
        } else {
            Err(Error::NotFound)
        }
    }

    /// Inserts a new record. The identifier is assumed fresh (a duplicate is
    /// a caller error, checked here as a precondition); the new node becomes
    /// a root.
    pub fn add(&mut self, node: &Node)
        requires
            old(self).wf(),
            !old(self).has_node(node.id),
        ensures
            final(self).wf(),
            final(self).nodes_seq() == old(self).nodes_seq().push(*node),
            final(self).nodes_map() == old(self).nodes_map().insert(node.id, *node),
            final(self).edges_seq() == old(self).edges_seq(),
            final(self).root_set() == old(self).root_set().insert(node.id),
    {
        proof {
            lemma_map_of_props(self.nodes_seq());
        }
        let id = node.id;
        self.nodes.push(node.clone());
        insert_sorted(&mut self.roots, id);
        proof {
            let s = self.nodes@;
            assert(s.drop_last() =~= old(self).nodes_seq());
            assert(self.nodes_map() =~= old(self).nodes_map().insert(id, *node));
            assert(ids_distinct(s)) by {
                assert forall|i: int, j: int| 0 <= i < j < s.len() implies s[i].id != s[j].id by {
                    if j == s.len() - 1 {
                        assert(old(self).nodes_seq()[i].id != id);
                    }
                }
            }
            lemma_map_of_props(s);
            assert(self.edges_seq() == old(self).edges_seq());
            lemma_targeted_congruence(*self, *old(self));
            assert forall|id2: NodeID| #[trigger] self.root_set().contains(id2) implies (
            self.has_node(id2) && !self.targeted(id2)) by {
                if id2 == id {
                    assert(self.nodes_map().dom().contains(id));
                    if old(self).targeted(id) {
                        lemma_edge_endpoints(
                            *old(self),
                            choose|e: (NodeID, NodeID)| #[trigger] old(self).edge_set().contains(e)
                                && e.1 == id,
                        );
                    }
                } else {
                    assert(old(self).root_set().contains(id2));
                    assert(old(self).has_node(id2));
                    assert(self.nodes_map().dom().contains(id2));
                }
            }
            assert forall|id2: NodeID| self.has_node(id2) && !self.targeted(id2) implies
                #[trigger] self.root_set().contains(id2) by {
                if id2 != id {
                    assert(old(self).nodes_map().dom().contains(id2));
                    assert(old(self).root_set().contains(id2));
                }
            }
        }
    }

    /// Overwrites the mutable fields of an existing record, identity
    /// preserved. Fails with `NotFound` when the identifier is absent, and
    /// then leaves the graph unchanged.
    pub fn update(&mut self, node: &Node) -> (r: Result<(), Error>)
        requires
            old(self).wf(),
        ensures
            final(self).wf(),
            r is Ok <==> old(self).has_node(node.id),
            r is Err ==> r == Err::<(), Error>(Error::NotFound) && *final(self) == *old(self),
            r is Ok ==> {
                &&& final(self).nodes_map() == old(self).nodes_map().insert(node.id, *node)
                &&& exists|i: int|
                    0 <= i < old(self).nodes_seq().len() && final(self).nodes_seq() == old(
                        self,
                    ).nodes_seq().update(i, *node)
                &&& final(self).edges_seq() == old(self).edges_seq()
                &&& final(self).roots_seq() == old(self).roots_seq()
            },
    {
        proof {
            lemma_map_of_props(self.nodes_seq());
        }
        match self.index_of_node(node.id) {
            None => Err(Error::NotFound),
            Some(i) => {
                proof {
                    lemma_map_of_update(self.nodes_seq(), i as int, *node);
                }
                self.nodes[i] = node.clone();
                proof {
                    assert(self.nodes_seq() == old(self).nodes_seq().update(i as int, *node));
                    assert(old(self).has_node(node.id));
                    assert(self.nodes_map().dom() =~= old(self).nodes_map().dom().insert(node.id));
                    assert forall|id2: NodeID| #[trigger]
                        self.has_node(id2) == old(self).has_node(id2) by {}
                    lemma_targeted_congruence(*self, *old(self));
                    assert(self.roots_seq() == old(self).roots_seq());
                    assert forall|id2: NodeID| #[trigger]
                        self.root_set().contains(id2) <==> (self.has_node(id2) && !self.targeted(
                        id2,
                    )) by {
                        assert(old(self).root_set().contains(id2) <==> (old(self).has_node(id2)
                            && !old(self).targeted(id2)));
                        assert(self.root_set().contains(id2) == old(self).root_set().contains(id2));
                        assert(self.targeted(id2) == old(self).targeted(id2));
                    }
                }
                Ok(())
            },
        }
    }

    /// The full record under an identifier, or `NotFound`.
    pub fn get_node(&self, id: NodeID) -> (r: Result<Node, Error>)
        requires
            self.wf(),
        ensures
            r is Ok <==> self.has_node(id),
            r matches Ok(n) ==> n == self.nodes_map()[id],
            r is Err ==> r == Err::<Node, Error>(Error::NotFound),
    {
        proof {
            lemma_map_of_props(self.nodes_seq());
        }
        match self.index_of_node(id) {
            None => Err(Error::NotFound),
            Some(i) => Ok(self.nodes[i].clone()),
        }
    }

    /// Inserts the directed edge and removes the target from the root set.
    /// Fails with `NotFound`, graph unchanged, when either endpoint is
    /// absent. Re-connecting an existing edge is harmless.
    pub fn connect(&mut self, from: NodeID, to: NodeID) -> (r: Result<(), Error>)
        requires
            old(self).wf(),
        ensures
            final(self).wf(),
            r is Ok <==> old(self).has_node(from) && old(self).has_node(to),
            r is Err ==> r == Err::<(), Error>(Error::NotFound) && *final(self) == *old(self),
            r is Ok ==> {
                &&& final(self).nodes_seq() == old(self).nodes_seq()
                &&& final(self).edge_set() == old(self).edge_set().insert((from, to))
                &&& final(self).root_set() == old(self).root_set().remove(to)
            },
    {
        if let Err(e) = self.exists_check(from) {
            return Err(e);
        }
        if let Err(e) = self.exists_check(to) {
            return Err(e);
        }
        let had = self.contains_edge(from, to);
        if !had {
            self.edges.push((from, to));
        }
        proof {
            let pre = *old(self);
            if !had {
                assert(self.edges@ == pre.edges_seq().push((from, to)));
                assert(self.edge_set() =~= pre.edge_set().insert((from, to)));
                assert(self.edges_seq().no_duplicates()) by {
                    assert forall|p: int, q: int|
                        0 <= p < self.edges_seq().len() && 0 <= q < self.edges_seq().len() && p
                            != q implies self.edges_seq()[p] != self.edges_seq()[q] by {
                        if p == pre.edges_seq().len() {
                            assert(!pre.edges_seq().contains((from, to)));
                            assert(self.edges_seq()[q] == pre.edges_seq()[q]);
                        } else if q == pre.edges_seq().len() {
                            assert(!pre.edges_seq().contains((from, to)));
                            assert(self.edges_seq()[p] == pre.edges_seq()[p]);
                        }
                    }
                }
            } else {
                assert(self.edge_set() =~= pre.edge_set().insert((from, to)));
            }
        }
        remove_sorted(&mut self.roots, to);
        proof {
            let pre = *old(self);
            assert forall|k: int| 0 <= k < self.edges_seq().len() implies self.has_node(
                #[trigger] self.edges_seq()[k].0,
            ) && self.has_node(self.edges_seq()[k].1) by {
                if k < pre.edges_seq().len() {
                    assert(pre.has_node(pre.edges_seq()[k].0));
                    assert(self.edges_seq()[k] == pre.edges_seq()[k]);
                }
            }
            assert forall|id2: NodeID| #[trigger] self.root_set().contains(id2) implies (
            self.has_node(id2) && !self.targeted(id2)) by {
                assert(pre.root_set().contains(id2));
                assert(id2 != to);
                assert(!pre.targeted(id2));
                if self.targeted(id2) {
                    let e = choose|e: (NodeID, NodeID)| #[trigger] self.edge_set().contains(e)
                        && e.1 == id2;
                    assert(e != (from, to));
                    assert(pre.edge_set().contains(e));
                    assert(pre.targeted(id2));
                }
            }
            assert forall|id2: NodeID| self.has_node(id2) && !self.targeted(id2) implies
                #[trigger] self.root_set().contains(id2) by {
                assert(self.edge_set().contains((from, to)));
                assert(self.targeted(to));
                assert(id2 != to);
                assert forall|e: (NodeID, NodeID)| #[trigger] pre.edge_set().contains(e) implies e.1
                    != id2 by {
                    assert(self.edge_set().contains(e));
                }
                assert(pre.root_set().contains(id2));
            }
        }
        Ok(())
    }

    /// Whether this exact directed edge is stored.
    fn contains_edge(&self, from: NodeID, to: NodeID) -> (r: bool)
        ensures
            r == self.edge_set().contains((from, to)),
    {
        let mut i: usize = 0;
        let mut found = false;
        while i < self.edges.len()
            invariant
                i <= self.edges_seq().len(),
                found == exists|k: int|
                    0 <= k < i && self.edges_seq()[k] == (from, to),
            decreases self.edges_seq().len() - i,
        {
            if self.edges[i].0 == from && self.edges[i].1 == to {
                proof {
                    assert(self.edges_seq()[i as int] == (from, to));
                }
                found = true;
            }
            i = i + 1;
        }
        proof {
            if found {
                let k = choose|k: int| 0 <= k < self.edges_seq().len() && self.edges_seq()[k] == (
                from,
                to,
                );
                assert(self.edges_seq().contains((from, to)));
            } else {
                if self.edge_set().contains((from, to)) {
                    let k = choose|k: int|
                        0 <= k < self.edges_seq().len() && self.edges_seq()[k] == (from, to);
                    assert(false);
                }
            }
        }
        found
    }

    /// True exactly when the node has at least one outgoing edge; `NotFound`
    /// when the identifier is absent.
    pub fn has_children(&self, id: NodeID) -> (r: Result<bool, Error>)
        requires
            self.wf(),
        ensures
            r is Ok <==> self.has_node(id),
            r matches Ok(b) ==> b == self.has_children_spec(id),
            r is Err ==> r == Err::<bool, Error>(Error::NotFound),
    {
        if let Err(e) = self.exists_check(id) {
            return Err(e);
        }
        Ok(self.has_outgoing(id))
    }

    /// The bare adjacency test, with no existence check.
    pub fn has_outgoing(&self, id: NodeID) -> (r: bool)
        ensures
            r == self.has_children_spec(id),
    {
        let mut i: usize = 0;
        while i < self.edges.len()
            invariant
                i <= self.edges_seq().len(),
                forall|k: int| 0 <= k < i ==> (#[trigger] self.edges_seq()[k]).0 != id,
            decreases self.edges_seq().len() - i,
        {
            if self.edges[i].0 == id {
                proof {
                    let e = self.edges_seq()[i as int];
                    assert(self.edges_seq().contains(e));
                    assert(self.edge_set().contains((id, e.1)));
                }
                return true;
            }
            i = i + 1;
        }
        proof {
            if self.has_children_spec(id) {
                let c = choose|c: NodeID| self.edge_set().contains((id, c));
                let k = choose|k: int|
                    0 <= k < self.edges_seq().len() && self.edges_seq()[k] == (id, c);
                assert(false);
            }
        }
        false
    }

    /// The direct children of an identifier, ascending, each exactly once;
    /// `NotFound` when the identifier is absent.
    pub fn get_children(&self, id: NodeID) -> (r: Result<Vec<NodeID>, Error>)
        requires
            self.wf(),
        ensures
            r is Ok <==> self.has_node(id),
            r matches Ok(v) ==> sorted_strict(v@) && forall|c: NodeID|
                v@.contains(c) <==> self.edge_set().contains((id, c)),
            r is Err ==> r == Err::<Vec<NodeID>, Error>(Error::NotFound),
    {
        if let Err(e) = self.exists_check(id) {
            return Err(e);
        }
        Ok(self.children_sorted(id))
    }

    /// The sorted child list, with no existence check (shared by the public
    /// query and the traversal engine).
    pub(crate) fn children_sorted(&self, id: NodeID) -> (v: Vec<NodeID>)
        ensures
            sorted_strict(v@),
            forall|c: NodeID| v@.contains(c) <==> self.edge_set().contains((id, c)),
    {
        let mut v: Vec<NodeID> = Vec::new();
        let mut i: usize = 0;
        while i < self.edges.len()
            invariant
                i <= self.edges_seq().len(),
                sorted_strict(v@),
                forall|c: NodeID|
                    v@.contains(c) <==> exists|k: int|
                        0 <= k < i && #[trigger] self.edges_seq()[k] == (id, c),
            decreases self.edges_seq().len() - i,
        {
            let e = self.edges[i];
            if e.0 == id {
                insert_sorted(&mut v, e.1);
                proof {
                    assert(self.edges_seq()[i as int] == (id, e.1));
                    assert forall|c: NodeID| v@.contains(c) implies exists|k: int|
                        0 <= k < i + 1 && #[trigger] self.edges_seq()[k] == (id, c) by {
                        assert(v@.to_set().contains(c));
                        if c != e.1 {
                            assert(exists|k: int|
                                0 <= k < i && #[trigger] self.edges_seq()[k] == (id, c));
                        } else {
                            assert(self.edges_seq()[i as int] == (id, c));
                        }
                    }
                    assert forall|c: NodeID| (exists|k: int|
                        0 <= k < i + 1 && #[trigger] self.edges_seq()[k] == (id, c)) implies
                        v@.contains(c) by {
                        assert(v@.to_set().contains(c) == v@.contains(c));
                    }
                }
            } else {
                proof {
                    assert forall|c: NodeID| v@.contains(c) implies exists|k: int|
                        0 <= k < i + 1 && #[trigger] self.edges_seq()[k] == (id, c) by {
                        let k = choose|k: int|
                            0 <= k < i && #[trigger] self.edges_seq()[k] == (id, c);
                        assert(self.edges_seq()[k] == (id, c));
                    }
                    assert forall|c: NodeID| (exists|k: int|
                        0 <= k < i + 1 && #[trigger] self.edges_seq()[k] == (id, c)) implies
                        v@.contains(c) by {
                        let k = choose|k: int|
                            0 <= k < i + 1 && #[trigger] self.edges_seq()[k] == (id, c);
                        assert(k < i);
                    }
                }
            }
            i = i + 1;
        }
        proof {
            assert forall|c: NodeID| v@.contains(c) implies self.edge_set().contains((id, c)) by {
                let k = choose|k: int| 0 <= k < self.edges_seq().len() && #[trigger] self
                    .edges_seq()[k] == (id, c);
                assert(self.edges_seq().contains((id, c)));
            }
            assert forall|c: NodeID| self.edge_set().contains((id, c)) implies v@.contains(c) by {
                let k = choose|k: int|
                    0 <= k < self.edges_seq().len() && self.edges_seq()[k] == (id, c);
                assert(self.edges_seq()[k] == (id, c));
            }
        }
        v
    }

    /// All current root identifiers, ascending.
    pub fn get_roots(&self) -> (r: Vec<NodeID>)
        ensures
            r@ == self.roots_seq(),
    {
        let mut r: Vec<NodeID> = Vec::new();
        let mut i: usize = 0;
        while i < self.roots.len()
            invariant
                i <= self.roots_seq().len(),
                r@ == self.roots_seq().take(i as int),
            decreases self.roots_seq().len() - i,
        {
            r.push(self.roots[i]);
            proof {
                assert(r@ =~= self.roots_seq().take(i + 1));
            }
            i = i + 1;
        }
        proof {
            assert(r@ =~= self.roots_seq());
        }
        r
    }

    /// How many records the store holds.
    pub fn node_count(&self) -> (r: usize)
        ensures
            r == self.spec_node_count(),
    {
        self.nodes.len()
    }

    /// The record at a storage position (the matcher walks all records).
    pub fn node_at(&self, i: usize) -> (r: &Node)
        requires
            i < self.spec_node_count(),
        ensures
            *r == self.nodes_seq()[i as int],
    {
        &self.nodes[i]
    }

    /// The record list itself (the snapshot writer walks it).
    pub(crate) fn nodes_ref(&self) -> (r: &Vec<Node>)
        ensures
            r@ == self.nodes_seq(),
    {
        &self.nodes
    }

    /// The edge list itself (the snapshot writer walks it).
    pub(crate) fn edges_ref(&self) -> (r: &Vec<(NodeID, NodeID)>)
        ensures
            r@ == self.edges_seq(),
    {
        &self.edges
    }

    /// The root list itself (the snapshot writer walks it).
    pub(crate) fn roots_ref(&self) -> (r: &Vec<NodeID>)
        ensures
            r@ == self.roots_seq(),
    {
        &self.roots
    }

    /// Assembles a store from validated parts (the snapshot reader checks
    /// them first).
    pub(crate) fn from_parts(
        nodes: Vec<Node>,
        edges: Vec<(NodeID, NodeID)>,
        roots: Vec<NodeID>,
    ) -> (g: Database)
        requires
            ids_distinct(nodes@),
            edges@.no_duplicates(),
            forall|i: int|
                0 <= i < edges@.len() ==> map_of(nodes@).dom().contains((#[trigger] edges@[i]).0)
                    && map_of(nodes@).dom().contains(edges@[i].1),
            sorted_strict(roots@),
            forall|id: NodeID| #[trigger]
                roots@.to_set().contains(id) <==> (map_of(nodes@).dom().contains(id) && !(
                exists|e: (NodeID, NodeID)| #[trigger] edges@.to_set().contains(e) && e.1 == id)),
        ensures
            g.wf(),
            g.nodes_seq() == nodes@,
            g.edges_seq() == edges@,
            g.roots_seq() == roots@,
    {
        let g = Database { nodes, edges, roots };
        proof {
            assert forall|id: NodeID| #[trigger]
                g.root_set().contains(id) <==> (g.has_node(id) && !g.targeted(id)) by {
                if g.root_set().contains(id) {
                    assert(roots@.to_set().contains(id));
                    assert(map_of(nodes@).dom().contains(id));
                    if g.targeted(id) {
                        let e = choose|e: (NodeID, NodeID)| #[trigger] g.edge_set().contains(e)
                            && e.1 == id;
                        assert(edges@.to_set().contains(e));
                    }
                }
                if g.has_node(id) && !g.targeted(id) {
                    assert(map_of(nodes@).dom().contains(id));
                    if exists|e: (NodeID, NodeID)| #[trigger] edges@.to_set().contains(e) && e.1
                        == id {
                        let e = choose|e: (NodeID, NodeID)| #[trigger] edges@.to_set().contains(e)
                            && e.1 == id;
                        assert(g.edge_set().contains(e));
                        assert(g.targeted(id));
                    }
                    assert(roots@.to_set().contains(id));
                }
            }
        }
        g
    }
}

/// Inserts an identifier into a strictly sorted list, keeping it sorted;
/// inserting a present identifier changes nothing.
fn insert_sorted(v: &mut Vec<NodeID>, x: NodeID)
    requires
        sorted_strict(old(v)@),
    ensures
        sorted_strict(final(v)@),
        final(v)@.to_set() == old(v)@.to_set().insert(x),
{
    let mut i: usize = 0;
    while i < v.len() && v[i] < x
        invariant
            i <= v@.len(),
            v@ == old(v)@,
            forall|k: int| 0 <= k < i ==> v@[k] < x,
        decreases v@.len() - i,
    {
        i = i + 1;
    }
    if i < v.len() && v[i] == x {
        proof {
            assert(v@.contains(x));
            assert(v@.to_set() =~= old(v)@.to_set().insert(x));
        }
        return;
    }
    proof {
        v@.insert_ensures(i as int, x);
    }
    v.insert(i, x);
    proof {
        let s = old(v)@;
        assert forall|p: int, q: int| 0 <= p < q < v@.len() implies v@[p] < v@[q] by {
            let vp = if p < i { s[p] } else if p == i { x } else { s[p - 1] };
            let vq = if q < i { s[q] } else if q == i { x } else { s[q - 1] };
            assert(v@[p] == vp);
            assert(v@[q] == vq);
        }
        assert forall|c: NodeID| v@.contains(c) implies old(v)@.to_set().insert(x).contains(c) by {
            let k = choose|k: int| 0 <= k < v@.len() && v@[k] == c;
            if k < i {
                assert(s[k] == c);
            } else if k > i {
                assert(s[k - 1] == c);
            }
        }
        assert forall|c: NodeID| old(v)@.to_set().insert(x).contains(c) implies v@.contains(c) by {
            if c == x {
                assert(v@[i as int] == x);
            } else {
                let k = choose|k: int| 0 <= k < s.len() && s[k] == c;
                if k < i {
                    assert(v@[k] == c);
                } else {
                    assert(v@[k + 1] == c);
                }
            }
        }
        assert(v@.to_set() =~= old(v)@.to_set().insert(x));
    }
}

/// Removes an identifier from a strictly sorted list, keeping it sorted;
/// removing an absent identifier changes nothing.
fn remove_sorted(v: &mut Vec<NodeID>, x: NodeID)
    requires
        sorted_strict(old(v)@),
    ensures
        sorted_strict(final(v)@),
        final(v)@.to_set() == old(v)@.to_set().remove(x),
{
    let mut i: usize = 0;
    while i < v.len()
        invariant
            i <= v@.len(),
            v@ == old(v)@,
            sorted_strict(v@),
            forall|k: int| 0 <= k < i ==> v@[k] != x,
        decreases v@.len() - i,
    {
        if v[i] == x {
            proof {
                v@.remove_ensures(i as int);
            }
            v.remove(i);
            proof {
                let s = old(v)@;
                assert forall|p: int, q: int| 0 <= p < q < v@.len() implies v@[p] < v@[q] by {
                    let vp = if p < i { s[p] } else { s[p + 1] };
                    let vq = if q < i { s[q] } else { s[q + 1] };
                    assert(v@[p] == vp);
                    assert(v@[q] == vq);
                }
                assert forall|c: NodeID| v@.contains(c) implies old(v)@.to_set().remove(x).contains(
                    c,
                ) by {
                    let k = choose|k: int| 0 <= k < v@.len() && v@[k] == c;
                    if k < i {
                        assert(s[k] == c);
                        assert(c != x);
                    } else {
                        assert(s[k + 1] == c);
                        assert(s[i as int] == x);
                        assert(c != x);
                    }
                }
                assert forall|c: NodeID| old(v)@.to_set().remove(x).contains(c) implies v@.contains(
                    c,
                ) by {
                    let k = choose|k: int| 0 <= k < s.len() && s[k] == c;
                    if k < i {
                        assert(v@[k] == c);
                    } else {
                        assert(k != i);
                        assert(v@[k - 1] == c);
                    }
                }
                assert(v@.to_set() =~= old(v)@.to_set().remove(x));
            }
            return;
        }
        i = i + 1;
    }
    proof {
        if old(v)@.to_set().contains(x) {
            let k = choose|k: int| 0 <= k < old(v)@.len() && old(v)@[k] == x;
            assert(false);
        }
        assert(v@.to_set() =~= old(v)@.to_set().remove(x));
    }
}

/// The root-set invariant: a stored identifier is a root exactly when no
/// edge targets it, and only stored identifiers are roots.
pub proof fn lemma_root_characterization(g: Database)
    requires
        g.wf(),
    ensures
        forall|id: NodeID| #[trigger]
            g.root_set().contains(id) <==> (g.has_node(id) && !g.targeted(id)),
        forall|id: NodeID| #[trigger] g.root_set().contains(id) ==> g.has_node(id),
{
}

/// After an `add` of a fresh record, `get` finds exactly that record and
/// its identifier is a root.
pub proof fn lemma_add_then_get(g: Database, g2: Database, n: Node)
    requires
        g.wf(),
        !g.has_node(n.id),
        g2.nodes_map() == g.nodes_map().insert(n.id, n),
        g2.root_set() == g.root_set().insert(n.id),
    ensures
        g2.has_node(n.id),
        g2.nodes_map()[n.id] == n,
        g2.root_set().contains(n.id),
{
}

/// After a successful `connect(from, to)`, `to` is among the children of
/// `from` and is no longer a root.
pub proof fn lemma_connect_children_roots(g: Database, g2: Database, from: NodeID, to: NodeID)
    requires
        g.wf(),
        g2.edge_set() == g.edge_set().insert((from, to)),
        g2.root_set() == g.root_set().remove(to),
    ensures
        g2.child_set(from).contains(to),
        !g2.root_set().contains(to),
{
    assert(g2.edge_set().contains((from, to)));
}

/// A node with no outgoing edge has no children; one outgoing edge makes
/// `has_children` true.
pub proof fn lemma_has_children_characterization(g: Database, id: NodeID)
    ensures
        (forall|c: NodeID| !(#[trigger] g.edge_set().contains((id, c)))) <==> !g.has_children_spec(
            id,
        ),
        forall|c: NodeID| #[trigger] g.edge_set().contains((id, c)) ==> g.has_children_spec(id),
{
}

} // verus!
