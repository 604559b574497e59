//! Depth-first traversal over the adjacency relation: cycle-safe,
//! depth-annotated, one pass per construction.
//!
//! A step pops entries until it finds one whose node is not yet seen (a
//! node can sit on the stack twice when two parents discovered it), marks
//! that node seen, pushes its not-yet-seen children (in ascending
//! identifier order, so they are popped in descending order) one level
//! deeper, and yields the entry. Every reachable node is therefore yielded
//! exactly once, cycles included.

use vstd::prelude::*;
use vstd::seq_lib::*;
use vstd::set_lib::lemma_len_subset;

use crate::Error;
use crate::db::Database;
use crate::db::lemma_edge_endpoints;
use crate::db::lemma_map_of_len;
use crate::db::sorted_strict;
use crate::node::NodeID;

verus! {

broadcast use vstd::seq_lib::lemma_seq_contains_after_push;

/// A walk through the graph along directed edges.
pub open spec fn is_path(g: Database, p: Seq<NodeID>) -> bool {
    &&& p.len() >= 1
    &&& forall|i: int| 0 <= i < p.len() ==> g.has_node(#[trigger] p[i])
    &&& forall|i: int| 0 <= i < p.len() - 1 ==> g.edge_set().contains((#[trigger] p[i], p[i + 1]))
}

/// A walk from `a` to `b`.
pub open spec fn path_between(g: Database, p: Seq<NodeID>, a: NodeID, b: NodeID) -> bool {
    is_path(g, p) && p.first() == a && p.last() == b
}

/// `b` can be reached from `a` along zero or more edges.
#[verifier::opaque]
pub open spec fn reachable(g: Database, a: NodeID, b: NodeID) -> bool {
    exists|p: Seq<NodeID>| path_between(g, p, a, b)
}

/// `b` lies at the end of some walk of exactly `d` edges from `a`.
#[verifier::opaque]
pub open spec fn reachable_in(g: Database, a: NodeID, b: NodeID, d: nat) -> bool {
    exists|p: Seq<NodeID>| path_between(g, p, a, b) && p.len() == d + 1
}

/// A node on a walk of `d` edges is reachable.
pub proof fn lemma_reachable_in_reachable(g: Database, a: NodeID, b: NodeID, d: nat)
    requires
        reachable_in(g, a, b, d),
    ensures
        reachable(g, a, b),
{
    reveal(reachable);
    reveal(reachable_in);
    let p = choose|p: Seq<NodeID>| path_between(g, p, a, b) && p.len() == d + 1;
    assert(path_between(g, p, a, b));
}

/// A stored node reaches itself by the zero-edge walk.
pub proof fn lemma_reachable_self(g: Database, a: NodeID)
    requires
        g.has_node(a),
    ensures
        reachable_in(g, a, a, 0),
        reachable(g, a, a),
{
    reveal(reachable_in);
    let p = seq![a];
    assert(p.first() == a && p.last() == a);
    assert(path_between(g, p, a, a) && p.len() == 0 + 1);
    lemma_reachable_in_reachable(g, a, a, 0);
}

/// A walk of `d` edges extends along one more edge to a walk of `d + 1`.
pub proof fn lemma_path_extend(g: Database, a: NodeID, n: NodeID, c: NodeID, d: nat)
    requires
        g.wf(),
        reachable_in(g, a, n, d),
        g.edge_set().contains((n, c)),
    ensures
        reachable_in(g, a, c, d + 1),
        reachable(g, a, c),
{
    reveal(reachable_in);
    let p = choose|p: Seq<NodeID>| path_between(g, p, a, n) && p.len() == d + 1;
    lemma_edge_endpoints(g, (n, c));
    let q = p.push(c);
    assert(is_path(g, q)) by {
        assert(forall|i: int| 0 <= i < p.len() ==> q[i] == #[trigger] p[i]);
        assert forall|i: int| 0 <= i < q.len() - 1 implies g.edge_set().contains(
            (#[trigger] q[i], q[i + 1]),
        ) by {
            if i == q.len() - 2 {
                assert(q[i] == n && q[i + 1] == c);
            }
        }
    }
    assert(q.last() == c && q.first() == a);
    assert(path_between(g, q, a, c) && q.len() == (d + 1) + 1);
    lemma_reachable_in_reachable(g, a, c, d + 1);
}

/// Every node on a walk that starts inside a child-closed set lies in that
/// set.
proof fn lemma_path_in_closed(g: Database, s: Set<NodeID>, p: Seq<NodeID>)
    requires
        is_path(g, p),
        s.contains(p.first()),
        forall|n: NodeID, c: NodeID|
            s.contains(n) && #[trigger] g.edge_set().contains((n, c)) ==> s.contains(c),
    ensures
        s.contains(p.last()),
    decreases p.len(),
{
    if p.len() > 1 {
        let q = p.drop_last();
        assert(is_path(g, q)) by {
            assert(forall|i: int| 0 <= i < q.len() ==> q[i] == #[trigger] p[i]);
            assert forall|i: int| 0 <= i < q.len() - 1 implies g.edge_set().contains(
                (#[trigger] q[i], q[i + 1]),
            ) by {
                assert(p[i] == q[i] && p[i + 1] == q[i + 1]);
                assert(g.edge_set().contains((p[i], p[i + 1])));
            }
        }
        assert(q.first() == p.first());
        lemma_path_in_closed(g, s, q);
        assert(g.edge_set().contains((p[p.len() - 2], p[p.len() - 1])));
        assert(s.contains(p[p.len() - 2]));
    }
}

/// A list of distinct stored identifiers is no longer than the store.
proof fn lemma_distinct_ids_bound(g: Database, s: Seq<NodeID>)
    requires
        g.wf(),
        s.no_duplicates(),
        forall|k: int| 0 <= k < s.len() ==> g.has_node(#[trigger] s[k]),
    ensures
        s.len() <= g.spec_node_count(),
{
    s.unique_seq_to_set();
    lemma_map_of_len(g.nodes_seq());
    assert forall|id: NodeID| s.to_set().contains(id) implies g.nodes_map().dom().contains(id) by {
        let k = choose|k: int| 0 <= k < s.len() && s[k] == id;
        assert(g.has_node(s[k]));
    }
    lemma_len_subset(s.to_set(), g.nodes_map().dom());
}

/// The traversal state: the seen set and the LIFO stack of
/// `(node, depth)` pairs still to be expanded.
pub struct DFSIter {
    seen: Vec<NodeID>,
    stack: Vec<(NodeID, usize)>,
    root: Ghost<NodeID>,
}

/// The state invariant every step preserves, over the state's parts: the
/// seen nodes are distinct, stored, and reachable; every pending entry is
/// stored, reached by a walk of its recorded depth, and no deeper than the
/// seen count; children of seen nodes are seen or pending; and the root is
/// seen from the first step on.
pub open spec fn inv_parts(
    g: Database,
    root: NodeID,
    seen: Seq<NodeID>,
    stack: Seq<(NodeID, usize)>,
) -> bool {
    &&& g.wf()
    &&& g.has_node(root)
    &&& seen.no_duplicates()
    &&& forall|k: int|
        0 <= k < seen.len() ==> g.has_node(#[trigger] seen[k]) && reachable(g, root, seen[k])
    &&& forall|k: int|
        0 <= k < stack.len() ==> g.has_node((#[trigger] stack[k]).0) && reachable_in(
            g,
            root,
            stack[k].0,
            stack[k].1 as nat,
        ) && stack[k].1 <= seen.len()
    &&& forall|n: NodeID, c: NodeID|
        seen.to_set().contains(n) && #[trigger] g.edge_set().contains((n, c))
            ==> seen.to_set().contains(c) || exists|j: int|
            0 <= j < stack.len() && (#[trigger] stack[j]).0 == c
    &&& seen.to_set().contains(root) || (seen.len() == 0 && stack =~= seq![(root, 0usize)])
}

/// The position of the entry a step will yield: the topmost one whose node
/// is not yet seen, or -1 when every pending node is seen.
pub open spec fn top_unseen(stack: Seq<(NodeID, usize)>, seen: Set<NodeID>) -> int
    decreases stack.len(),
{
    if stack.len() == 0 {
        -1
    } else if !seen.contains(stack.last().0) {
        stack.len() - 1
    } else {
        top_unseen(stack.drop_last(), seen)
    }
}

/// Where the cursor points: at the topmost unseen entry, with everything
/// above it seen; or below the stack when everything pending is seen.
pub proof fn lemma_top_unseen(stack: Seq<(NodeID, usize)>, seen: Set<NodeID>)
    ensures
        -1 <= top_unseen(stack, seen) < stack.len(),
        top_unseen(stack, seen) >= 0 ==> !seen.contains(stack[top_unseen(stack, seen)].0)
            && forall|k: int|
            top_unseen(stack, seen) < k < stack.len() ==> seen.contains((#[trigger] stack[k]).0),
        top_unseen(stack, seen) < 0 ==> forall|k: int|
            0 <= k < stack.len() ==> seen.contains((#[trigger] stack[k]).0),
    decreases stack.len(),
{
    if stack.len() > 0 && seen.contains(stack.last().0) {
        lemma_top_unseen(stack.drop_last(), seen);
        assert(forall|k: int| 0 <= k < stack.len() - 1 ==> stack.drop_last()[k] == stack[k]);
    }
}

/// What one step appends above the kept prefix `base`: exactly the
/// children of the yielded node `n` that the new seen set does not hold,
/// ascending by identifier, at depth `d + 1`.
pub open spec fn pushed_entries_ok(
    g: Database,
    n: NodeID,
    d: usize,
    seen2: Set<NodeID>,
    base: Seq<(NodeID, usize)>,
    stack2: Seq<(NodeID, usize)>,
) -> bool {
    let tail = stack2.skip(base.len() as int);
    &&& forall|j: int|
        0 <= j < tail.len() ==> (#[trigger] tail[j]).1 == d + 1 && g.edge_set().contains(
            (n, tail[j].0),
        ) && !seen2.contains(tail[j].0)
    &&& forall|j1: int, j2: int| 0 <= j1 < j2 < tail.len() ==> tail[j1].0 < tail[j2].0
    &&& forall|c: NodeID|
        #[trigger] g.edge_set().contains((n, c)) && !seen2.contains(c) ==> exists|j: int|
            0 <= j < tail.len() && (#[trigger] tail[j]).0 == c
}

/// How one yield relates the state before to the state after: the cursor
/// entry is yielded and marked seen, everything above it (all seen) is
/// discarded, the prefix below is kept, and exactly the not-yet-seen
/// children are pushed.
pub open spec fn step_rel(
    g: Database,
    seen1: Seq<NodeID>,
    stack1: Seq<(NodeID, usize)>,
    seen2: Seq<NodeID>,
    stack2: Seq<(NodeID, usize)>,
    y: (NodeID, usize),
) -> bool {
    let j = top_unseen(stack1, seen1.to_set());
    &&& j >= 0
    &&& y == stack1[j]
    &&& seen2 == seen1.push(y.0)
    &&& stack2.len() >= j
    &&& stack2.take(j) == stack1.take(j)
    &&& pushed_entries_ok(g, y.0, y.1, seen2.to_set(), stack1.take(j), stack2)
}

/// A complete run of the step relation: from the fresh state over `root`,
/// each yield follows the previous state, and the final state has nothing
/// unseen pending. This fixes the yield sequence of a full traversal.
pub open spec fn trace_ok(
    g: Database,
    root: NodeID,
    seens: Seq<Seq<NodeID>>,
    stacks: Seq<Seq<(NodeID, usize)>>,
    yields: Seq<(NodeID, usize)>,
) -> bool {
    &&& seens.len() == yields.len() + 1
    &&& stacks.len() == yields.len() + 1
    &&& seens[0] == Seq::<NodeID>::empty()
    &&& stacks[0] == seq![(root, 0usize)]
    &&& forall|k: int|
        0 <= k < yields.len() ==> step_rel(
            g,
            #[trigger] seens[k],
            stacks[k],
            seens[k + 1],
            stacks[k + 1],
            yields[k],
        )
    &&& top_unseen(stacks[yields.len() as int], seens[yields.len() as int].to_set()) < 0
}

impl DFSIter {
    /// The identifiers already marked seen, in marking order.
    pub closed spec fn seen_seq(self) -> Seq<NodeID> {
        self.seen@
    }

    /// The set of identifiers already marked seen.
    pub open spec fn seen_set(self) -> Set<NodeID> {
        self.seen_seq().to_set()
    }

    /// The pending entries, bottom of the stack first.
    pub closed spec fn stack_seq(self) -> Seq<(NodeID, usize)> {
        self.stack@
    }

    /// The node the traversal was started at.
    pub closed spec fn spec_root(self) -> NodeID {
        self.root@
    }

    /// The state invariant that every step preserves.
    pub open spec fn inv(self, g: Database) -> bool {
        inv_parts(g, self.spec_root(), self.seen_seq(), self.stack_seq())
    }
}

/// Membership in an identifier list.
fn contains_id(v: &Vec<NodeID>, x: NodeID) -> (r: bool)
    ensures
        r == v@.contains(x),
{
    let mut i: usize = 0;
    while i < v.len()
        invariant
            i <= v@.len(),
            forall|k: int| 0 <= k < i ==> v@[k] != x,
        decreases v@.len() - i,
    {
        if v[i] == x {
            return true;
        }
        i = i + 1;
    }
    false
}

/// Pushes, in order, every child not yet seen, one level below `d`.
#[verifier::rlimit(60)]
#[verifier::spinoff_prover]
fn push_unseen_children(
    stack: &mut Vec<(NodeID, usize)>,
    seen: &Vec<NodeID>,
    children: &Vec<NodeID>,
    d: usize,
)
    requires
        sorted_strict(children@),
        (exists|c: NodeID| children@.contains(c) && !seen@.contains(c)) ==> d < usize::MAX,
    ensures
        final(stack)@.len() >= old(stack)@.len(),
        final(stack)@.take(old(stack)@.len() as int) == old(stack)@,
        forall|k: int|
            old(stack)@.len() <= k < final(stack)@.len() ==> (#[trigger] final(stack)@[k]).1 == d
                + 1 && children@.contains(final(stack)@[k].0) && !seen@.contains(
                final(stack)@[k].0,
            ),
        forall|k1: int, k2: int|
            old(stack)@.len() <= k1 < k2 < final(stack)@.len()
                ==> final(stack)@[k1].0 < final(stack)@[k2].0,
        forall|c: NodeID|
            children@.contains(c) && !seen@.contains(c) ==> exists|k: int|
                old(stack)@.len() <= k < final(stack)@.len() && (#[trigger] final(stack)@[k]).0
                    == c,
{
    let base_len = stack.len();
    let mut j: usize = 0;
    while j < children.len()
        invariant
            sorted_strict(children@),
            (exists|c: NodeID| children@.contains(c) && !seen@.contains(c)) ==> d < usize::MAX,
            j <= children@.len(),
            base_len <= stack@.len(),
            stack@.take(base_len as int) == old(stack)@,
            base_len == old(stack)@.len(),
            forall|k: int|
                base_len <= k < stack@.len() ==> (#[trigger] stack@[k]).1 == d + 1
                    && children@.contains(stack@[k].0) && !seen@.contains(stack@[k].0),
            forall|k1: int, k2: int|
                base_len <= k1 < k2 < stack@.len() ==> stack@[k1].0 < stack@[k2].0,
            forall|k: int|
                base_len <= k < stack@.len() ==> exists|jj: int|
                    0 <= jj < j && children@[jj] == (#[trigger] stack@[k]).0,
            forall|jj: int|
                0 <= jj < j && !seen@.contains(#[trigger] children@[jj]) ==> exists|k: int|
                    base_len <= k < stack@.len() && (#[trigger] stack@[k]).0 == children@[jj],
        decreases children@.len() - j,
    {
        let c = children[j];
        let ghost before = stack@;
        let c_unseen = !contains_id(seen, c);
        if c_unseen {
            proof {
                assert(children@[j as int] == c);
                assert(children@.contains(c));
                assert forall|k: int| base_len <= k < stack@.len() implies stack@[k].0 < c by {
                    let jj = choose|jj: int|
                        0 <= jj < j && children@[jj] == (#[trigger] stack@[k]).0;
                    assert(children@[jj] < children@[j as int]);
                }
            }
            let nd = d + 1;
            stack.push((c, nd));
            proof {
                assert(stack@.take(base_len as int) =~= before.take(base_len as int));
            }
        }
        proof {
            assert forall|k: int| base_len <= k < stack@.len() implies exists|jj: int|
                0 <= jj < j + 1 && children@[jj] == (#[trigger] stack@[k]).0 by {
                if k < before.len() {
                    assert(stack@[k] == before[k]);
                    let jj = choose|jj: int| 0 <= jj < j && children@[jj] == before[k].0;
                    assert(children@[jj] == stack@[k].0);
                } else {
                    assert(children@[j as int] == stack@[k].0);
                }
            }
            assert forall|jj: int|
                0 <= jj < j + 1 && !seen@.contains(#[trigger] children@[jj]) implies exists|k: int|
                base_len <= k < stack@.len() && (#[trigger] stack@[k]).0 == children@[jj] by {
                if jj == j {
                    assert(c_unseen);
                    assert(stack@[stack@.len() - 1].0 == children@[jj]);
                } else {
                    let k = choose|k: int|
                        base_len <= k < before.len() && before[k].0 == children@[jj];
                    assert(stack@[k].0 == children@[jj]);
                }
            }
        }
        j = j + 1;
    }
}

impl Database {
    /// Starts a depth-first traversal at `root`; `NotFound` when `root` is
    /// not stored.
    pub fn dfs(&self, root: NodeID) -> (r: Result<DFSIter, Error>)
        requires
            self.wf(),
        ensures
            r is Ok <==> self.has_node(root),
            r is Err ==> r == Err::<DFSIter, Error>(Error::NotFound),
            r matches Ok(it) ==> it.inv(*self) && it.spec_root() == root && it.seen_seq()
                == Seq::<NodeID>::empty() && it.stack_seq() == seq![(root, 0usize)],
    {
        if !self.contains_node(root) {
            return Err(Error::NotFound);
        }
        let mut stack: Vec<(NodeID, usize)> = Vec::new();
        stack.push((root, 0));
        let it = DFSIter { seen: Vec::new(), stack, root: Ghost(root) };
        proof {
            assert(it.stack_seq() =~= seq![(root, 0usize)]);
            lemma_reachable_self(*self, root);
            assert(it.stack_seq()[0] == (root, 0usize));
        }
        Ok(it)
    }
}

/// Discarding a pending entry whose node is already seen keeps the
/// invariant: the witness for a child of a seen node is never a seen
/// entry, so it survives below.
proof fn lemma_drop_seen_top(
    g: Database,
    root: NodeID,
    seen: Seq<NodeID>,
    stack: Seq<(NodeID, usize)>,
)
    requires
        inv_parts(g, root, seen, stack),
        stack.len() > 0,
        seen.to_set().contains(stack.last().0),
    ensures
        inv_parts(g, root, seen, stack.drop_last()),
{
    let rest = stack.drop_last();
    assert(forall|k: int| 0 <= k < rest.len() ==> rest[k] == #[trigger] stack[k]);
    assert forall|n: NodeID, c: NodeID|
        seen.to_set().contains(n) && #[trigger] g.edge_set().contains(
            (n, c),
        ) implies seen.to_set().contains(c) || exists|j: int|
        0 <= j < rest.len() && (#[trigger] rest[j]).0 == c by {
        if !seen.to_set().contains(c) {
            let j = choose|j: int| 0 <= j < stack.len() && (#[trigger] stack[j]).0 == c;
            assert(j != stack.len() - 1);
            assert(rest[j].0 == c);
        }
    }
    assert(seen.to_set().contains(root)) by {
        if seen.len() == 0 {
            assert(!seen.to_set().contains(stack.last().0));
        }
    }
}

/// After a yield the seen list is still duplicate-free, stored, reachable.
proof fn lemma_step_seen(
    g: Database,
    root: NodeID,
    n: NodeID,
    d: usize,
    seen1: Seq<NodeID>,
    stack1: Seq<(NodeID, usize)>,
    seen2: Seq<NodeID>,
)
    requires
        inv_parts(g, root, seen1, stack1),
        stack1.len() > 0,
        stack1.last() == (n, d),
        !seen1.to_set().contains(n),
        seen2 == seen1.push(n),
    ensures
        reachable_in(g, root, n, d as nat),
        seen2.no_duplicates(),
        seen2.to_set() == seen1.to_set().insert(n),
        forall|k: int|
            0 <= k < seen2.len() ==> g.has_node(#[trigger] seen2[k]) && reachable(
                g,
                root,
                seen2[k],
            ),
{
    assert(stack1[stack1.len() - 1] == (n, d));
    assert(g.has_node(n) && reachable_in(g, root, n, d as nat));
    lemma_reachable_in_reachable(g, root, n, d as nat);
    assert(seen2.to_set() =~= seen1.to_set().insert(n));
    assert forall|k: int| 0 <= k < seen2.len() implies g.has_node(#[trigger] seen2[k])
        && reachable(g, root, seen2[k]) by {
        if k < seen1.len() {
            assert(seen2[k] == seen1[k]);
        } else {
            assert(seen2[k] == n);
        }
    }
}

/// After a yield every pending entry is stored, reached by a walk of its
/// recorded depth, and no deeper than the seen count.
proof fn lemma_step_stack(
    g: Database,
    root: NodeID,
    n: NodeID,
    d: usize,
    seen1: Seq<NodeID>,
    stack1: Seq<(NodeID, usize)>,
    seen2: Seq<NodeID>,
    stack2: Seq<(NodeID, usize)>,
)
    requires
        inv_parts(g, root, seen1, stack1),
        stack1.len() > 0,
        stack1.last() == (n, d),
        !seen1.to_set().contains(n),
        seen2 == seen1.push(n),
        stack2.len() >= stack1.len() - 1,
        stack2.take(stack1.len() - 1) == stack1.drop_last(),
        pushed_entries_ok(g, n, d, seen2.to_set(), stack1.drop_last(), stack2),
    ensures
        forall|k: int|
            0 <= k < stack2.len() ==> g.has_node((#[trigger] stack2[k]).0) && reachable_in(
                g,
                root,
                stack2[k].0,
                stack2[k].1 as nat,
            ) && stack2[k].1 <= seen2.len(),
{
    let plen = stack1.len() as int;
    let tail = stack2.skip(plen - 1);
    assert(stack1[plen - 1] == (n, d));
    assert(d <= seen1.len());
    assert forall|k: int| 0 <= k < plen - 1 implies stack2[k] == stack1[k] by {
        assert(stack2.take(plen - 1)[k] == stack1.drop_last()[k]);
    }
    assert(forall|k: int| 0 <= k < tail.len() ==> #[trigger] tail[k] == stack2[plen - 1 + k]);
    assert forall|k: int| 0 <= k < stack2.len() implies g.has_node((#[trigger] stack2[k]).0)
        && reachable_in(g, root, stack2[k].0, stack2[k].1 as nat) && stack2[k].1
        <= seen2.len() by {
        if k < plen - 1 {
            assert(stack2[k] == stack1[k]);
            assert(seen1.len() <= seen2.len());
        } else {
            let e = stack2[k];
            assert(tail[k - (plen - 1)] == e);
            assert(g.edge_set().contains((n, e.0)));
            lemma_edge_endpoints(g, (n, e.0));
            lemma_path_extend(g, root, n, e.0, d as nat);
            assert(seen2.len() == seen1.len() + 1);
        }
    }
}

/// After a yield every child of a seen node is seen or pending.
#[verifier::rlimit(60)]
#[verifier::spinoff_prover]
proof fn lemma_step_closure(
    g: Database,
    root: NodeID,
    n: NodeID,
    d: usize,
    seen1: Seq<NodeID>,
    stack1: Seq<(NodeID, usize)>,
    seen2: Seq<NodeID>,
    stack2: Seq<(NodeID, usize)>,
)
    requires
        inv_parts(g, root, seen1, stack1),
        stack1.len() > 0,
        stack1.last() == (n, d),
        !seen1.to_set().contains(n),
        seen2 == seen1.push(n),
        stack2.len() >= stack1.len() - 1,
        stack2.take(stack1.len() - 1) == stack1.drop_last(),
        pushed_entries_ok(g, n, d, seen2.to_set(), stack1.drop_last(), stack2),
    ensures
        forall|m: NodeID, c: NodeID|
            seen2.to_set().contains(m) && #[trigger] g.edge_set().contains((m, c))
                ==> seen2.to_set().contains(c) || exists|j: int|
                0 <= j < stack2.len() && (#[trigger] stack2[j]).0 == c,
{
    let plen = stack1.len() as int;
    let tail = stack2.skip(plen - 1);
    assert forall|k: int| 0 <= k < plen - 1 implies stack2[k] == stack1[k] by {
        assert(stack2.take(plen - 1)[k] == stack1.drop_last()[k]);
    }
    assert(forall|k: int| 0 <= k < tail.len() ==> #[trigger] tail[k] == stack2[plen - 1 + k]);
    assert forall|m: NodeID, c: NodeID|
        seen2.to_set().contains(m) && #[trigger] g.edge_set().contains(
            (m, c),
        ) implies seen2.to_set().contains(c) || exists|j2: int|
        0 <= j2 < stack2.len() && (#[trigger] stack2[j2]).0 == c by {
        if m == n {
            if !seen2.to_set().contains(c) {
                let jt = choose|jt: int| 0 <= jt < tail.len() && (#[trigger] tail[jt]).0 == c;
                assert(stack2[plen - 1 + jt].0 == c);
            }
        } else {
            assert(seen1.to_set().contains(m));
            if seen1.to_set().contains(c) {
                assert(seen2.to_set().contains(c));
            } else {
                let j2 = choose|j2: int|
                    0 <= j2 < stack1.len() && (#[trigger] stack1[j2]).0 == c;
                if j2 < plen - 1 {
                    assert(stack2[j2].0 == c);
                } else {
                    assert(stack1[j2].0 == n);
                    assert(seen2.to_set().contains(c));
                }
            }
        }
    }
}

/// One yield keeps the invariant.
proof fn lemma_step_preserves_inv(
    g: Database,
    root: NodeID,
    n: NodeID,
    d: usize,
    seen1: Seq<NodeID>,
    stack1: Seq<(NodeID, usize)>,
    seen2: Seq<NodeID>,
    stack2: Seq<(NodeID, usize)>,
)
    requires
        inv_parts(g, root, seen1, stack1),
        stack1.len() > 0,
        stack1.last() == (n, d),
        !seen1.to_set().contains(n),
        seen2 == seen1.push(n),
        stack2.len() >= stack1.len() - 1,
        stack2.take(stack1.len() - 1) == stack1.drop_last(),
        pushed_entries_ok(g, n, d, seen2.to_set(), stack1.drop_last(), stack2),
    ensures
        inv_parts(g, root, seen2, stack2),
        reachable_in(g, root, n, d as nat),
        seen2.to_set() == seen1.to_set().insert(n),
{
    lemma_step_seen(g, root, n, d, seen1, stack1, seen2);
    lemma_step_stack(g, root, n, d, seen1, stack1, seen2, stack2);
    lemma_step_closure(g, root, n, d, seen1, stack1, seen2, stack2);
    assert(seen2.to_set().contains(root)) by {
        if !seen1.to_set().contains(root) {
            assert(seen1.len() == 0 || seen1.to_set().contains(root));
            assert(stack1 =~= seq![(root, 0usize)]);
            assert(stack1[stack1.len() - 1] == (root, 0usize));
            assert(seen2[seen1.len() as int] == n);
            assert(seen2.to_set().contains(n));
        }
    }
}

impl DFSIter {
    /// One step: pops entries until one whose node is not yet seen turns
    /// up, marks it seen, pushes its not-yet-seen children one level
    /// deeper, and yields it; `None` once nothing unseen is pending, and
    /// from then on forever (the stack is left empty).
    #[verifier::rlimit(60)]
    #[verifier::spinoff_prover]
    pub fn next(&mut self, g: &Database) -> (r: Option<(NodeID, usize)>)
        requires
            old(self).inv(*g),
        ensures
            final(self).inv(*g),
            final(self).spec_root() == old(self).spec_root(),
            ({
                let j = top_unseen(old(self).stack_seq(), old(self).seen_set());
                if j < 0 {
                    r is None && final(self).seen_seq() == old(self).seen_seq()
                        && final(self).stack_seq().len() == 0
                } else {
                    &&& r == Some(old(self).stack_seq()[j])
                    &&& step_rel(
                        *g,
                        old(self).seen_seq(),
                        old(self).stack_seq(),
                        final(self).seen_seq(),
                        final(self).stack_seq(),
                        old(self).stack_seq()[j],
                    )
                    &&& final(self).seen_seq() == old(self).seen_seq().push(
                        old(self).stack_seq()[j].0,
                    )
                    &&& final(self).seen_set() == old(self).seen_set().insert(
                        old(self).stack_seq()[j].0,
                    )
                    &&& reachable_in(
                        *g,
                        old(self).spec_root(),
                        old(self).stack_seq()[j].0,
                        old(self).stack_seq()[j].1 as nat,
                    )
                }
            }),
    {
        let ghost root = self.spec_root();
        let ghost seen0 = self.seen@;
        let ghost stack0 = self.stack@;
        let ghost j = top_unseen(stack0, seen0.to_set());
        proof {
            lemma_top_unseen(stack0, seen0.to_set());
        }
        loop
            invariant
                root == old(self).spec_root(),
                seen0 == old(self).seen_seq(),
                stack0 == old(self).stack_seq(),
                self.spec_root() == root,
                self.seen@ == seen0,
                inv_parts(*g, root, seen0, self.stack@),
                self.stack@.len() <= stack0.len(),
                self.stack@ == stack0.take(self.stack@.len() as int),
                forall|k: int|
                    self.stack@.len() <= k < stack0.len() ==> seen0.to_set().contains(
                        (#[trigger] stack0[k]).0,
                    ),
                j == top_unseen(stack0, seen0.to_set()),
                j < self.stack@.len(),
            decreases self.stack@.len(),
        {
            let ghost pre_stack = self.stack@;
            proof {
                lemma_top_unseen(stack0, seen0.to_set());
            }
            let popped = self.stack.pop();
            let (n, d) = match popped {
                None => {
                    proof {
                        assert(j < 0);
                    }
                    return None;
                },
                Some(p) => p,
            };
            proof {
                assert(pre_stack.len() <= stack0.len());
                assert(pre_stack == stack0.take(pre_stack.len() as int));
                assert(pre_stack.last() == stack0.take(pre_stack.len() as int)[pre_stack.len()
                    - 1]);
                assert(pre_stack.last() == stack0[pre_stack.len() - 1]);
                assert(self.stack@ =~= stack0.take(pre_stack.len() - 1));
            }
            if contains_id(&self.seen, n) {
                proof {
                    lemma_drop_seen_top(*g, root, seen0, pre_stack);
                    // the cursor entry is unseen, so it sits strictly below
                    assert(j < self.stack@.len()) by {
                        if j == pre_stack.len() - 1 {
                            assert(!seen0.to_set().contains(stack0[j].0));
                            assert(stack0[j].0 == n);
                        }
                    }
                }
                // a duplicate discovery of an already-visited node: skip it
            } else {
                proof {
                    // this entry is the cursor: everything above it was seen
                    let li = pre_stack.len() - 1;
                    assert(stack0[li] == (n, d));
                    assert(!seen0.to_set().contains(n));
                    assert(j == li) by {
                        if j > li {
                            assert(seen0.to_set().contains(stack0[j].0));
                            assert(false);
                        }
                        if 0 <= j < li {
                            assert(seen0.to_set().contains(stack0[li].0));
                            assert(false);
                        }
                        if j < 0 {
                            assert(seen0.to_set().contains(stack0[li].0));
                            assert(false);
                        }
                    }
                    assert((n, d) == stack0[j]);
                    assert(d <= seen0.len()) by {
                        assert(pre_stack[pre_stack.len() - 1] == (n, d));
                    }
                }
                self.seen.push(n);
                let seen_len = self.seen.len();
                proof {
                    assert(self.seen@.to_set() =~= seen0.to_set().insert(n));
                    assert(d < seen_len);
                }
                let children = g.children_sorted(n);
                let ghost base = self.stack@;
                proof {
                    assert forall|c: NodeID|
                        children@.contains(c) && !self.seen@.contains(c) implies d
                        < usize::MAX by {}
                }
                push_unseen_children(&mut self.stack, &self.seen, &children, d);
                proof {
                    let post_stack = self.stack@;
                    let tail = post_stack.skip(base.len() as int);
                    assert(base == pre_stack.drop_last());
                    assert forall|j2: int| 0 <= j2 < tail.len() implies (#[trigger] tail[j2]).1
                        == d + 1 && g.edge_set().contains((n, tail[j2].0))
                        && !self.seen@.to_set().contains(tail[j2].0) by {
                        assert(tail[j2] == post_stack[base.len() + j2]);
                        assert(children@.contains(post_stack[base.len() + j2].0));
                    }
                    assert forall|j1: int, j2: int| 0 <= j1 < j2 < tail.len() implies tail[j1].0
                        < tail[j2].0 by {
                        assert(post_stack[base.len() + j1].0 < post_stack[base.len() + j2].0);
                    }
                    assert forall|c: NodeID| #[trigger]
                        g.edge_set().contains((n, c)) && !self.seen@.to_set().contains(
                        c,
                    ) implies exists|k: int| 0 <= k < tail.len() && (#[trigger] tail[k]).0
                        == c by {
                        assert(children@.contains(c));
                        assert(!self.seen@.contains(c));
                        let k = choose|k: int|
                            base.len() <= k < post_stack.len() && (#[trigger] post_stack[k]).0
                                == c;
                        assert(tail[k - base.len()].0 == c);
                    }
                    assert(pushed_entries_ok(*g, n, d, self.seen@.to_set(), base, post_stack));
                    lemma_step_preserves_inv(
                        *g,
                        root,
                        n,
                        d,
                        seen0,
                        pre_stack,
                        self.seen@,
                        post_stack,
                    );
                    assert(pre_stack.take(j) =~= stack0.take(j));
                    assert(post_stack.take(j) =~= base.take(j));
                    assert(base.take(j) =~= pre_stack.take(j));
                    assert(pushed_entries_ok(*g, n, d, self.seen@.to_set(), stack0.take(j), post_stack)) by {
                        assert(stack0.take(j).len() == base.len());
                    }
                    assert(step_rel(*g, seen0, stack0, self.seen@, post_stack, (n, d)));
                }
                return Some((n, d));
            }
        }
    }
}

/// Runs a fresh traversal from `root` to completion and collects every
/// yielded `(node, depth)` pair, in yield order.
///
/// The traversal terminates on every graph, cycles included. Exactly the
/// nodes reachable from `root` are yielded, each exactly once; each
/// yielded depth is the number of edges of some walk from `root` to that
/// node; and the whole sequence is the unique complete run of the step
/// relation from the fresh state, which fixes the yield order.
#[verifier::rlimit(100)]
#[verifier::spinoff_prover]
pub fn dfs_all(g: &Database, root: NodeID) -> (r: Result<Vec<(NodeID, usize)>, Error>)
    requires
        g.wf(),
    ensures
        r is Ok <==> g.has_node(root),
        r is Err ==> r == Err::<Vec<(NodeID, usize)>, Error>(Error::NotFound),
        r matches Ok(v) ==> {
            &&& v@.len() >= 1 && v@[0] == (root, 0usize)
            &&& forall|b: NodeID| #[trigger]
                reachable(*g, root, b) <==> exists|k: int|
                    0 <= k < v@.len() && (#[trigger] v@[k]).0 == b
            &&& forall|k: int|
                0 <= k < v@.len() ==> reachable_in(*g, root, (#[trigger] v@[k]).0, v@[k].1 as nat)
            &&& forall|k1: int, k2: int| 0 <= k1 < k2 < v@.len() ==> v@[k1].0 != v@[k2].0
            &&& exists|seens: Seq<Seq<NodeID>>, stacks: Seq<Seq<(NodeID, usize)>>|
                trace_ok(*g, root, seens, stacks, v@)
        },
{
    let mut it = match g.dfs(root) {
        Err(e) => {
            return Err(e);
        },
        Ok(it) => it,
    };
    let mut out: Vec<(NodeID, usize)> = Vec::new();
    let ghost mut seens: Seq<Seq<NodeID>> = seq![it.seen_seq()];
    let ghost mut stacks: Seq<Seq<(NodeID, usize)>> = seq![it.stack_seq()];
    proof {
        assert(it.stack_seq()[0] == (root, 0usize));
    }
    loop
        invariant_except_break
            seens.last() == it.seen_seq(),
            stacks.last() == it.stack_seq(),
        invariant
            it.inv(*g),
            it.spec_root() == root,
            it.seen_seq().len() <= g.spec_node_count(),
            forall|b: NodeID| #[trigger]
                it.seen_set().contains(b) <==> exists|k: int|
                    0 <= k < out@.len() && (#[trigger] out@[k]).0 == b,
            out@.len() == 0 ==> it.seen_seq().len() == 0 && it.stack_seq() == seq![
                (root, 0usize),
            ],
            out@.len() > 0 ==> out@[0] == (root, 0usize),
            forall|k: int|
                0 <= k < out@.len() ==> reachable_in(*g, root, (#[trigger] out@[k]).0, out@[k].1 as nat),
            forall|k1: int, k2: int| 0 <= k1 < k2 < out@.len() ==> out@[k1].0 != out@[k2].0,
            seens.len() == out@.len() + 1,
            stacks.len() == out@.len() + 1,
            seens[0] == Seq::<NodeID>::empty(),
            stacks[0] == seq![(root, 0usize)],
            forall|k: int|
                0 <= k < out@.len() ==> step_rel(
                    *g,
                    #[trigger] seens[k],
                    stacks[k],
                    seens[k + 1],
                    stacks[k + 1],
                    out@[k],
                ),
        ensures
            it.inv(*g),
            top_unseen(it.stack_seq(), it.seen_set()) < 0,
            it.stack_seq().len() == 0,
            forall|b: NodeID| #[trigger]
                it.seen_set().contains(b) <==> exists|k: int|
                    0 <= k < out@.len() && (#[trigger] out@[k]).0 == b,
            out@.len() == 0 ==> it.seen_seq().len() == 0 && it.stack_seq() == seq![
                (root, 0usize),
            ],
            out@.len() > 0 ==> out@[0] == (root, 0usize),
            forall|k: int|
                0 <= k < out@.len() ==> reachable_in(*g, root, (#[trigger] out@[k]).0, out@[k].1 as nat),
            forall|k1: int, k2: int| 0 <= k1 < k2 < out@.len() ==> out@[k1].0 != out@[k2].0,
            trace_ok(*g, root, seens, stacks, out@),
        decreases g.spec_node_count() - it.seen_seq().len(),
    {
        let ghost pre = it;
        match it.next(g) {
            None => {
                proof {
                    assert(trace_ok(*g, root, seens, stacks, out@)) by {
                        assert(top_unseen(pre.stack_seq(), pre.seen_set()) < 0);
                        assert(seens[out@.len() as int] == pre.seen_seq());
                        assert(stacks[out@.len() as int] == pre.stack_seq());
                        assert(it.seen_seq() == pre.seen_seq());
                    }
                }
                break ;
            },
            Some(p) => {
                let ghost j = top_unseen(pre.stack_seq(), pre.seen_set());
                let ghost n = pre.stack_seq()[j].0;
                let ghost pre_out = out@;
                out.push(p);
                proof {
                    seens = seens.push(it.seen_seq());
                    stacks = stacks.push(it.stack_seq());
                    assert(j >= 0);
                    assert(p == pre.stack_seq()[j]);
                    lemma_top_unseen(pre.stack_seq(), pre.seen_set());
                    assert(!pre.seen_set().contains(n));
                    lemma_distinct_ids_bound(*g, it.seen_seq());
                    // the seen set still mirrors the yielded nodes
                    assert forall|b: NodeID| #[trigger] it.seen_set().contains(b) implies exists|
                        k: int,
                    | 0 <= k < out@.len() && (#[trigger] out@[k]).0 == b by {
                        if b == n {
                            assert(out@[out@.len() - 1].0 == b);
                        } else {
                            assert(pre.seen_set().contains(b));
                            let k = choose|k: int|
                                0 <= k < pre_out.len() && (#[trigger] pre_out[k]).0 == b;
                            assert(out@[k].0 == b);
                        }
                    }
                    assert forall|b: NodeID| (exists|k: int|
                        0 <= k < out@.len() && (#[trigger] out@[k]).0 == b) implies #[trigger] it
                        .seen_set().contains(b) by {
                        let k = choose|k: int| 0 <= k < out@.len() && (#[trigger] out@[k]).0 == b;
                        if k < pre_out.len() {
                            assert(pre_out[k].0 == b);
                            assert(pre.seen_set().contains(b));
                        }
                    }
                    // the first yield is the root at depth zero
                    if pre_out.len() == 0 {
                        assert(pre.stack_seq() == seq![(root, 0usize)]);
                        assert(pre.stack_seq()[0] == (root, 0usize));
                        assert(j == 0);
                        assert(out@[0] == (root, 0usize));
                    } else {
                        assert(out@[0] == pre_out[0]);
                    }
                    // a yielded node was unseen, so it never repeats
                    assert forall|k1: int, k2: int|
                        0 <= k1 < k2 < out@.len() implies out@[k1].0 != out@[k2].0 by {
                        if k2 == out@.len() - 1 {
                            assert(pre_out[k1].0 == out@[k1].0);
                            if out@[k1].0 == n {
                                assert(pre.seen_set().contains(n));
                            }
                        }
                    }
                    // the trace grows by one step of the relation
                    assert forall|k: int| 0 <= k < out@.len() implies step_rel(
                        *g,
                        #[trigger] seens[k],
                        stacks[k],
                        seens[k + 1],
                        stacks[k + 1],
                        out@[k],
                    ) by {
                        if k < out@.len() - 1 {
                            assert(seens[k] == seens.drop_last()[k]);
                        } else {
                            assert(seens[k] == pre.seen_seq());
                            assert(stacks[k] == pre.stack_seq());
                            assert(seens[k + 1] == it.seen_seq());
                            assert(stacks[k + 1] == it.stack_seq());
                        }
                    }
                }
            },
        }
    }
    proof {
        // with nothing unseen pending and an empty stack, the seen set is
        // closed under children and holds the root, so it holds everything
        // reachable
        assert(it.seen_set().contains(root)) by {
            if it.seen_seq().len() == 0 {
                assert(it.stack_seq() =~= seq![(root, 0usize)]);
            }
        }
        assert forall|m: NodeID, c: NodeID|
            it.seen_set().contains(m) && #[trigger] g.edge_set().contains(
                (m, c),
            ) implies it.seen_set().contains(c) by {
            if !it.seen_set().contains(c) {
                let j = choose|j: int|
                    0 <= j < it.stack_seq().len() && (#[trigger] it.stack_seq()[j]).0 == c;
                assert(false);
            }
        }
        assert forall|b: NodeID| #[trigger] reachable(*g, root, b) implies it.seen_set().contains(
            b,
        ) by {
            reveal(reachable);
            let pth = choose|pth: Seq<NodeID>| path_between(*g, pth, root, b);
            lemma_path_in_closed(*g, it.seen_set(), pth);
        }
        assert forall|b: NodeID| it.seen_set().contains(b) implies #[trigger] reachable(
            *g,
            root,
            b,
        ) by {
            let k = choose|k: int| 0 <= k < it.seen_seq().len() && it.seen_seq()[k] == b;
            assert(reachable(*g, root, it.seen_seq()[k]));
        }
        assert(out@.len() >= 1) by {
            if out@.len() == 0 {
                assert(it.stack_seq() == seq![(root, 0usize)]);
            }
        }
        assert(trace_ok(*g, root, seens, stacks, out@));
    }
    Ok(out)
}

/// The identifiers of the visited nodes that have no outgoing edge, in
/// visit order.
pub open spec fn leaf_ids(g: Database, visited: Seq<(NodeID, usize)>) -> Seq<NodeID>
    decreases visited.len(),
{
    if visited.len() == 0 {
        Seq::empty()
    } else {
        let rest = leaf_ids(g, visited.drop_last());
        if !g.has_children_spec(visited.last().0) {
            rest.push(visited.last().0)
        } else {
            rest
        }
    }
}

/// The actionable nodes among traversal output: the visited nodes with no
/// outgoing edge, in visit order.
pub fn leaves_of(g: &Database, visited: &Vec<(NodeID, usize)>) -> (r: Vec<NodeID>)
    ensures
        r@ == leaf_ids(*g, visited@),
{
    let mut r: Vec<NodeID> = Vec::new();
    let mut i: usize = 0;
    while i < visited.len()
        invariant
            i <= visited@.len(),
            r@ == leaf_ids(*g, visited@.take(i as int)),
        decreases visited@.len() - i,
    {
        let id = visited[i].0;
        proof {
            let t1 = visited@.take(i + 1);
            assert(t1.drop_last() =~= visited@.take(i as int));
            assert(t1.last() == visited@[i as int]);
        }
        if !g.has_outgoing(id) {
            r.push(id);
        }
        i = i + 1;
    }
    proof {
        assert(visited@.take(visited@.len() as int) =~= visited@);
    }
    r
}

} // verus!
