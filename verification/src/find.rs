//! The fuzzy title matcher: a dynamic-programming edit distance over
//! character sequences with asymmetric costs, and the candidate filter
//! built on it.
//!
//! Insertions (extending the query toward the title) are free, so a query
//! that is a prefix or a partial typing of a title scores 0; deletions and
//! substitutions cost 1 each. A node qualifies as a candidate exactly when
//! its title's distance to the query is strictly below `MAX_DISTANCE`.
//! The matcher searches every stored node: the model has no notion of an
//! archived or completed task.

use vstd::multiset::Multiset;
use vstd::prelude::*;
use vstd::string::StrSliceExecFns;

use crate::db::Database;
use crate::node::Node;

verus! {

pub const INSERT_COST: usize = 0;

pub const DELETE_COST: usize = 1;

pub const REPLACE_COST: usize = 1;

/// A node qualifies when its distance is strictly below this bound.
pub const MAX_DISTANCE: usize = 5;

pub open spec fn min3(a: nat, b: nat, c: nat) -> nat {
    if a <= b && a <= c {
        a
    } else if b <= c {
        b
    } else {
        c
    }
}

/// One cell of the distance table: the cost of turning the first `i`
/// characters of `q` into the first `j` characters of `t`. The base row
/// charges `INSERT_COST` per title character; the base column charges 1
/// per query character.
pub open spec fn lev_cell(q: Seq<char>, t: Seq<char>, i: nat, j: nat) -> nat
    decreases i + j,
{
    if i == 0 {
        (j * (INSERT_COST as nat)) as nat
    } else if j == 0 {
        i
    } else {
        min3(
            lev_cell(q, t, (i - 1) as nat, j) + (DELETE_COST as nat),
            lev_cell(q, t, i, (j - 1) as nat) + (INSERT_COST as nat),
            lev_cell(q, t, (i - 1) as nat, (j - 1) as nat) + (if q[i - 1] == t[j - 1] {
                0nat
            } else {
                REPLACE_COST as nat
            }),
        )
    }
}

/// The distance from query `q` to title `t`: the final cell of the table.
pub open spec fn lev(q: Seq<char>, t: Seq<char>) -> nat {
    lev_cell(q, t, q.len(), t.len())
}

/// A cell never exceeds its row index: deleting every query character
/// considered so far is always available.
pub proof fn lemma_lev_cell_le_i(q: Seq<char>, t: Seq<char>, i: nat, j: nat)
    ensures
        lev_cell(q, t, i, j) <= i,
    decreases i + j,
{
    if i == 0 {
    } else if j == 0 {
    } else {
        lemma_lev_cell_le_i(q, t, i, (j - 1) as nat);
    }
}

/// A cell is at least the number of query characters that cannot be
/// matched against title characters.
pub proof fn lemma_lev_cell_ge_diff(q: Seq<char>, t: Seq<char>, i: nat, j: nat)
    ensures
        lev_cell(q, t, i, j) + j >= i,
    decreases i + j,
{
    if i == 0 {
    } else if j == 0 {
    } else {
        lemma_lev_cell_ge_diff(q, t, (i - 1) as nat, j);
        lemma_lev_cell_ge_diff(q, t, i, (j - 1) as nat);
        lemma_lev_cell_ge_diff(q, t, (i - 1) as nat, (j - 1) as nat);
    }
}

/// When the first `i` characters of the query match the title, the cell is
/// 0: the remaining title characters are free insertions.
pub proof fn lemma_lev_cell_prefix_zero(q: Seq<char>, t: Seq<char>, i: nat, j: nat)
    requires
        i <= j,
        i <= q.len(),
        j <= t.len(),
        forall|k: int| 0 <= k < i ==> q[k] == t[k],
    ensures
        lev_cell(q, t, i, j) == 0,
    decreases i + j,
{
    if i == 0 {
    } else if j > i {
        lemma_lev_cell_prefix_zero(q, t, i, (j - 1) as nat);
    } else {
        lemma_lev_cell_prefix_zero(q, t, (i - 1) as nat, (j - 1) as nat);
    }
}

/// A zero diagonal cell forces the prefixes to agree character by
/// character.
pub proof fn lemma_lev_cell_zero_eq(q: Seq<char>, t: Seq<char>, i: nat)
    requires
        i <= q.len(),
        i <= t.len(),
        lev_cell(q, t, i, i) == 0,
    ensures
        forall|k: int| 0 <= k < i ==> q[k] == t[k],
    decreases i,
{
    if i > 0 {
        lemma_lev_cell_ge_diff(q, t, i, (i - 1) as nat);
        assert(lev_cell(q, t, i, (i - 1) as nat) >= 1);
        assert(lev_cell(q, t, (i - 1) as nat, (i - 1) as nat) == 0 && q[i - 1] == t[i - 1]);
        lemma_lev_cell_zero_eq(q, t, (i - 1) as nat);
    }
}

/// How many of the first `i` positions differ between `q` and `t`.
pub open spec fn mismatch_count(q: Seq<char>, t: Seq<char>, i: nat) -> nat
    decreases i,
{
    if i == 0 {
        0
    } else {
        mismatch_count(q, t, (i - 1) as nat) + (if q[i - 1] == t[i - 1] {
            0nat
        } else {
            1nat
        })
    }
}

/// Substituting every mismatched position bounds the diagonal cell.
pub proof fn lemma_lev_cell_le_mismatches(q: Seq<char>, t: Seq<char>, i: nat)
    ensures
        lev_cell(q, t, i, i) <= mismatch_count(q, t, i),
    decreases i,
{
    if i > 0 {
        lemma_lev_cell_le_mismatches(q, t, (i - 1) as nat);
    }
}

/// The first `i` characters of `q` appear, in order, among the first `j`
/// characters of `t`.
pub open spec fn subseq_at(q: Seq<char>, t: Seq<char>, i: nat, j: nat) -> bool
    decreases i + j,
{
    if i == 0 {
        true
    } else if j == 0 {
        false
    } else if q[i - 1] == t[j - 1] {
        subseq_at(q, t, (i - 1) as nat, (j - 1) as nat) || subseq_at(q, t, i, (j - 1) as nat)
    } else {
        subseq_at(q, t, i, (j - 1) as nat)
    }
}

/// The query's characters appear, in order, in the title.
pub open spec fn subsequence(q: Seq<char>, t: Seq<char>) -> bool {
    subseq_at(q, t, q.len(), t.len())
}

proof fn lemma_lev_cell_zero_of_subseq(q: Seq<char>, t: Seq<char>, i: nat, j: nat)
    requires
        i <= q.len(),
        j <= t.len(),
        subseq_at(q, t, i, j),
    ensures
        lev_cell(q, t, i, j) == 0,
    decreases i + j,
{
    if i == 0 {
    } else if q[i - 1] == t[j - 1] && subseq_at(q, t, (i - 1) as nat, (j - 1) as nat) {
        lemma_lev_cell_zero_of_subseq(q, t, (i - 1) as nat, (j - 1) as nat);
    } else {
        lemma_lev_cell_zero_of_subseq(q, t, i, (j - 1) as nat);
    }
}

proof fn lemma_lev_cell_subseq_of_zero(q: Seq<char>, t: Seq<char>, i: nat, j: nat)
    requires
        i <= q.len(),
        j <= t.len(),
        lev_cell(q, t, i, j) == 0,
    ensures
        subseq_at(q, t, i, j),
    decreases i + j,
{
    if i == 0 {
    } else {
        assert(j > 0);
        if lev_cell(q, t, i, (j - 1) as nat) == 0 {
            lemma_lev_cell_subseq_of_zero(q, t, i, (j - 1) as nat);
        } else {
            assert(q[i - 1] == t[j - 1] && lev_cell(q, t, (i - 1) as nat, (j - 1) as nat) == 0);
            lemma_lev_cell_subseq_of_zero(q, t, (i - 1) as nat, (j - 1) as nat);
        }
    }
}

/// The distance is 0 exactly when the query's characters appear, in order,
/// in the title: matches and free insertions cover it, and nothing else is
/// free.
pub proof fn lemma_distance_zero_iff_subsequence(q: Seq<char>, t: Seq<char>)
    ensures
        lev(q, t) == 0 <==> subsequence(q, t),
{
    if subsequence(q, t) {
        lemma_lev_cell_zero_of_subseq(q, t, q.len(), t.len());
    }
    if lev(q, t) == 0 {
        lemma_lev_cell_subseq_of_zero(q, t, q.len(), t.len());
    }
}

/// A query equal to the title is at distance 0.
pub proof fn lemma_distance_equal(q: Seq<char>, t: Seq<char>)
    requires
        q == t,
    ensures
        lev(q, t) == 0,
{
    lemma_lev_cell_prefix_zero(q, t, q.len(), t.len());
}

/// A query that is a prefix of the title is at distance 0: the unmatched
/// title suffix costs only insertions.
pub proof fn lemma_distance_prefix(q: Seq<char>, t: Seq<char>)
    requires
        q.len() <= t.len(),
        q == t.take(q.len() as int),
    ensures
        lev(q, t) == 0,
{
    assert forall|k: int| 0 <= k < q.len() implies q[k] == t[k] by {
        assert(q[k] == t.take(q.len() as int)[k]);
    }
    lemma_lev_cell_prefix_zero(q, t, q.len(), t.len());
}

/// A query of the title's length with exactly one wrong character is at
/// distance exactly 1.
pub proof fn lemma_distance_one_substitution(q: Seq<char>, t: Seq<char>)
    requires
        q.len() == t.len(),
        mismatch_count(q, t, q.len()) == 1,
    ensures
        lev(q, t) == 1,
{
    lemma_lev_cell_le_mismatches(q, t, q.len());
    if lev(q, t) == 0 {
        lemma_lev_cell_zero_eq(q, t, q.len());
        assert forall|i: nat| i <= q.len() implies mismatch_count(q, t, i) == 0 by {
            lemma_mismatch_zero(q, t, i);
        }
    }
}

proof fn lemma_mismatch_zero(q: Seq<char>, t: Seq<char>, i: nat)
    requires
        i <= q.len(),
        i <= t.len(),
        forall|k: int| 0 <= k < i ==> q[k] == t[k],
    ensures
        mismatch_count(q, t, i) == 0,
    decreases i,
{
    if i > 0 {
        lemma_mismatch_zero(q, t, (i - 1) as nat);
    }
}

/// The characters of a string, in order.
fn chars_of(s: &str) -> (v: Vec<char>)
    ensures
        v@ == s@,
{
    let n = s.unicode_len();
    let mut v: Vec<char> = Vec::new();
    let mut i: usize = 0;
    while i < n
        invariant
            n == s@.len(),
            i <= n,
            v@.len() == i,
            forall|k: int| 0 <= k < i ==> v@[k] == s@[k],
        decreases n - i,
    {
        v.push(s.get_char(i));
        i = i + 1;
    }
    proof {
        assert(v@ =~= s@);
    }
    v
}

/// The edit distance from `from` (the query) to `to` (the title), by the
/// two-row dynamic program.
pub fn levenshtein_distance(from: &str, to: &str) -> (r: usize)
    requires
        from@.len() < usize::MAX,
        to@.len() < usize::MAX,
    ensures
        r == lev(from@, to@),
{
    let from_chars = chars_of(from);
    let to_chars = chars_of(to);
    let ghost q = from@;
    let ghost t = to@;
    let m = from_chars.len();
    let n = to_chars.len();

    let mut last_row: Vec<usize> = Vec::new();
    let mut this_row: Vec<usize> = Vec::new();
    let mut i: usize = 0;
    while i < n + 1
        invariant
            n == t.len(),
            n < usize::MAX,
            i <= n + 1,
            last_row@.len() == i,
            this_row@.len() == i,
            forall|k: int| 0 <= k < i ==> last_row@[k] == lev_cell(q, t, 0, k as nat),
        decreases n + 1 - i,
    {
        last_row.push(i * INSERT_COST);
        this_row.push(0);
        i = i + 1;
    }

    let mut i: usize = 0;
    while i < m
        invariant
            m == q.len(),
            n == t.len(),
            from_chars@ == q,
            to_chars@ == t,
            i <= m,
            last_row@.len() == n + 1,
            this_row@.len() == n + 1,
            forall|k: int| 0 <= k <= n ==> last_row@[k] == lev_cell(q, t, i as nat, k as nat),
        decreases m - i,
    {
        this_row[0] = i + 1;
        let mut j: usize = 0;
        while j < n
            invariant
                m == q.len(),
                n == t.len(),
                i < m,
                j <= n,
                from_chars@ == q,
                to_chars@ == t,
                last_row@.len() == n + 1,
                this_row@.len() == n + 1,
                forall|k: int| 0 <= k <= n ==> last_row@[k] == lev_cell(q, t, i as nat, k as nat),
                forall|k: int| 0 <= k <= j ==> this_row@[k] == lev_cell(q, t, (i + 1) as nat, k as nat),
            decreases n - j,
        {
            proof {
                lemma_lev_cell_le_i(q, t, i as nat, (j + 1) as nat);
                lemma_lev_cell_le_i(q, t, (i + 1) as nat, j as nat);
                lemma_lev_cell_le_i(q, t, i as nat, j as nat);
            }
            let deletion_cost = last_row[j + 1] + DELETE_COST;
            let insertion_cost = this_row[j] + INSERT_COST;
            let replacement_cost = if from_chars[i] == to_chars[j] {
                last_row[j]
            } else {
                last_row[j] + REPLACE_COST
            };
            let mut best = deletion_cost;
            if insertion_cost < best {
                best = insertion_cost;
            }
            if replacement_cost < best {
                best = replacement_cost;
            }
            this_row[j + 1] = best;
            proof {
                assert(this_row@[j + 1] == lev_cell(q, t, (i + 1) as nat, (j + 1) as nat));
            }
            j = j + 1;
        }
        let tmp = last_row;
        last_row = this_row;
        this_row = tmp;
        i = i + 1;
    }
    last_row[n]
}

/// How a search is asked for from the command line: the text to match
/// titles against.
#[derive(Debug)]
pub struct Args {
    pub text: String,
}

/// The candidates drawn from a stored record sequence: each node whose
/// title is strictly closer than `MAX_DISTANCE` to the query, paired with
/// its distance, in storage order.
pub open spec fn candidate_seq(nodes: Seq<Node>, q: Seq<char>) -> Seq<(Node, usize)>
    decreases nodes.len(),
{
    if nodes.len() == 0 {
        Seq::empty()
    } else {
        let rest = candidate_seq(nodes.drop_last(), q);
        if lev(q, nodes.last().title@) < MAX_DISTANCE {
            rest.push((nodes.last(), lev(q, nodes.last().title@) as usize))
        } else {
            rest
        }
    }
}

/// Candidates carry exactly their distance, and every stored node below
/// the threshold is a candidate: strictly below is kept, the threshold
/// itself is excluded.
pub proof fn lemma_candidate_threshold(nodes: Seq<Node>, q: Seq<char>)
    ensures
        forall|k: int|
            0 <= k < candidate_seq(nodes, q).len() ==> (#[trigger] candidate_seq(nodes, q)[k]).1
                == lev(q, candidate_seq(nodes, q)[k].0.title@) && candidate_seq(nodes, q)[k].1
                < MAX_DISTANCE,
        forall|i: int|
            0 <= i < nodes.len() && lev(q, (#[trigger] nodes[i]).title@) < MAX_DISTANCE
                ==> candidate_seq(nodes, q).contains(
                (nodes[i], lev(q, nodes[i].title@) as usize),
            ),
    decreases nodes.len(),
{
    if nodes.len() > 0 {
        lemma_candidate_threshold(nodes.drop_last(), q);
        let cs = candidate_seq(nodes, q);
        let rest = candidate_seq(nodes.drop_last(), q);
        assert forall|i: int|
            0 <= i < nodes.len() && lev(q, (#[trigger] nodes[i]).title@)
                < MAX_DISTANCE implies cs.contains((nodes[i], lev(q, nodes[i].title@) as usize)) by {
            if i < nodes.len() - 1 {
                assert(nodes.drop_last()[i] == nodes[i]);
                let p = (nodes[i], lev(q, nodes[i].title@) as usize);
                assert(rest.contains(p));
                let k = choose|k: int| 0 <= k < rest.len() && rest[k] == p;
                assert(cs[k] == p);
            } else {
                assert(cs[cs.len() - 1] == (nodes[i], lev(q, nodes[i].title@) as usize));
            }
        }
    }
}

/// Scores every stored node's title against the query and keeps those
/// strictly below the threshold, each with its distance.
pub fn find_candidates(search_string: &str, database: &Database) -> (r: Vec<(Node, usize)>)
    requires
        search_string@.len() < usize::MAX,
        forall|k: int|
            0 <= k < database.nodes_seq().len() ==> (#[trigger] database.nodes_seq()[k]).title@.len()
                < usize::MAX,
    ensures
        r@ == candidate_seq(database.nodes_seq(), search_string@),
{
    let ghost q = search_string@;
    let mut r: Vec<(Node, usize)> = Vec::new();
    let n = database.node_count();
    let mut i: usize = 0;
    while i < n
        invariant
            n == database.spec_node_count(),
            search_string@ == q,
            q.len() < usize::MAX,
            forall|k: int|
                0 <= k < database.nodes_seq().len() ==> (#[trigger] database.nodes_seq()[k]).title@.len()
                    < usize::MAX,
            i <= n,
            r@ == candidate_seq(database.nodes_seq().take(i as int), q),
        decreases n - i,
    {
        let node = database.node_at(i);
        proof {
            let t1 = database.nodes_seq().take(i + 1);
            assert(t1.drop_last() =~= database.nodes_seq().take(i as int));
            assert(t1.last() == database.nodes_seq()[i as int]);
        }
        let distance = levenshtein_distance(search_string, node.title.as_str());
        if distance < MAX_DISTANCE {
            r.push((node.clone(), distance));
        }
        i = i + 1;
    }
    proof {
        assert(database.nodes_seq().take(database.nodes_seq().len() as int)
            =~= database.nodes_seq());
    }
    r
}


/// Ascending by computed distance.
pub open spec fn sorted_by_distance(s: Seq<(Node, usize)>) -> bool {
    forall|k1: int, k2: int| 0 <= k1 < k2 < s.len() ==> s[k1].1 <= s[k2].1
}

/// Reorders the candidates by ascending distance; the collection itself is
/// kept (as a multiset).
pub fn sort_candidates(candidates: &mut Vec<(Node, usize)>)
    ensures
        sorted_by_distance(final(candidates)@),
        final(candidates)@.to_multiset() == old(candidates)@.to_multiset(),
{
    broadcast use vstd::seq_lib::group_to_multiset_ensures;

    let mut out: Vec<(Node, usize)> = Vec::new();
    let mut i: usize = 0;
    while i < candidates.len()
        invariant
            i <= candidates@.len(),
            candidates@ == old(candidates)@,
            sorted_by_distance(out@),
            out@.to_multiset() == candidates@.take(i as int).to_multiset(),
        decreases candidates@.len() - i,
    {
        let x = (candidates[i].0.clone(), candidates[i].1);
        proof {
            assert(x == candidates@[i as int]);
        }
        let mut pos: usize = 0;
        while pos < out.len() && out[pos].1 <= x.1
            invariant
                pos <= out@.len(),
                forall|k: int| 0 <= k < pos ==> (#[trigger] out@[k]).1 <= x.1,
            decreases out@.len() - pos,
        {
            pos = pos + 1;
        }
        let ghost pre = out@;
        proof {
            pre.insert_ensures(pos as int, x);
        }
        out.insert(pos, x);
        proof {
            let post = out@;
            assert(sorted_by_distance(post)) by {
                assert forall|k1: int, k2: int|
                    0 <= k1 < k2 < post.len() implies post[k1].1 <= post[k2].1 by {
                    let v1 = if k1 < pos {
                        pre[k1]
                    } else if k1 == pos {
                        x
                    } else {
                        pre[k1 - 1]
                    };
                    let v2 = if k2 < pos {
                        pre[k2]
                    } else if k2 == pos {
                        x
                    } else {
                        pre[k2 - 1]
                    };
                    assert(post[k1] == v1);
                    assert(post[k2] == v2);
                    if k2 > pos {
                        assert(pre[k2 - 1].1 > x.1 || k2 - 1 >= pos);
                        if k2 - 1 == pos && pos < pre.len() {
                            assert(pre[pos as int].1 > x.1);
                        }
                    }
                }
            }
            // The inserted list holds the old elements plus the new one.
            assert(post =~= pre.take(pos as int) + seq![x] + pre.skip(pos as int)) by {
                assert forall|k: int|
                    0 <= k < post.len() implies post[k] == (pre.take(pos as int) + seq![x]
                    + pre.skip(pos as int))[k] by {
                    if k < pos {
                        assert(post[k] == pre[k]);
                    } else if k == pos {
                        assert(post[k] == x);
                    } else {
                        assert(post[k] == pre[k - 1]);
                    }
                }
            }
            assert(pre =~= pre.take(pos as int) + pre.skip(pos as int));
            pre.to_multiset_ensures();
            Seq::<(Node, usize)>::empty().to_multiset_ensures();
            candidates@.take(i as int).to_multiset_ensures();
            vstd::seq_lib::lemma_multiset_commutative(pre.take(pos as int), pre.skip(pos as int));
            vstd::seq_lib::lemma_multiset_commutative(
                pre.take(pos as int) + seq![x],
                pre.skip(pos as int),
            );
            vstd::seq_lib::lemma_multiset_commutative(pre.take(pos as int), seq![x]);
            assert(seq![x].to_multiset() =~= Multiset::<(Node, usize)>::empty().insert(x)) by {
                assert(Seq::<(Node, usize)>::empty().push(x) =~= seq![x]);
                assert(Seq::<(Node, usize)>::empty().to_multiset() =~= Multiset::<(
                    Node,
                    usize,
                )>::empty()) by {
                    assert(Seq::<(Node, usize)>::empty().to_multiset().len() == 0);
                }
                assert(Seq::<(Node, usize)>::empty().push(x).to_multiset() =~= Seq::<(
                    Node,
                    usize,
                )>::empty().to_multiset().insert(x));
            }
            assert(post.to_multiset() =~= pre.to_multiset().insert(x));
            assert(candidates@.take(i + 1) =~= candidates@.take(i as int).push(x));
            assert(candidates@.take(i + 1).to_multiset() =~= candidates@.take(
                i as int,
            ).to_multiset().insert(x));
        }
        i = i + 1;
    }
    proof {
        assert(candidates@.take(candidates@.len() as int) =~= candidates@);
    }
    *candidates = out;
}

} // verus!
