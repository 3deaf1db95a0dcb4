//! The DAG of city clusters: node layout, flat and tree decompositions,
//! and the connection cities shared with parents.
//!
//! The DAGs built here number their nodes `0..count`; contracts describe
//! such a node map by the sequence of its nodes in id order (`node_seq`).
use vstd::prelude::*;
use crate::lehmer::{range_seq, lemma_range_seq};
use crate::tour::{first_occurrences, copy_vec, sub_vec, flatten, is_tour, lemma_flatten_push};

verus! {

/// One node of the decomposition DAG.
#[derive(Debug, Clone)]
pub struct DAGNode {
    pub node_id: usize,
    pub cities: Vec<usize>,
    pub level: usize,
    pub parent_ids: Vec<usize>,
    pub child_ids: Vec<usize>,
    pub connection_cities: Vec<usize>,
}

/// The decomposition DAG: its nodes keyed by node id.
#[derive(Debug, Clone)]
pub struct DAGGraph {
    pub nodes: std::collections::HashMap<usize, DAGNode>,
    pub roots: Vec<usize>,
    pub leaves: Vec<usize>,
}

/// `nodes[i]` carries id `i`.
pub open spec fn ids_match(nodes: Seq<DAGNode>) -> bool {
    forall|i: int| 0 <= i < nodes.len() ==> #[trigger] nodes[i].node_id == i
}

/// The node map is keyed by `0..count` (`count` its size), each node under its own id.
pub open spec fn dense(m: Map<usize, DAGNode>) -> bool {
    &&& forall|k: usize| #[trigger] m.dom().contains(k) <==> k < m.len()
    &&& forall|k: usize| k < m.len() ==> #[trigger] m[k].node_id == k
}

/// The nodes of a map keyed by `0..count`, in id order.
pub open spec fn node_seq(m: Map<usize, DAGNode>) -> Seq<DAGNode> {
    Seq::new(m.len(), |i: int| m[i as usize])
}

/// The ids `0..len` of the nodes that have no children, ascending.
pub open spec fn childless(nodes: Seq<DAGNode>, len: nat) -> Seq<usize>
    decreases len,
{
    if len == 0 {
        Seq::empty()
    } else {
        let rest = childless(nodes, (len - 1) as nat);
        if nodes[len - 1].child_ids@.len() == 0 {
            rest.push((len - 1) as usize)
        } else {
            rest
        }
    }
}

/// The leaves of a node list: the ids of the nodes without children, ascending.
pub open spec fn leaves_of(nodes: Seq<DAGNode>) -> Seq<usize> {
    childless(nodes, nodes.len())
}

/// Floor of `log2(n / m)` for `n >= m >= 1` (the largest `d` with `m * 2^d <= n`); 0 when `n < 2m`.
pub open spec fn log2_ratio(n: nat, m: nat) -> nat
    decreases n - m,
{
    if m == 0 || n < 2 * m {
        0
    } else {
        1 + log2_ratio(n, 2 * m)
    }
}

/// `node` has the given id, cities, level, parents and children, and no connection cities.
pub open spec fn node_fields(
    node: DAGNode,
    id: nat,
    cities: Seq<usize>,
    level: nat,
    parents: Seq<usize>,
    children: Seq<usize>,
) -> bool {
    &&& node.node_id == id
    &&& node.cities@ == cities
    &&& node.level == level
    &&& node.parent_ids@ == parents
    &&& node.child_ids@ == children
    &&& node.connection_cities@.len() == 0
}

/// The overlapping windows of the flat decomposition: starting at position
/// `i` and moving by `stride`, each window reaches `overlap` cities back and
/// runs to `i + stride` (cut at `n`); windows of fewer than two cities are dropped.
pub open spec fn flat_chunks(n: nat, stride: nat, overlap: nat, i: nat) -> Seq<Seq<usize>>
    decreases n - i,
{
    if i >= n || stride == 0 {
        Seq::empty()
    } else {
        let start: nat = if i >= overlap { (i - overlap) as nat } else { 0 };
        let end: nat = if i + stride < n { i + stride } else { n };
        let chunk = range_seq(start, end);
        let rest = if i + stride < n {
            flat_chunks(n, stride, overlap, i + stride)
        } else {
            Seq::empty()
        };
        if chunk.len() >= 2 {
            seq![chunk] + rest
        } else {
            rest
        }
    }
}

/// The ids `from..to`.
pub open spec fn id_range(from: nat, to: nat) -> Seq<usize> {
    range_seq(from, to)
}


/// A node of the cluster tree before bridge cities are chosen.
#[derive(Debug, Clone)]
pub struct TreePlanNode {
    /// The cities of a leaf; empty for an internal node.
    pub cities: Vec<usize>,
    pub level: usize,
    pub parent_id: usize,
    /// For an internal node, the two halves it splits its cities into.
    pub split: Option<(Vec<usize>, Vec<usize>)>,
}

/// What a `TreePlanNode` holds.
pub struct PlanEntry {
    pub cities: Seq<usize>,
    pub level: nat,
    pub parent: nat,
    pub split: Option<(Seq<usize>, Seq<usize>)>,
}

impl View for TreePlanNode {
    type V = PlanEntry;

    open spec fn view(&self) -> PlanEntry {
        PlanEntry {
            cities: self.cities@,
            level: self.level as nat,
            parent: self.parent_id as nat,
            split: match self.split {
                Some((l, r)) => Some((l@, r@)),
                None => None,
            },
        }
    }
}

/// The values of a list of plan nodes.
pub open spec fn plan_views(plan: Seq<TreePlanNode>) -> Seq<PlanEntry> {
    plan.map_values(|p: TreePlanNode| p@)
}

/// The cluster tree below a node at `depth` with parent `parent`, in preorder,
/// the first node getting id `id`. A node becomes a leaf holding `cities` when the
/// depth limit is reached or there are at most `max(max_sub, min_c)` cities;
/// otherwise `sorted` (the same cities ordered by the first spectral coordinate)
/// is cut at its middle, and a leaf is made as well when a half would hold fewer
/// than `min_c` cities. Else an internal node is made and both halves are planned
/// below it, the left one first.
pub open spec fn plan_tree(
    max_depth: nat,
    max_sub: nat,
    min_c: nat,
    cities: Seq<usize>,
    sorted: Seq<usize>,
    depth: nat,
    parent: nat,
    id: nat,
) -> Seq<PlanEntry>
    decreases sorted.len(),
{
    let leaf = PlanEntry { cities, level: depth + 1, parent, split: None };
    if depth >= max_depth || cities.len() <= max_sub || cities.len() <= min_c {
        seq![leaf]
    } else {
        let m = sorted.len() / 2;
        let left = sorted.take(m as int);
        let right = sorted.skip(m as int);
        if left.len() < min_c || right.len() < min_c || left.len() == 0 || right.len() == 0 {
            seq![leaf]
        } else {
            let lp = plan_tree(max_depth, max_sub, min_c, left, left, depth + 1, id, id + 1);
            let rp = plan_tree(max_depth, max_sub, min_c, right, right, depth + 1, id, id + 1 + lp.len());
            seq![PlanEntry { cities: Seq::empty(), level: depth + 1, parent, split: Some((left, right)) }]
                + lp + rp
        }
    }
}

/// The cities of the leaves of a plan, in plan order.
pub open spec fn leaf_cities(plan: Seq<PlanEntry>) -> Seq<usize>
    decreases plan.len(),
{
    if plan.len() == 0 {
        Seq::empty()
    } else {
        let rest = leaf_cities(plan.drop_last());
        if plan.last().split is None {
            rest + plan.last().cities
        } else {
            rest
        }
    }
}

/// A plan over `L` cities has between one and `2L - 1` entries (one for `L <= 1`).
pub proof fn lemma_plan_tree_len(
    max_depth: nat,
    max_sub: nat,
    min_c: nat,
    cities: Seq<usize>,
    sorted: Seq<usize>,
    depth: nat,
    parent: nat,
    id: nat,
)
    ensures
        plan_tree(max_depth, max_sub, min_c, cities, sorted, depth, parent, id).len() + 1 <= 2 * (
        if sorted.len() > 1 { sorted.len() } else { 1 }),
        plan_tree(max_depth, max_sub, min_c, cities, sorted, depth, parent, id).len() >= 1,
    decreases sorted.len(),
{
    if !(depth >= max_depth || cities.len() <= max_sub || cities.len() <= min_c) {
        let m = sorted.len() / 2;
        let left = sorted.take(m as int);
        let right = sorted.skip(m as int);
        if !(left.len() < min_c || right.len() < min_c || left.len() == 0 || right.len() == 0) {
            lemma_plan_tree_len(max_depth, max_sub, min_c, left, left, depth + 1, id, id + 1);
            let lp = plan_tree(max_depth, max_sub, min_c, left, left, depth + 1, id, id + 1);
            lemma_plan_tree_len(max_depth, max_sub, min_c, right, right, depth + 1, id, id + 1 + lp.len());
        }
    }
}


/// The ids (position + 1) of the plan entries among the first `upto` whose parent is `p`, ascending.
pub open spec fn children_in(plan: Seq<PlanEntry>, p: nat, upto: nat) -> Seq<usize>
    decreases upto,
{
    if upto == 0 {
        Seq::empty()
    } else {
        let rest = children_in(plan, p, (upto - 1) as nat);
        if plan[upto - 1].parent == p {
            rest.push(upto as usize)
        } else {
            rest
        }
    }
}

/// The bridge cities of the internal entries among the first `upto`, in order,
/// two per internal entry.
pub open spec fn bridge_sequence(plan: Seq<PlanEntry>, bridges: Seq<(usize, usize)>, upto: nat) -> Seq<usize>
    decreases upto,
{
    if upto == 0 {
        Seq::empty()
    } else {
        let rest = bridge_sequence(plan, bridges, (upto - 1) as nat);
        if plan[upto - 1].split is Some {
            rest.push(bridges[upto - 1].0).push(bridges[upto - 1].1)
        } else {
            rest
        }
    }
}

/// The root's cities: the distinct bridge cities in order, at most `max_sub` of
/// them; city 0 alone when there are none.
pub open spec fn root_cities(plan: Seq<PlanEntry>, bridges: Seq<(usize, usize)>, max_sub: nat) -> Seq<usize> {
    let distinct = first_occurrences(bridge_sequence(plan, bridges, plan.len()));
    if distinct.len() == 0 {
        seq![0usize]
    } else if distinct.len() <= max_sub {
        distinct
    } else {
        distinct.take(max_sub as int)
    }
}

/// The cities of the DAG node made from a plan entry: its two bridge cities
/// when it is internal, else its own cities.
pub open spec fn entry_cities(e: PlanEntry, bridge: (usize, usize)) -> Seq<usize> {
    if e.split is Some {
        seq![bridge.0, bridge.1]
    } else {
        e.cities
    }
}


/// `acc` followed by the elements of `s` that are not yet present, each added
/// at its first occurrence.
pub open spec fn append_absent(acc: Seq<usize>, s: Seq<usize>) -> Seq<usize>
    decreases s.len(),
{
    if s.len() == 0 {
        acc
    } else {
        let a = append_absent(acc, s.drop_last());
        if a.contains(s.last()) {
            a
        } else {
            a.push(s.last())
        }
    }
}

/// The cities of `cities` that `parent_cities` also holds, in order.
pub open spec fn shared_cities(cities: Seq<usize>, parent_cities: Seq<usize>) -> Seq<usize> {
    cities.filter(|c: usize| parent_cities.contains(c))
}

/// The cities that `node` shares with each of its first `k` parents that exist
/// in `nodes`, parent by parent.
pub open spec fn shared_with_parents(nodes: Seq<DAGNode>, node: DAGNode, k: nat) -> Seq<usize>
    decreases k,
{
    if k == 0 {
        Seq::empty()
    } else {
        let pid = node.parent_ids@[k - 1];
        shared_with_parents(nodes, node, (k - 1) as nat) + if pid < nodes.len() {
            shared_cities(node.cities@, nodes[pid as int].cities@)
        } else {
            Seq::empty()
        }
    }
}

/// `node` with its connection cities extended by the cities it shares with its parents.
pub open spec fn connected(nodes: Seq<DAGNode>, old_node: DAGNode, new_node: DAGNode) -> bool {
    &&& new_node.node_id == old_node.node_id
    &&& new_node.cities@ == old_node.cities@
    &&& new_node.level == old_node.level
    &&& new_node.parent_ids@ == old_node.parent_ids@
    &&& new_node.child_ids@ == old_node.child_ids@
    &&& new_node.connection_cities@ == append_absent(
        old_node.connection_cities@,
        shared_with_parents(nodes, old_node, old_node.parent_ids@.len()),
    )
}


proof fn lemma_append_absent(acc: Seq<usize>, s: Seq<usize>)
    ensures
        forall|x: usize| #[trigger] append_absent(acc, s).contains(x) <==> (acc.contains(x) || s.contains(x)),
        acc.no_duplicates() ==> append_absent(acc, s).no_duplicates(),
        acc.len() == 0 && s.no_duplicates() ==> append_absent(acc, s) == s,
    decreases s.len(),
{
    if s.len() > 0 {
        let init = s.drop_last();
        let a = append_absent(acc, init);
        lemma_append_absent(acc, init);
        assert forall|x: usize| s.contains(x) <==> (init.contains(x) || x == s.last()) by {
            if s.contains(x) {
                let i = choose|i: int| 0 <= i < s.len() && s[i] == x;
                if i < init.len() {
                    assert(init[i] == x);
                }
            }
            if init.contains(x) {
                let i = choose|i: int| 0 <= i < init.len() && init[i] == x;
                assert(s[i] == x);
            }
        }
        if !a.contains(s.last()) {
            let b = a.push(s.last());
            assert forall|x: usize| b.contains(x) <==> (a.contains(x) || x == s.last()) by {
                if b.contains(x) {
                    let i = choose|i: int| 0 <= i < b.len() && b[i] == x;
                    if i < a.len() {
                        assert(a[i] == x);
                    }
                }
                if a.contains(x) {
                    let i = choose|i: int| 0 <= i < a.len() && a[i] == x;
                    assert(b[i] == x);
                }
                if x == s.last() {
                    assert(b[a.len() as int] == x);
                }
            }
            if acc.no_duplicates() {
                assert forall|i: int, j: int| 0 <= i < j < b.len() implies b[i] != b[j] by {
                    if j == a.len() {
                        assert(a.contains(a[i]));
                    }
                }
            }
            if acc.len() == 0 && s.no_duplicates() {
                assert(init.no_duplicates());
                assert(b =~= s);
            }
        } else if acc.len() == 0 && s.no_duplicates() {
            assert(init.no_duplicates());
            let i = choose|i: int| 0 <= i < init.len() && init[i] == s.last();
            assert(s[i] == s[s.len() - 1]);
        }
    }
}

proof fn lemma_filter_distinct(s: Seq<usize>, pred: spec_fn(usize) -> bool)
    requires
        s.no_duplicates(),
    ensures
        s.filter(pred).no_duplicates(),
    decreases s.len(),
{
    reveal(Seq::filter);
    if s.len() > 0 {
        let init = s.drop_last();
        assert(init.no_duplicates());
        lemma_filter_distinct(init, pred);
        let f = init.filter(pred);
        if pred(s.last()) {
            if f.contains(s.last()) {
                init.lemma_filter_contains_rev(pred, s.last());
                let i = choose|i: int| 0 <= i < init.len() && init[i] == s.last();
                assert(s[i] == s[s.len() - 1]);
            }
            let b = f.push(s.last());
            assert forall|i: int, j: int| 0 <= i < j < b.len() implies b[i] != b[j] by {
                if j == f.len() {
                    assert(f.contains(f[i]));
                }
            }
        }
    }
}

proof fn lemma_shared_with_parents(nodes: Seq<DAGNode>, node: DAGNode, k: nat)
    requires
        k <= node.parent_ids@.len(),
    ensures
        forall|c: usize|
            #[trigger] shared_with_parents(nodes, node, k).contains(c) <==> (node.cities@.contains(c) && exists|i: int|
                0 <= i < k && node.parent_ids@[i] < nodes.len() && #[trigger] nodes[node.parent_ids@[i] as int].cities@.contains(c)),
    decreases k,
{
    broadcast use vstd::seq_lib::group_filter_ensures;

    if k > 0 {
        lemma_shared_with_parents(nodes, node, (k - 1) as nat);
        let rest = shared_with_parents(nodes, node, (k - 1) as nat);
        let pid = node.parent_ids@[k - 1];
        let add = if pid < nodes.len() {
            shared_cities(node.cities@, nodes[pid as int].cities@)
        } else {
            Seq::empty()
        };
        let pred = |c: usize| nodes[pid as int].cities@.contains(c);
        assert(shared_with_parents(nodes, node, k) == rest + add);
        assert forall|c: usize| add.contains(c) <==> (pid < nodes.len() && node.cities@.contains(c)
            && nodes[pid as int].cities@.contains(c)) by {
            if pid < nodes.len() {
                if add.contains(c) {
                    node.cities@.lemma_filter_contains_rev(pred, c);
                    let i = choose|i: int| 0 <= i < add.len() && add[i] == c;
                    assert(pred(add[i]));
                }
                if node.cities@.contains(c) && nodes[pid as int].cities@.contains(c) {
                    let i = choose|i: int| 0 <= i < node.cities@.len() && node.cities@[i] == c;
                    node.cities@.lemma_filter_contains(pred, i);
                }
            }
        }
        assert forall|c: usize| (rest + add).contains(c) <==> (rest.contains(c) || add.contains(c)) by {
            if (rest + add).contains(c) {
                let i = choose|i: int| 0 <= i < (rest + add).len() && (rest + add)[i] == c;
                if i < rest.len() {
                    assert(rest[i] == c);
                } else {
                    assert(add[i - rest.len()] == c);
                }
            }
            if rest.contains(c) {
                let i = choose|i: int| 0 <= i < rest.len() && rest[i] == c;
                assert((rest + add)[i] == c);
            }
            if add.contains(c) {
                let i = choose|i: int| 0 <= i < add.len() && add[i] == c;
                assert((rest + add)[rest.len() + i] == c);
            }
        }
        assert forall|c: usize| #[trigger] shared_with_parents(nodes, node, k).contains(c) <==> (node.cities@.contains(c)
            && exists|i: int|
            0 <= i < k && node.parent_ids@[i] < nodes.len() && #[trigger] nodes[node.parent_ids@[i] as int].cities@.contains(c)) by {
            if node.cities@.contains(c) && exists|i: int|
                0 <= i < k && node.parent_ids@[i] < nodes.len() && #[trigger] nodes[node.parent_ids@[i] as int].cities@.contains(c) {
                let i = choose|i: int|
                    0 <= i < k && node.parent_ids@[i] < nodes.len() && #[trigger] nodes[node.parent_ids@[i] as int].cities@.contains(c);
                if i < k - 1 {
                    assert(rest.contains(c));
                } else {
                    assert(add.contains(c));
                }
            }
            if shared_with_parents(nodes, node, k).contains(c) {
                if rest.contains(c) {
                    let i = choose|i: int|
                        0 <= i < k - 1 && node.parent_ids@[i] < nodes.len() && #[trigger] nodes[node.parent_ids@[i] as int].cities@.contains(c);
                    assert(0 <= i < k && node.parent_ids@[i] < nodes.len() && nodes[node.parent_ids@[i] as int].cities@.contains(c));
                } else {
                    assert(add.contains(c));
                    let i = k - 1;
                    assert(0 <= i < k && node.parent_ids@[i] < nodes.len() && nodes[node.parent_ids@[i] as int].cities@.contains(c));
                }
            }
        }
    }
}

/// The connection cities a node is given: those it had, then each of its own
/// cities that one of its parents also holds, nothing else and none twice. A
/// node with a single parent and no connection cities yet gets exactly its
/// cities that the parent holds, in its own order.
pub proof fn lemma_connection_cities(nodes: Seq<DAGNode>, old_node: DAGNode, new_node: DAGNode)
    requires
        connected(nodes, old_node, new_node),
    ensures
        forall|c: usize|
            #[trigger] new_node.connection_cities@.contains(c) <==> (old_node.connection_cities@.contains(c) || (
            old_node.cities@.contains(c) && exists|i: int|
                0 <= i < old_node.parent_ids@.len() && old_node.parent_ids@[i] < nodes.len()
                    && #[trigger] nodes[old_node.parent_ids@[i] as int].cities@.contains(c))),
        old_node.connection_cities@.no_duplicates() ==> new_node.connection_cities@.no_duplicates(),
        ({
            &&& old_node.connection_cities@.len() == 0
            &&& old_node.parent_ids@.len() == 1
            &&& old_node.parent_ids@[0] < nodes.len()
            &&& old_node.cities@.no_duplicates()
        }) ==> new_node.connection_cities@ == old_node.cities@.filter(
            |c: usize| nodes[old_node.parent_ids@[0] as int].cities@.contains(c),
        ),
{
    let k = old_node.parent_ids@.len();
    let shared = shared_with_parents(nodes, old_node, k);
    lemma_shared_with_parents(nodes, old_node, k);
    lemma_append_absent(old_node.connection_cities@, shared);
    if old_node.connection_cities@.len() == 0 && k == 1 && old_node.parent_ids@[0] < nodes.len()
        && old_node.cities@.no_duplicates() {
        let pid = old_node.parent_ids@[0];
        let f = old_node.cities@.filter(|c: usize| nodes[pid as int].cities@.contains(c));
        assert(shared_with_parents(nodes, old_node, 0) == Seq::<usize>::empty());
        assert(shared =~= f);
        lemma_filter_distinct(old_node.cities@, |c: usize| nodes[pid as int].cities@.contains(c));
    }
}

proof fn lemma_leaf_cities_add(a: Seq<PlanEntry>, b: Seq<PlanEntry>)
    ensures
        leaf_cities(a + b) == leaf_cities(a) + leaf_cities(b),
    decreases b.len(),
{
    if b.len() == 0 {
        assert(a + b =~= a);
        assert(leaf_cities(a) + leaf_cities(b) =~= leaf_cities(a));
    } else {
        lemma_leaf_cities_add(a, b.drop_last());
        assert((a + b).drop_last() =~= a + b.drop_last());
        assert(leaf_cities(a + b) =~= leaf_cities(a) + leaf_cities(b));
    }
}

proof fn lemma_leaf_cities_single(e: PlanEntry)
    ensures
        leaf_cities(seq![e]) == if e.split is None { e.cities } else { Seq::empty() },
{
    assert(seq![e].drop_last() =~= Seq::<PlanEntry>::empty());
    assert(leaf_cities(Seq::<PlanEntry>::empty()) =~= Seq::<usize>::empty());
    assert(seq![e].last() == e);
    assert(Seq::<usize>::empty() + e.cities =~= e.cities);
}

/// Below a split, the leaves hold exactly the cities being planned, in order.
proof fn lemma_plan_leaves_self(
    max_depth: nat,
    max_sub: nat,
    min_c: nat,
    s: Seq<usize>,
    depth: nat,
    parent: nat,
    id: nat,
)
    ensures
        leaf_cities(plan_tree(max_depth, max_sub, min_c, s, s, depth, parent, id)) == s,
    decreases s.len(),
{
    let leaf = PlanEntry { cities: s, level: depth + 1, parent, split: None };
    if depth >= max_depth || s.len() <= max_sub || s.len() <= min_c {
        lemma_leaf_cities_single(leaf);
    } else {
        let m = s.len() / 2;
        let left = s.take(m as int);
        let right = s.skip(m as int);
        if left.len() < min_c || right.len() < min_c || left.len() == 0 || right.len() == 0 {
            lemma_leaf_cities_single(leaf);
        } else {
            let lp = plan_tree(max_depth, max_sub, min_c, left, left, depth + 1, id, id + 1);
            let rp = plan_tree(max_depth, max_sub, min_c, right, right, depth + 1, id, id + 1 + lp.len());
            let head = PlanEntry { cities: Seq::empty(), level: depth + 1, parent, split: Some((left, right)) };
            lemma_plan_leaves_self(max_depth, max_sub, min_c, left, depth + 1, id, id + 1);
            lemma_plan_leaves_self(max_depth, max_sub, min_c, right, depth + 1, id, id + 1 + lp.len());
            lemma_leaf_cities_add(seq![head] + lp, rp);
            lemma_leaf_cities_add(seq![head], lp);
            lemma_leaf_cities_single(head);
            assert(left + right =~= s);
            assert(Seq::<usize>::empty() + left + right =~= s);
        }
    }
}

/// The leaves of a planned tree hold every city `0..n` exactly once, when
/// the splitting order is itself an ordering of all the cities.
pub proof fn lemma_plan_covers_all_cities(
    max_depth: nat,
    max_sub: nat,
    min_c: nat,
    n: usize,
    sorted: Seq<usize>,
)
    requires
        crate::tour::is_tour(sorted, n as nat),
    ensures
        crate::tour::is_tour(
            leaf_cities(plan_tree(max_depth, max_sub, min_c, range_seq(0, n as nat), sorted, 0, 0, 1)),
            n as nat,
        ),
{
    let cities = range_seq(0, n as nat);
    lemma_range_seq(0, n as nat);
    let leaf = PlanEntry { cities, level: 1, parent: 0, split: None };
    if 0 >= max_depth || cities.len() <= max_sub || cities.len() <= min_c {
        lemma_leaf_cities_single(leaf);
    } else {
        let m = sorted.len() / 2;
        let left = sorted.take(m as int);
        let right = sorted.skip(m as int);
        if left.len() < min_c || right.len() < min_c || left.len() == 0 || right.len() == 0 {
            lemma_leaf_cities_single(leaf);
        } else {
            let lp = plan_tree(max_depth, max_sub, min_c, left, left, 1, 1, 2);
            let rp = plan_tree(max_depth, max_sub, min_c, right, right, 1, 1, 2 + lp.len());
            let head = PlanEntry { cities: Seq::empty(), level: 1, parent: 0, split: Some((left, right)) };
            lemma_plan_leaves_self(max_depth, max_sub, min_c, left, 1, 1, 2);
            lemma_plan_leaves_self(max_depth, max_sub, min_c, right, 1, 1, 2 + lp.len());
            lemma_leaf_cities_add(seq![head] + lp, rp);
            lemma_leaf_cities_add(seq![head], lp);
            lemma_leaf_cities_single(head);
            assert(Seq::<usize>::empty() + left + right =~= sorted);
        }
    }
}


/// A cluster of `size` cities may be split: it is larger than both `max_sub`
/// and `min_c`, and cutting it at its middle leaves two non-empty halves of at
/// least `min_c` cities each.
pub open spec fn can_split(size: nat, max_sub: nat, min_c: nat) -> bool {
    &&& size > max_sub
    &&& size > min_c
    &&& size / 2 >= min_c
    &&& size - size / 2 >= min_c
    &&& size / 2 > 0
    &&& size - size / 2 > 0
}

/// Every entry of `plan` sits at level `first_level` or deeper; an internal entry
/// sits at a level of at most `max_depth` and splits a cluster that may be split
/// at its middle; a leaf is either below level `max_depth` or a cluster that may
/// not be split.
pub open spec fn obeys_depth_rule(
    plan: Seq<PlanEntry>,
    first_level: nat,
    max_depth: nat,
    max_sub: nat,
    min_c: nat,
) -> bool {
    forall|j: int|
        0 <= j < plan.len() ==> {
            &&& (#[trigger] plan[j]).level >= first_level
            &&& (plan[j].split matches Some((l, r)) ==> {
                &&& plan[j].level <= max_depth
                &&& can_split(l.len() + r.len(), max_sub, min_c)
                &&& l.len() == (l.len() + r.len()) / 2
            })
            &&& (plan[j].split is None ==> plan[j].level > max_depth || !can_split(
                plan[j].cities.len(),
                max_sub,
                min_c,
            ))
        }
}

/// The depth limit of the cluster tree: a cluster planned at depth `d` (its
/// entry at level `d + 1`) is split exactly when `d < max_depth` and it may be
/// split; it is a leaf only at depth `max_depth` or deeper, or when it may not
/// be split.
pub proof fn lemma_plan_depth_rule(
    max_depth: nat,
    max_sub: nat,
    min_c: nat,
    cities: Seq<usize>,
    sorted: Seq<usize>,
    depth: nat,
    parent: nat,
    id: nat,
)
    requires
        sorted.len() == cities.len(),
    ensures
        obeys_depth_rule(
            plan_tree(max_depth, max_sub, min_c, cities, sorted, depth, parent, id),
            depth + 1,
            max_depth,
            max_sub,
            min_c,
        ),
        plan_tree(max_depth, max_sub, min_c, cities, sorted, depth, parent, id)[0].level == depth + 1,
    decreases sorted.len(),
{
    let p = plan_tree(max_depth, max_sub, min_c, cities, sorted, depth, parent, id);
    if !(depth >= max_depth || cities.len() <= max_sub || cities.len() <= min_c) {
        let m = sorted.len() / 2;
        let left = sorted.take(m as int);
        let right = sorted.skip(m as int);
        if !(left.len() < min_c || right.len() < min_c || left.len() == 0 || right.len() == 0) {
            let lp = plan_tree(max_depth, max_sub, min_c, left, left, depth + 1, id, id + 1);
            let rp = plan_tree(max_depth, max_sub, min_c, right, right, depth + 1, id, id + 1 + lp.len());
            lemma_plan_depth_rule(max_depth, max_sub, min_c, left, left, depth + 1, id, id + 1);
            lemma_plan_depth_rule(max_depth, max_sub, min_c, right, right, depth + 1, id, id + 1 + lp.len());
            assert forall|j: int| 0 <= j < p.len() implies {
                &&& (#[trigger] p[j]).level >= depth + 1
                &&& (p[j].split matches Some((l, r)) ==> {
                    &&& p[j].level <= max_depth
                    &&& can_split(l.len() + r.len(), max_sub, min_c)
                    &&& l.len() == (l.len() + r.len()) / 2
                })
                &&& (p[j].split is None ==> p[j].level > max_depth || !can_split(
                    p[j].cities.len(),
                    max_sub,
                    min_c,
                ))
            } by {
                if j == 0 {
                    assert(left.len() + right.len() == cities.len());
                } else if j < 1 + lp.len() {
                    assert(p[j] == lp[j - 1]);
                } else {
                    assert(p[j] == rp[j - 1 - lp.len()]);
                }
            }
        }
    }
}

/// Every entry of `plan` (entry `j` having id `id + j`) hangs below `parent`
/// at level `depth + 1`, or below an earlier internal entry, one level deeper than it.
pub open spec fn plan_is_tree(plan: Seq<PlanEntry>, parent: nat, id: nat, depth: nat) -> bool {
    forall|j: int|
        0 <= j < plan.len() ==> {
            ||| (#[trigger] plan[j]).parent == parent && plan[j].level == depth + 1
            ||| {
                &&& id <= plan[j].parent < id + j
                &&& plan[plan[j].parent - id].split is Some
                &&& plan[j].level == plan[plan[j].parent - id].level + 1
            }
        }
}

/// A planned cluster tree is a tree: each node hangs below the subtree's
/// parent or below an earlier internal node, one level deeper.
#[verifier::spinoff_prover]
pub proof fn lemma_plan_is_tree(
    max_depth: nat,
    max_sub: nat,
    min_c: nat,
    cities: Seq<usize>,
    sorted: Seq<usize>,
    depth: nat,
    parent: nat,
    id: nat,
)
    ensures
        plan_is_tree(plan_tree(max_depth, max_sub, min_c, cities, sorted, depth, parent, id), parent, id, depth),
    decreases sorted.len(),
{
    if !(depth >= max_depth || cities.len() <= max_sub || cities.len() <= min_c) {
        let m = sorted.len() / 2;
        let left = sorted.take(m as int);
        let right = sorted.skip(m as int);
        if !(left.len() < min_c || right.len() < min_c || left.len() == 0 || right.len() == 0) {
            let lp = plan_tree(max_depth, max_sub, min_c, left, left, depth + 1, id, id + 1);
            let rp = plan_tree(max_depth, max_sub, min_c, right, right, depth + 1, id, id + 1 + lp.len());
            lemma_plan_is_tree(max_depth, max_sub, min_c, left, left, depth + 1, id, id + 1);
            lemma_plan_is_tree(max_depth, max_sub, min_c, right, right, depth + 1, id, id + 1 + lp.len());
            let head = PlanEntry { cities: Seq::empty(), level: depth + 1, parent, split: Some((left, right)) };
            let p = seq![head] + lp + rp;
            assert forall|j: int| 0 <= j < p.len() implies {
                ||| (#[trigger] p[j]).parent == parent && p[j].level == depth + 1
                ||| {
                    &&& id <= p[j].parent < id + j
                    &&& p[p[j].parent - id].split is Some
                    &&& p[j].level == p[p[j].parent - id].level + 1
                }
            } by {
                if j == 0 {
                } else if j < 1 + lp.len() {
                    assert(p[j] == lp[j - 1]);
                    if lp[j - 1].parent != id {
                        assert(p[lp[j - 1].parent - id] == lp[lp[j - 1].parent - id - 1]);
                    }
                } else {
                    let k = j - 1 - lp.len();
                    assert(p[j] == rp[k]);
                    if rp[k].parent != id {
                        assert(p[rp[k].parent - id] == rp[rp[k].parent - id - 1 - lp.len()]);
                    }
                }
            }
        }
    }
}


/// The ids of the first `upto` nodes whose level is `level`, in node order.
pub open spec fn ids_at_level(nodes: Seq<DAGNode>, level: nat, upto: nat) -> Seq<usize>
    decreases upto,
{
    if upto == 0 {
        Seq::empty()
    } else {
        let rest = ids_at_level(nodes, level, (upto - 1) as nat);
        if nodes[upto - 1].level == level {
            rest.push(nodes[upto - 1].node_id)
        } else {
            rest
        }
    }
}

impl DAGGraph {
    /// The deepest level of any node (0 when there are none).
    pub fn max_level(&self) -> (m: usize)
        requires
            dense(self.nodes@),
        ensures
            forall|i: int| 0 <= i < node_seq(self.nodes@).len() ==> #[trigger] node_seq(self.nodes@)[i].level <= m,
            node_seq(self.nodes@).len() == 0 ==> m == 0,
            node_seq(self.nodes@).len() > 0 ==> exists|i: int|
                0 <= i < node_seq(self.nodes@).len() && #[trigger] node_seq(self.nodes@)[i].level == m,
    {
        let ghost ns = node_seq(self.nodes@);
        let count = self.nodes.len();
        let mut m: usize = 0;
        let mut i: usize = 0;
        while i < count
            invariant
                i <= count,
                count == ns.len(),
                ns == node_seq(self.nodes@),
                dense(self.nodes@),
                forall|j: int| 0 <= j < i ==> #[trigger] ns[j].level <= m,
                i == 0 ==> m == 0,
                i > 0 ==> exists|j: int| 0 <= j < i && #[trigger] ns[j].level == m,
            decreases count - i,
        {
            let node = self.nodes.get(&i).unwrap();
            assert(*node == ns[i as int]);
            if i == 0 || node.level > m {
                m = node.level;
            }
            i = i + 1;
        }
        m
    }

    /// The ids of the nodes on `level`, in id order.
    pub fn nodes_at_level(&self, level: usize) -> (ids: Vec<usize>)
        requires
            dense(self.nodes@),
        ensures
            ids@ == ids_at_level(node_seq(self.nodes@), level as nat, node_seq(self.nodes@).len()),
    {
        let ghost ns = node_seq(self.nodes@);
        let count = self.nodes.len();
        let mut ids: Vec<usize> = Vec::new();
        let mut i: usize = 0;
        while i < count
            invariant
                i <= count,
                count == ns.len(),
                ns == node_seq(self.nodes@),
                dense(self.nodes@),
                ids@ == ids_at_level(ns, level as nat, i as nat),
            decreases count - i,
        {
            let node = self.nodes.get(&i).unwrap();
            assert(*node == ns[i as int]);
            if node.level == level {
                ids.push(node.node_id);
            }
            i = i + 1;
        }
        ids
    }
}


/// `nodes` is the DAG made from the plan `pv` with the bridge cities `bridges`:
/// node 0 is the root holding `root_cities`, node `i >= 1` is plan entry `i - 1`,
/// and each node's children are the entries that name it as parent.
pub open spec fn is_assembly(
    nodes: Seq<DAGNode>,
    pv: Seq<PlanEntry>,
    bridges: Seq<(usize, usize)>,
    max_sub: nat,
) -> bool {
    &&& nodes.len() == pv.len() + 1
    &&& ids_match(nodes)
    &&& node_fields(nodes[0], 0, root_cities(pv, bridges, max_sub), 0, seq![], children_in(pv, 0, pv.len()))
    &&& forall|i: int|
        1 <= i < nodes.len() ==> node_fields(
            #[trigger] nodes[i],
            i as nat,
            entry_cities(pv[i - 1], bridges[i - 1]),
            pv[i - 1].level,
            seq![pv[i - 1].parent as usize],
            children_in(pv, i as nat, pv.len()),
        )
}


proof fn lemma_children_in_empty(pv: Seq<PlanEntry>, k: nat, upto: nat)
    requires
        upto <= pv.len(),
    ensures
        children_in(pv, k, upto).len() == 0 <==> forall|j: int| 0 <= j < upto ==> #[trigger] pv[j].parent != k,
    decreases upto,
{
    if upto > 0 {
        lemma_children_in_empty(pv, k, (upto - 1) as nat);
    }
}

/// In a planned tree the first entry hangs below the subtree's parent, and
/// every internal entry is directly followed by its first child.
proof fn lemma_plan_internal_child(
    max_depth: nat,
    max_sub: nat,
    min_c: nat,
    cities: Seq<usize>,
    sorted: Seq<usize>,
    depth: nat,
    parent: nat,
    id: nat,
)
    ensures
        ({
            let p = plan_tree(max_depth, max_sub, min_c, cities, sorted, depth, parent, id);
            &&& p.len() >= 1
            &&& p[0].parent == parent
            &&& forall|t: int|
                0 <= t < p.len() && (#[trigger] p[t]).split is Some ==> t + 1 < p.len() && p[t + 1].parent == id
                    + t
        }),
    decreases sorted.len(),
{
    if !(depth >= max_depth || cities.len() <= max_sub || cities.len() <= min_c) {
        let m = sorted.len() / 2;
        let left = sorted.take(m as int);
        let right = sorted.skip(m as int);
        if !(left.len() < min_c || right.len() < min_c || left.len() == 0 || right.len() == 0) {
            let lp = plan_tree(max_depth, max_sub, min_c, left, left, depth + 1, id, id + 1);
            let rp = plan_tree(max_depth, max_sub, min_c, right, right, depth + 1, id, id + 1 + lp.len());
            lemma_plan_internal_child(max_depth, max_sub, min_c, left, left, depth + 1, id, id + 1);
            lemma_plan_internal_child(max_depth, max_sub, min_c, right, right, depth + 1, id, id + 1 + lp.len());
            let head = PlanEntry { cities: Seq::empty(), level: depth + 1, parent, split: Some((left, right)) };
            let p = seq![head] + lp + rp;
            assert forall|t: int| 0 <= t < p.len() && (#[trigger] p[t]).split is Some implies t + 1 < p.len()
                && p[t + 1].parent == id + t by {
                if t == 0 {
                    assert(p[1] == lp[0]);
                } else if t < 1 + lp.len() {
                    assert(p[t] == lp[t - 1]);
                    assert(p[t + 1] == lp[t]);
                } else {
                    let k = t - 1 - lp.len();
                    assert(p[t] == rp[k]);
                    assert(p[t + 1] == rp[k + 1]);
                }
            }
        }
    }
}

/// The cities of the nodes with the given ids, one after the other.
pub open spec fn cities_of(nodes: Seq<DAGNode>, ids: Seq<usize>) -> Seq<usize> {
    flatten(ids.map_values(|id: usize| nodes[id as int].cities@))
}


#[verifier::spinoff_prover]
proof fn lemma_leaves_prefix(
    pv: Seq<PlanEntry>,
    bridges: Seq<(usize, usize)>,
    max_sub: nat,
    nodes: Seq<DAGNode>,
    m: nat,
)
    requires
        1 <= m <= pv.len() + 1,
        pv.len() >= 1,
        pv[0].parent == 0,
        is_assembly(nodes, pv, bridges, max_sub),
        plan_is_tree(pv, 0, 1, 0),
        forall|t: int| 0 <= t < pv.len() && (#[trigger] pv[t]).split is Some ==> t + 1 < pv.len() && pv[t + 1].parent
            == 1 + t,
    ensures
        cities_of(nodes, childless(nodes, m)) == leaf_cities(pv.take(m - 1)),
    decreases m,
{
    let f = |id: usize| nodes[id as int].cities@;
    if m == 1 {
        lemma_children_in_empty(pv, 0, pv.len());
        assert(nodes[0].child_ids@.len() != 0);
        assert(childless(nodes, 1) =~= Seq::<usize>::empty()) by {
            assert(childless(nodes, 0) =~= Seq::<usize>::empty());
        }
        assert(pv.take(0) =~= Seq::<PlanEntry>::empty());
        assert(childless(nodes, 1).map_values(f) =~= Seq::<Seq<usize>>::empty());
        assert(flatten(Seq::<Seq<usize>>::empty()) =~= Seq::<usize>::empty());
        assert(leaf_cities(Seq::<PlanEntry>::empty()) =~= Seq::<usize>::empty());
    } else {
        let k = (m - 1) as nat;
        lemma_leaves_prefix(pv, bridges, max_sub, nodes, k);
        let e = pv[k - 1];
        lemma_children_in_empty(pv, k, pv.len());
        let prev = childless(nodes, k);
        assert(node_fields(
            nodes[k as int],
            k,
            entry_cities(e, bridges[k - 1]),
            e.level,
            seq![e.parent as usize],
            children_in(pv, k, pv.len()),
        ));
        assert(pv.take(k as int).drop_last() =~= pv.take(k - 1));
        assert(pv.take(k as int).last() == e);
        if e.split is Some {
            assert(pv[k as int].parent == k);
            assert(nodes[k as int].child_ids@.len() != 0);
            assert(childless(nodes, m) == prev);
            assert(leaf_cities(pv.take(k as int)) == leaf_cities(pv.take(k - 1)));
        } else {
            assert forall|j: int| 0 <= j < pv.len() implies #[trigger] pv[j].parent != k by {
                if pv[j].parent == k {
                    assert(pv[pv[j].parent - 1].split is Some);
                }
            }
            assert(nodes[k as int].child_ids@.len() == 0);
            assert(childless(nodes, m) == prev.push(k as usize));
            assert(prev.push(k as usize).map_values(f) =~= prev.map_values(f).push(f(k as usize)));
            lemma_flatten_push(prev.map_values(f), f(k as usize));
            assert(f(k as usize) == e.cities);
        }
    }
}

/// The leaves of a DAG assembled from a planned tree hold every city `0..n`
/// exactly once, when the splitting order is itself an ordering of all cities.
pub proof fn lemma_tree_leaves_cover_cities(
    max_depth: nat,
    max_sub: nat,
    min_c: nat,
    n: usize,
    sorted: Seq<usize>,
    bridges: Seq<(usize, usize)>,
    nodes: Seq<DAGNode>,
)
    requires
        is_tour(sorted, n as nat),
        bridges.len() == plan_tree(max_depth, max_sub, min_c, range_seq(0, n as nat), sorted, 0, 0, 1).len(),
        is_assembly(
            nodes,
            plan_tree(max_depth, max_sub, min_c, range_seq(0, n as nat), sorted, 0, 0, 1),
            bridges,
            max_sub,
        ),
    ensures
        is_tour(cities_of(nodes, leaves_of(nodes)), n as nat),
{
    let pv = plan_tree(max_depth, max_sub, min_c, range_seq(0, n as nat), sorted, 0, 0, 1);
    lemma_plan_covers_all_cities(max_depth, max_sub, min_c, n, sorted);
    lemma_plan_is_tree(max_depth, max_sub, min_c, range_seq(0, n as nat), sorted, 0, 0, 1);
    lemma_plan_internal_child(max_depth, max_sub, min_c, range_seq(0, n as nat), sorted, 0, 0, 1);
    lemma_leaves_prefix(pv, bridges, max_sub, nodes, pv.len() + 1);
    assert(pv.take(pv.len() as int) =~= pv);
}


/// The nodes form a tree rooted at node 0: the root has no parent and level 0;
/// every other node has exactly one parent, of smaller id, lists it among that
/// parent's children and sits one level below it; and every listed child is a
/// non-root node naming that parent.
pub open spec fn is_tree_dag(nodes: Seq<DAGNode>) -> bool {
    &&& nodes.len() >= 1
    &&& ids_match(nodes)
    &&& nodes[0].parent_ids@.len() == 0
    &&& nodes[0].level == 0
    &&& forall|k: int|
        1 <= k < nodes.len() ==> {
            &&& (#[trigger] nodes[k]).parent_ids@.len() == 1
            &&& nodes[k].parent_ids@[0] < k
            &&& nodes[nodes[k].parent_ids@[0] as int].child_ids@.contains(k as usize)
            &&& nodes[k].level == nodes[nodes[k].parent_ids@[0] as int].level + 1
        }
    &&& forall|q: int, c: int|
        0 <= q < nodes.len() && 0 <= c < nodes[q].child_ids@.len() ==> {
            &&& 0 < #[trigger] nodes[q].child_ids@[c] < nodes.len()
            &&& nodes[nodes[q].child_ids@[c] as int].parent_ids@ == seq![q as usize]
        }
}

/// The leaves are the childless nodes, each listed once.
pub proof fn lemma_leaves_are_childless(nodes: Seq<DAGNode>)
    requires
        nodes.len() <= usize::MAX + 1,
    ensures
        leaves_of(nodes).no_duplicates(),
        forall|k: usize|
            #[trigger] leaves_of(nodes).contains(k) <==> (k < nodes.len() && nodes[k as int].child_ids@.len()
                == 0),
{
    lemma_childless(nodes, nodes.len());
}

proof fn lemma_childless(nodes: Seq<DAGNode>, len: nat)
    requires
        len <= nodes.len(),
        len <= usize::MAX + 1,
    ensures
        childless(nodes, len).no_duplicates(),
        forall|k: usize|
            #[trigger] childless(nodes, len).contains(k) <==> (k < len && nodes[k as int].child_ids@.len() == 0),
    decreases len,
{
    if len > 0 {
        let rest = childless(nodes, (len - 1) as nat);
        lemma_childless(nodes, (len - 1) as nat);
        let c = (len - 1) as usize;
        if nodes[len - 1].child_ids@.len() == 0 {
            let r = rest.push(c);
            assert forall|k: usize| #[trigger] r.contains(k) <==> (rest.contains(k) || k == c) by {
                if r.contains(k) {
                    let i = choose|i: int| 0 <= i < r.len() && r[i] == k;
                    if i < rest.len() {
                        assert(rest[i] == k);
                    }
                }
                if rest.contains(k) {
                    let i = choose|i: int| 0 <= i < rest.len() && rest[i] == k;
                    assert(r[i] == k);
                }
                if k == c {
                    assert(r[rest.len() as int] == k);
                }
            }
            assert forall|i: int, j: int| 0 <= i < r.len() && 0 <= j < r.len() && i != j implies r[i] != r[j] by {
                if i < rest.len() && j < rest.len() {
                } else if i < rest.len() {
                    assert(r[i] == rest[i]);
                    assert(rest.contains(r[i]));
                } else {
                    assert(r[j] == rest[j]);
                    assert(rest.contains(r[j]));
                }
            }
        }
    }
}

proof fn lemma_children_in_contains(pv: Seq<PlanEntry>, p: nat, upto: nat, c: usize)
    requires
        upto <= pv.len(),
        upto <= usize::MAX,
    ensures
        children_in(pv, p, upto).contains(c) <==> (1 <= c <= upto && pv[c - 1].parent == p),
        forall|i: int| 0 <= i < children_in(pv, p, upto).len() ==> 1 <= #[trigger] children_in(pv, p, upto)[i] <= upto,
    decreases upto,
{
    if upto > 0 {
        lemma_children_in_contains(pv, p, (upto - 1) as nat, c);
        let rest = children_in(pv, p, (upto - 1) as nat);
        if pv[upto - 1].parent == p {
            let r = rest.push(upto as usize);
            if r.contains(c) {
                let i = choose|i: int| 0 <= i < r.len() && r[i] == c;
                if i < rest.len() {
                    assert(rest[i] == c);
                }
            }
            if rest.contains(c) {
                let i = choose|i: int| 0 <= i < rest.len() && rest[i] == c;
                assert(r[i] == c);
            }
            if c == upto {
                assert(r[rest.len() as int] == c);
            }
            assert forall|i: int| 0 <= i < r.len() implies 1 <= #[trigger] r[i] <= upto by {
                if i < rest.len() {
                    assert(r[i] == rest[i]);
                }
            }
        }
    }
}

/// A DAG assembled from a plan that is a tree (every entry hangs below the root
/// or below an earlier entry, one level deeper) is itself a tree rooted at node 0:
/// each other node has exactly one parent, is listed among its children, and sits
/// one level below it.
pub proof fn lemma_assembly_is_tree(
    pv: Seq<PlanEntry>,
    bridges: Seq<(usize, usize)>,
    max_sub: nat,
    nodes: Seq<DAGNode>,
)
    requires
        bridges.len() == pv.len(),
        plan_is_tree(pv, 0, 1, 0),
        is_assembly(nodes, pv, bridges, max_sub),
    ensures
        is_tree_dag(nodes),
{
    assert(nodes[nodes.len() - 1].node_id == nodes.len() - 1);
    assert(pv.len() <= usize::MAX);
    assert(nodes[0].parent_ids@.len() == 0);
    assert forall|k: int| 1 <= k < nodes.len() implies {
        &&& (#[trigger] nodes[k]).parent_ids@.len() == 1
        &&& nodes[k].parent_ids@[0] < k
        &&& nodes[nodes[k].parent_ids@[0] as int].child_ids@.contains(k as usize)
        &&& nodes[k].level == nodes[nodes[k].parent_ids@[0] as int].level + 1
    } by {
        let e = pv[k - 1];
        let p = e.parent;
        assert(node_fields(nodes[k], k as nat, entry_cities(e, bridges[k - 1]), e.level, seq![p as usize], children_in(pv, k as nat, pv.len())));
        assert(nodes[k].parent_ids@[0] == p as usize);
        assert(p < k);
        lemma_children_in_contains(pv, p, pv.len(), k as usize);
        if p != 0 {
            let q = pv[p - 1];
            assert(node_fields(nodes[p as int], p, entry_cities(q, bridges[p - 1]), q.level, seq![q.parent as usize], children_in(pv, p, pv.len())));
        }
    }
    assert forall|q: int, c: int| 0 <= q < nodes.len() && 0 <= c < nodes[q].child_ids@.len() implies {
        &&& 0 < #[trigger] nodes[q].child_ids@[c] < nodes.len()
        &&& nodes[nodes[q].child_ids@[c] as int].parent_ids@ == seq![q as usize]
    } by {
        let ch = nodes[q].child_ids@[c];
        if q == 0 {
            assert(nodes[q].child_ids@ == children_in(pv, 0, pv.len()));
        } else {
            assert(nodes[q].child_ids@ == children_in(pv, q as nat, pv.len()));
        }
        lemma_children_in_contains(pv, q as nat, pv.len(), ch);
        assert(nodes[q].child_ids@.contains(ch));
        let e = pv[ch - 1];
        assert(node_fields(nodes[ch as int], ch as nat, entry_cities(e, bridges[ch - 1]), e.level, seq![e.parent as usize], children_in(pv, ch as nat, pv.len())));
    }
}

/// The flat layout over the cities `0..n`: a root holding the first
/// `min(max_sub, n)` cities whose children, at level 1, are the overlapping
/// windows of `flat_chunks`, moving by `max_sub - overlap`.
pub open spec fn flat_layout(nodes: Seq<DAGNode>, n: nat, max_sub: nat, overlap: nat) -> bool {
    let stride = (max_sub - overlap) as nat;
    let chunks = flat_chunks(n, stride, overlap, stride);
    let first = if max_sub < n { max_sub } else { n };
    &&& nodes.len() == chunks.len() + 1
    &&& node_fields(nodes[0], 0, range_seq(0, first), 0, seq![], id_range(1, chunks.len() + 1))
    &&& forall|j: int|
        1 <= j < nodes.len() ==> node_fields(#[trigger] nodes[j], j as nat, chunks[j - 1], 1, seq![0usize], seq![])
}

/// One node, the root, holding every city `0..n`.
pub open spec fn single_layout(nodes: Seq<DAGNode>, n: nat) -> bool {
    &&& nodes.len() == 1
    &&& node_fields(nodes[0], 0, range_seq(0, n), 0, seq![], seq![])
}

/// The DAG assembled from the plan `pv` with its `bridges`, each node then
/// given the connection cities it shares with its parents.
pub open spec fn annotated_assembly(
    nodes: Seq<DAGNode>,
    pv: Seq<PlanEntry>,
    bridges: Seq<(usize, usize)>,
    max_sub: nat,
) -> bool {
    exists|pre: Seq<DAGNode>|
        {
            &&& is_assembly(pre, pv, bridges, max_sub)
            &&& nodes.len() == pre.len()
            &&& forall|i: int| 0 <= i < pre.len() ==> connected(pre, pre[i], #[trigger] nodes[i])
        }
}

/// The ways the decomposer can split the cities.
#[derive(Debug, Clone, Copy, PartialEq, Eq, Structural)]
pub enum Decomposition {
    SingleNode,
    Spectral,
    Flat,
}

/// All cities fit one subproblem: a single node. Otherwise the spectral tree,
/// which needs at least three cities (it orders them by the eigenvector of the
/// second smallest eigenvalue, with the third at hand). Otherwise the flat windows.
pub open spec fn decomposition_for(n: nat, max_sub: nat) -> Decomposition {
    if n <= max_sub {
        Decomposition::SingleNode
    } else if n >= 3 {
        Decomposition::Spectral
    } else {
        Decomposition::Flat
    }
}

/// Splits the cities into a DAG of clusters of bounded size.
pub struct AdaptiveDAGDecomposer {
    n: usize,
    max_sub: usize,
    max_depth: usize,
    min_cluster_size: usize,
    overlap_size: usize,
}

impl AdaptiveDAGDecomposer {
    #[verifier::type_invariant]
    spec fn wf(self) -> bool {
        &&& (self.max_sub >= 1 || self.n == 0)
        &&& self.max_depth == if log2_ratio(self.n as nat, self.max_sub as nat) + 1 > 2 {
            log2_ratio(self.n as nat, self.max_sub as nat) + 1
        } else {
            2
        }
        &&& self.min_cluster_size == if self.max_sub / 2 > 3 { self.max_sub / 2 } else { 3 }
        &&& self.overlap_size == if self.max_sub / 3 > 1 { self.max_sub / 3 } else { 1 }
        &&& self.max_depth <= 65
    }

    /// Number of cities.
    pub closed spec fn spec_n(self) -> nat {
        self.n as nat
    }

    /// Largest subproblem size.
    pub closed spec fn spec_max_sub(self) -> nat {
        self.max_sub as nat
    }

    /// `max(2, floor(log2(n / max_sub)) + 1)`.
    pub closed spec fn spec_max_depth(self) -> nat {
        self.max_depth as nat
    }

    /// `max(3, max_sub / 2)`.
    pub closed spec fn spec_min_cluster_size(self) -> nat {
        self.min_cluster_size as nat
    }

    /// `max(1, max_sub / 3)`.
    pub closed spec fn spec_overlap_size(self) -> nat {
        self.overlap_size as nat
    }

    /// A decomposer for `n` cities and subproblems of at most `max_sub` cities.
    /// The depth limit is `max(2, floor(log2(n / max_sub)) + 1)` (2 when there are no cities).
    pub fn new(n: usize, max_sub: usize) -> (d: Self)
        requires
            max_sub >= 1 || n == 0,
        ensures
            d.spec_n() == n,
            d.spec_max_sub() == max_sub,
            d.spec_max_depth() == if log2_ratio(n as nat, max_sub as nat) + 1 > 2 {
                log2_ratio(n as nat, max_sub as nat) + 1
            } else {
                2
            },
            d.spec_min_cluster_size() == if max_sub / 2 > 3 { max_sub / 2 } else { 3 },
            d.spec_overlap_size() == if max_sub / 3 > 1 { max_sub / 3 } else { 1 },
    {
        let lg = floor_log2_ratio(n, max_sub);
        let max_depth = if lg + 1 > 2 {
            lg + 1
        } else {
            2
        };
        let min_cluster_size = if max_sub / 2 > 3 {
            max_sub / 2
        } else {
            3
        };
        let overlap_size = if max_sub / 3 > 1 {
            max_sub / 3
        } else {
            1
        };
        AdaptiveDAGDecomposer { n, max_sub, max_depth, min_cluster_size, overlap_size }
    }

    /// Number of cities.
    pub fn n(&self) -> (n: usize)
        ensures
            n == self.spec_n(),
    {
        self.n
    }

    /// Largest subproblem size.
    pub fn max_sub(&self) -> (m: usize)
        ensures
            m == self.spec_max_sub(),
    {
        self.max_sub
    }

    /// Depth limit of the cluster tree.
    pub fn max_depth(&self) -> (m: usize)
        ensures
            m == self.spec_max_depth(),
    {
        self.max_depth
    }

    /// Smallest cluster a split may produce.
    pub fn min_cluster_size(&self) -> (m: usize)
        ensures
            m == self.spec_min_cluster_size(),
    {
        self.min_cluster_size
    }

    /// Overlap between flat windows.
    pub fn overlap_size(&self) -> (m: usize)
        ensures
            m == self.spec_overlap_size(),
    {
        self.overlap_size
    }

    /// The DAG with one node holding every city.
    pub fn single_node(&self) -> (dag: DAGGraph)
        ensures
            dense(dag.nodes@),
            node_seq(dag.nodes@).len() == 1,
            node_fields(node_seq(dag.nodes@)[0], 0, range_seq(0, self.spec_n()), 0, seq![], seq![]),
            is_tree_dag(node_seq(dag.nodes@)),
            dag.roots@ == seq![0usize],
            dag.leaves@ == seq![0usize],
    {
        let cities = id_vec(0, self.n);
        let node = DAGNode {
            node_id: 0,
            cities,
            level: 0,
            parent_ids: Vec::new(),
            child_ids: Vec::new(),
            connection_cities: Vec::new(),
        };
        let mut nodes: Vec<DAGNode> = Vec::new();
        nodes.push(node);
        let mut roots: Vec<usize> = Vec::new();
        roots.push(0);
        let mut leaves: Vec<usize> = Vec::new();
        leaves.push(0);
        assert(nodes@[0].parent_ids@ =~= seq![]);
        assert(nodes@[0].child_ids@ =~= seq![]);
        let nodes = into_map(nodes);
        DAGGraph { nodes, roots, leaves }
    }


    /// Plan the cluster tree over the cities `0..n`, splitting by `sorted`
    /// (the cities ordered by their first spectral coordinate).
    pub fn build_tree_plan(&self, sorted: &Vec<usize>) -> (plan: Vec<TreePlanNode>)
        requires
            sorted@.len() == self.spec_n(),
            2 * self.spec_n() + 3 <= usize::MAX,
        ensures
            plan_views(plan@) == plan_tree(
                self.spec_max_depth(),
                self.spec_max_sub(),
                self.spec_min_cluster_size(),
                range_seq(0, self.spec_n()),
                sorted@,
                0,
                0,
                1,
            ),
            plan_is_tree(plan_views(plan@), 0, 1, 0),
            obeys_depth_rule(
                plan_views(plan@),
                1,
                self.spec_max_depth(),
                self.spec_max_sub(),
                self.spec_min_cluster_size(),
            ),
    {
        proof {
            use_type_invariant(self);
            lemma_plan_depth_rule(
                self.spec_max_depth(),
                self.spec_max_sub(),
                self.spec_min_cluster_size(),
                range_seq(0, self.spec_n()),
                sorted@,
                0,
                0,
                1,
            );
            lemma_plan_is_tree(
                self.spec_max_depth(),
                self.spec_max_sub(),
                self.spec_min_cluster_size(),
                range_seq(0, self.spec_n()),
                sorted@,
                0,
                0,
                1,
            );
        }
        let cities = id_vec(0, self.n);
        let mut plan: Vec<TreePlanNode> = Vec::new();
        self.build_dag_tree(&cities, sorted, 0, 0, &mut plan);
        assert(plan_views(plan@) =~= plan_views(Seq::<TreePlanNode>::empty()) + plan_tree(
            self.spec_max_depth(),
            self.spec_max_sub(),
            self.spec_min_cluster_size(),
            range_seq(0, self.spec_n()),
            sorted@,
            0,
            0,
            1,
        ));
        plan
    }

    fn build_dag_tree(
        &self,
        cities: &Vec<usize>,
        sorted: &Vec<usize>,
        depth: usize,
        parent_id: usize,
        out: &mut Vec<TreePlanNode>,
    )
        requires
            sorted@.len() == cities@.len(),
            depth <= self.spec_max_depth(),
            old(out)@.len() + 2 * (if sorted@.len() > 1 { sorted@.len() } else { 1 }) + 1 <= usize::MAX,
        ensures
            plan_views(final(out)@) == plan_views(old(out)@) + plan_tree(
                self.spec_max_depth(),
                self.spec_max_sub(),
                self.spec_min_cluster_size(),
                cities@,
                sorted@,
                depth as nat,
                parent_id as nat,
                (old(out)@.len() + 1) as nat,
            ),
        decreases sorted@.len(),
    {
        proof {
            use_type_invariant(self);
        }
        let ghost start = out@;
        let ghost id = (out@.len() + 1) as nat;
        let ghost target = plan_tree(
            self.max_depth as nat,
            self.max_sub as nat,
            self.min_cluster_size as nat,
            cities@,
            sorted@,
            depth as nat,
            parent_id as nat,
            id,
        );
        if depth >= self.max_depth || cities.len() <= self.max_sub || cities.len()
            <= self.min_cluster_size {
            let node = TreePlanNode { cities: copy_vec(cities), level: depth + 1, parent_id, split: None };
            out.push(node);
            assert(plan_views(out@) =~= plan_views(start) + target);
            return;
        }
        let median = sorted.len() / 2;
        let left = sub_vec(sorted, 0, median);
        let right = sub_vec(sorted, median, sorted.len());
        assert(left@ =~= sorted@.take(median as int));
        assert(right@ =~= sorted@.skip(median as int));
        if left.len() < self.min_cluster_size || right.len() < self.min_cluster_size {
            let node = TreePlanNode { cities: copy_vec(cities), level: depth + 1, parent_id, split: None };
            out.push(node);
            assert(plan_views(out@) =~= plan_views(start) + target);
            return;
        }
        let internal_id = out.len() + 1;
        let node = TreePlanNode {
            cities: Vec::new(),
            level: depth + 1,
            parent_id,
            split: Some((copy_vec(&left), copy_vec(&right))),
        };
        out.push(node);
        let ghost after_node = out@;
        assert(plan_views(after_node) =~= plan_views(start).push(node@));
        proof {
            lemma_plan_tree_len(
                self.max_depth as nat,
                self.max_sub as nat,
                self.min_cluster_size as nat,
                left@,
                left@,
                (depth + 1) as nat,
                internal_id as nat,
                (internal_id + 1) as nat,
            );
        }
        self.build_dag_tree(&left, &left, depth + 1, internal_id, out);
        let ghost lp = plan_tree(
            self.max_depth as nat,
            self.max_sub as nat,
            self.min_cluster_size as nat,
            left@,
            left@,
            (depth + 1) as nat,
            internal_id as nat,
            (internal_id + 1) as nat,
        );
        assert(out@.len() == after_node.len() + lp.len()) by {
            assert(plan_views(out@).len() == out@.len());
        }
        self.build_dag_tree(&right, &right, depth + 1, internal_id, out);
        assert(plan_views(out@) =~= plan_views(start) + target);
    }


    /// The DAG of a planned tree: node 0 is the root, holding the distinct
    /// bridge cities (at most `max_sub`, or city 0 when there are none); node
    /// `i >= 1` is plan entry `i - 1`, an internal one holding its two bridge
    /// cities `bridges[i - 1]`.
    pub fn assemble_tree(&self, plan: &Vec<TreePlanNode>, bridges: &Vec<(usize, usize)>) -> (dag: DAGGraph)
        requires
            bridges@.len() == plan@.len(),
            plan@.len() < usize::MAX,
        ensures
            dense(dag.nodes@),
            is_assembly(node_seq(dag.nodes@), plan_views(plan@), bridges@, self.spec_max_sub()),
            dag.roots@ == seq![0usize],
            dag.leaves@ == leaves_of(node_seq(dag.nodes@)),
            dag.leaves@.no_duplicates(),
            forall|k: usize|
                #[trigger] dag.leaves@.contains(k) <==> (k < dag.nodes@.len()
                    && dag.nodes@[k].child_ids@.len() == 0),
            plan_is_tree(plan_views(plan@), 0, 1, 0) ==> is_tree_dag(node_seq(dag.nodes@)),
    {
        let ghost pv = plan_views(plan@);
        let mut nodes: Vec<DAGNode> = Vec::new();
        let root = DAGNode {
            node_id: 0,
            cities: self.root_cities(plan, bridges),
            level: 0,
            parent_ids: Vec::new(),
            child_ids: children_of(plan, 0),
            connection_cities: Vec::new(),
        };
        nodes.push(root);
        assert(nodes@[0].parent_ids@ =~= seq![]);
        let mut i: usize = 0;
        while i < plan.len()
            invariant
                i <= plan@.len(),
                pv == plan_views(plan@),
                bridges@.len() == plan@.len(),
                plan@.len() < usize::MAX,
                nodes@.len() == i + 1,
                node_fields(
                    nodes@[0],
                    0,
                    root_cities(pv, bridges@, self.spec_max_sub()),
                    0,
                    seq![],
                    children_in(pv, 0, plan@.len() as nat),
                ),
                forall|j: int|
                    1 <= j < nodes@.len() ==> node_fields(
                        #[trigger] nodes@[j],
                        j as nat,
                        entry_cities(plan@[j - 1]@, bridges@[j - 1]),
                        plan@[j - 1].level as nat,
                        seq![plan@[j - 1].parent_id],
                        children_in(pv, j as nat, plan@.len() as nat),
                    ),
            decreases plan@.len() - i,
        {
            let entry = &plan[i];
            let cities = match &entry.split {
                Some(_) => {
                    let mut c: Vec<usize> = Vec::new();
                    c.push(bridges[i].0);
                    c.push(bridges[i].1);
                    c
                },
                None => copy_vec(&entry.cities),
            };
            let mut parents: Vec<usize> = Vec::new();
            parents.push(entry.parent_id);
            let node = DAGNode {
                node_id: i + 1,
                cities,
                level: entry.level,
                parent_ids: parents,
                child_ids: children_of(plan, i + 1),
                connection_cities: Vec::new(),
            };
            assert(node.cities@ =~= entry_cities(plan@[i as int]@, bridges@[i as int]));
            assert(node.parent_ids@ =~= seq![plan@[i as int].parent_id]);
            nodes.push(node);
            i = i + 1;
        }
        assert forall|j: int| 1 <= j < nodes@.len() implies node_fields(
            #[trigger] nodes@[j],
            j as nat,
            entry_cities(pv[j - 1], bridges@[j - 1]),
            pv[j - 1].level,
            seq![pv[j - 1].parent as usize],
            children_in(pv, j as nat, pv.len()),
        ) by {
            assert(pv[j - 1] == plan@[j - 1]@);
        }
        let leaves = compute_leaves(&nodes);
        let mut roots: Vec<usize> = Vec::new();
        roots.push(0);
        let ghost node_list = nodes@;
        let nodes = into_map(nodes);
        let dag = DAGGraph { nodes, roots, leaves };
        proof {
            assert(node_seq(dag.nodes@) =~= node_list);
            lemma_leaves_are_childless(node_list);
            if plan_is_tree(pv, 0, 1, 0) {
                lemma_assembly_is_tree(pv, bridges@, self.spec_max_sub(), node_list);
            }
        }
        dag
    }

    /// The distinct bridge cities in plan order, at most `max_sub`; `[0]` when there are none.
    fn root_cities(&self, plan: &Vec<TreePlanNode>, bridges: &Vec<(usize, usize)>) -> (cities: Vec<usize>)
        requires
            bridges@.len() == plan@.len(),
        ensures
            cities@ == root_cities(plan_views(plan@), bridges@, self.spec_max_sub()),
    {
        let ghost pv = plan_views(plan@);
        let mut seen: std::collections::HashSet<usize> = std::collections::HashSet::new();
        let mut distinct: Vec<usize> = Vec::new();
        let mut i: usize = 0;
        proof {
            crate::tour::lemma_first_occurrences(Seq::empty());
        }
        while i < plan.len()
            invariant
                i <= plan@.len(),
                pv == plan_views(plan@),
                bridges@.len() == plan@.len(),
                distinct@ == first_occurrences(bridge_sequence(pv, bridges@, i as nat)),
                seen@ == bridge_sequence(pv, bridges@, i as nat).to_set(),
            decreases plan@.len() - i,
        {
            let ghost b0 = bridge_sequence(pv, bridges@, i as nat);
            if plan[i].split.is_some() {
                let (a, b) = bridges[i];
                proof {
                    crate::tour::lemma_first_occurrences(b0);
                    crate::tour::lemma_push_to_set(b0, a);
                    crate::tour::lemma_push_to_set(b0.push(a), b);
                    assert(b0.push(a).drop_last() =~= b0);
                    assert(b0.push(a).push(b).drop_last() =~= b0.push(a));
                    crate::tour::lemma_first_occurrences(b0.push(a));
                }
                if seen.insert(a) {
                    distinct.push(a);
                }
                if seen.insert(b) {
                    distinct.push(b);
                }
            }
            i = i + 1;
        }
        assert(plan_views(plan@).len() == plan@.len());
        if distinct.len() == 0 {
            let mut c: Vec<usize> = Vec::new();
            c.push(0);
            return c;
        }
        if distinct.len() <= self.max_sub {
            distinct
        } else {
            let c = sub_vec(&distinct, 0, self.max_sub);
            assert(c@ =~= distinct@.take(self.max_sub as int));
            c
        }
    }

    /// The flat fallback: a root holding the first `max_sub` cities and, as its
    /// children, overlapping windows of consecutive cities (see `flat_chunks`),
    /// starting at `max_sub - overlap` and moving by the same amount.
    pub fn fallback_flat(&self) -> (dag: DAGGraph)
        requires
            self.spec_max_sub() > self.spec_overlap_size(),
            self.spec_n() + self.spec_max_sub() <= usize::MAX,
        ensures
            flat_layout(node_seq(dag.nodes@), self.spec_n(), self.spec_max_sub(), self.spec_overlap_size()),
            dense(dag.nodes@),
            is_tree_dag(node_seq(dag.nodes@)),
            dag.roots@ == seq![0usize],
            dag.leaves@ == leaves_of(node_seq(dag.nodes@)),
    {
        proof {
            use_type_invariant(self);
        }
        let n = self.n;
        let stride = self.max_sub - self.overlap_size;
        let ghost chunks = flat_chunks(n as nat, stride as nat, self.overlap_size as nat, stride as nat);
        let mut children: Vec<DAGNode> = Vec::new();
        let mut child_ids: Vec<usize> = Vec::new();
        let mut node_id: usize = 1;
        let mut i = self.max_sub - self.overlap_size;
        let ghost mut done: Seq<Seq<usize>> = Seq::empty();
        assert(done + flat_chunks(n as nat, stride as nat, self.overlap_size as nat, i as nat) =~= chunks);
        while i < n
            invariant
                stride >= 1,
                stride == self.max_sub - self.overlap_size,
                n == self.n,
                n + self.max_sub <= usize::MAX,
                node_id == done.len() + 1,
                children@.len() == done.len(),
                child_ids@ == id_range(1, node_id as nat),
                done + (if i < n {
                    flat_chunks(n as nat, stride as nat, self.overlap_size as nat, i as nat)
                } else {
                    Seq::empty()
                }) == chunks,
                forall|j: int|
                    0 <= j < children@.len() ==> node_fields(
                        #[trigger] children@[j],
                        (j + 1) as nat,
                        done[j],
                        1,
                        seq![0usize],
                        seq![],
                    ),
                done.len() <= i,
            decreases n + stride - i,
        {
            let start = i.saturating_sub(self.overlap_size);
            let end = if i + stride < n {
                i + stride
            } else {
                n
            };
            let chunk = id_vec(start, end);
            let ghost rest = if i + stride < n {
                flat_chunks(n as nat, stride as nat, self.overlap_size as nat, (i + stride) as nat)
            } else {
                Seq::empty()
            };
            if chunk.len() >= 2 {
                let mut parents: Vec<usize> = Vec::new();
                parents.push(0);
                let node = DAGNode {
                    node_id,
                    cities: chunk,
                    level: 1,
                    parent_ids: parents,
                    child_ids: Vec::new(),
                    connection_cities: Vec::new(),
                };
                proof {
                    assert(node.parent_ids@ =~= seq![0usize]);
                    assert(node.child_ids@ =~= seq![]);
                    done = done.push(node.cities@);
                }
                children.push(node);
                assert(id_range(1, node_id as nat).push(node_id) =~= id_range(1, (node_id + 1) as nat));
                child_ids.push(node_id);
                node_id = node_id + 1;
            }
            proof {
                assert(done + (if i + stride < n {
                    flat_chunks(n as nat, stride as nat, self.overlap_size as nat, (i + stride) as nat)
                } else {
                    Seq::empty()
                }) =~= chunks);
            }
            i = i + stride;
        }
        assert(done =~= chunks);
        let first_end = if self.max_sub < n {
            self.max_sub
        } else {
            n
        };
        let root = DAGNode {
            node_id: 0,
            cities: id_vec(0, first_end),
            level: 0,
            parent_ids: Vec::new(),
            child_ids,
            connection_cities: Vec::new(),
        };
        let mut nodes: Vec<DAGNode> = Vec::new();
        nodes.push(root);
        let ghost root_v = nodes@[0];
        let ghost ch = children@;
        nodes.append(&mut children);
        assert(nodes@[0] == root_v);
        assert(nodes@[0].parent_ids@ =~= seq![]);
        assert forall|j: int| 1 <= j < nodes@.len() implies node_fields(
            #[trigger] nodes@[j],
            j as nat,
            chunks[j - 1],
            1,
            seq![0usize],
            seq![],
        ) by {
            assert(nodes@[j] == ch[j - 1]);
        }
        proof {
            let c = chunks.len();
            lemma_range_seq(1, c + 1);
            assert forall|k: int| 1 <= k < nodes@.len() implies {
                &&& (#[trigger] nodes@[k]).parent_ids@.len() == 1
                &&& nodes@[k].parent_ids@[0] < k
                &&& nodes@[nodes@[k].parent_ids@[0] as int].child_ids@.contains(k as usize)
                &&& nodes@[k].level == nodes@[nodes@[k].parent_ids@[0] as int].level + 1
            } by {
                assert(nodes@[k] == ch[k - 1]);
                assert(nodes@[0].child_ids@[k - 1] == k);
            }
            assert forall|q: int, cc: int| 0 <= q < nodes@.len() && 0 <= cc < nodes@[q].child_ids@.len() implies {
                &&& 0 < #[trigger] nodes@[q].child_ids@[cc] < nodes@.len()
                &&& nodes@[nodes@[q].child_ids@[cc] as int].parent_ids@ == seq![q as usize]
            } by {
                if q > 0 {
                    assert(nodes@[q] == ch[q - 1]);
                }
                let x = nodes@[q].child_ids@[cc];
                assert(nodes@[x as int] == ch[x - 1]);
            }
        }
        let leaves = compute_leaves(&nodes);
        let mut roots: Vec<usize> = Vec::new();
        roots.push(0);
        let nodes = into_map(nodes);
        DAGGraph { nodes, roots, leaves }
    }
}

/// `floor(log2(n / m))`, 0 when `n < 2m`.
fn floor_log2_ratio(n: usize, m: usize) -> (d: usize)
    ensures
        d == log2_ratio(n as nat, m as nat),
        d <= 64,
{
    if m == 0 {
        return 0;
    }
    let mut d: usize = 0;
    let mut w: usize = m;
    proof {
        vstd::arithmetic::power2::lemma2_to64();
    }
    while w <= n / 2
        invariant
            w >= 1,
            w <= n || d == 0,
            d <= 64,
            d + log2_ratio(n as nat, w as nat) == log2_ratio(n as nat, m as nat),
            w >= vstd::arithmetic::power2::pow2(d as nat),
        decreases n - w,
    {
        proof {
            vstd::arithmetic::power2::lemma_pow2_unfold((d + 1) as nat);
            if d >= 63 {
                vstd::arithmetic::power2::lemma2_to64_rest();
                vstd::arithmetic::power2::lemma_pow2_strictly_increases(63, d as nat);
            }
        }
        w = w * 2;
        d = d + 1;
    }
    d
}

impl AdaptiveDAGDecomposer {
    /// The decomposition that `decompose` applies.
    pub fn decomposition(&self) -> (d: Decomposition)
        ensures
            d == decomposition_for(self.spec_n(), self.spec_max_sub()),
    {
        if self.n <= self.max_sub {
            Decomposition::SingleNode
        } else if self.n >= 3 {
            Decomposition::Spectral
        } else {
            Decomposition::Flat
        }
    }

    /// Decompose the cities `0..n`: a single node when they fit one subproblem;
    /// otherwise the cluster tree planned over the spectral order `sorted` and
    /// assembled with `bridges` (one pair per plan entry), with connection
    /// cities added; otherwise the flat windows. `sorted` and `bridges` are
    /// read only for the spectral tree.
    pub fn decompose(&self, sorted: &Vec<usize>, bridges: &Vec<(usize, usize)>) -> (dag: DAGGraph)
        requires
            decomposition_for(self.spec_n(), self.spec_max_sub()) == Decomposition::Spectral ==> {
                &&& sorted@.len() == self.spec_n()
                &&& 2 * self.spec_n() + 3 <= usize::MAX
                &&& bridges@.len() == plan_tree(
                    self.spec_max_depth(),
                    self.spec_max_sub(),
                    self.spec_min_cluster_size(),
                    range_seq(0, self.spec_n()),
                    sorted@,
                    0,
                    0,
                    1,
                ).len()
            },
            decomposition_for(self.spec_n(), self.spec_max_sub()) == Decomposition::Flat ==> {
                &&& self.spec_max_sub() > self.spec_overlap_size()
                &&& self.spec_n() + self.spec_max_sub() <= usize::MAX
            },
        ensures
            dense(dag.nodes@),
            dag.roots@ == seq![0usize],
            dag.leaves@.no_duplicates(),
            forall|k: usize|
                #[trigger] dag.leaves@.contains(k) <==> (k < dag.nodes@.len()
                    && dag.nodes@[k].child_ids@.len() == 0),
            is_tree_dag(node_seq(dag.nodes@)),
            match decomposition_for(self.spec_n(), self.spec_max_sub()) {
                Decomposition::SingleNode => single_layout(node_seq(dag.nodes@), self.spec_n()),
                Decomposition::Spectral => annotated_assembly(
                    node_seq(dag.nodes@),
                    plan_tree(
                        self.spec_max_depth(),
                        self.spec_max_sub(),
                        self.spec_min_cluster_size(),
                        range_seq(0, self.spec_n()),
                        sorted@,
                        0,
                        0,
                        1,
                    ),
                    bridges@,
                    self.spec_max_sub(),
                ),
                Decomposition::Flat => flat_layout(
                    node_seq(dag.nodes@),
                    self.spec_n(),
                    self.spec_max_sub(),
                    self.spec_overlap_size(),
                ),
            },
    {
        if self.n <= self.max_sub {
            let dag = self.single_node();
            proof {
                assert(node_seq(dag.nodes@)[0] == dag.nodes@[0]);
                assert forall|k: usize| #[trigger] dag.leaves@.contains(k) <==> (k < dag.nodes@.len()
                    && dag.nodes@[k].child_ids@.len() == 0) by {
                    if dag.leaves@.contains(k) {
                        let i = choose|i: int| 0 <= i < dag.leaves@.len() && dag.leaves@[i] == k;
                        assert(i == 0);
                    }
                    if k == 0 {
                        assert(dag.leaves@[0] == k);
                    }
                }
            }
            return dag;
        }
        if self.n >= 3 {
            let plan = self.build_tree_plan(sorted);
            proof {
                lemma_plan_tree_len(
                    self.spec_max_depth(),
                    self.spec_max_sub(),
                    self.spec_min_cluster_size(),
                    range_seq(0, self.spec_n()),
                    sorted@,
                    0,
                    0,
                    1,
                );
                assert(plan_views(plan@).len() == plan@.len());
            }
            let mut dag = self.assemble_tree(&plan, bridges);
            let ghost pre = node_seq(dag.nodes@);
            annotate_connections(&mut dag);
            proof {
                let post = node_seq(dag.nodes@);
                assert forall|k: usize| k < dag.nodes@.len() implies #[trigger] dag.nodes@[k].child_ids@
                    == pre[k as int].child_ids@ by {
                    assert(post[k as int] == dag.nodes@[k]);
                    assert(connected(pre, pre[k as int], post[k as int]));
                }
                assert forall|k: usize| k < dag.nodes@.len() implies #[trigger] pre[k as int].child_ids@.len()
                    == 0 <==> dag.nodes@[k].child_ids@.len() == 0 by {
                    assert(dag.nodes@[k].child_ids@ == pre[k as int].child_ids@);
                }
            }
            return dag;
        }
        let dag = self.fallback_flat();
        proof {
            lemma_leaves_are_childless(node_seq(dag.nodes@));
            assert forall|k: usize| k < dag.nodes@.len() implies #[trigger] node_seq(dag.nodes@)[k as int]
                == dag.nodes@[k] by {}
        }
        dag
    }
}

/// The ids `from, from + 1, ..., to - 1`.
pub fn id_vec(from: usize, to: usize) -> (v: Vec<usize>)
    ensures
        v@ == range_seq(from as nat, to as nat),
{
    let mut v: Vec<usize> = Vec::new();
    let mut c = from;
    while c < to
        invariant
            from <= c,
            c <= to || c == from,
            v@ == range_seq(from as nat, c as nat),
        decreases to - c,
    {
        assert(range_seq(from as nat, c as nat).push(c) =~= range_seq(from as nat, (c + 1) as nat));
        v.push(c);
        c = c + 1;
    }
    assert(v@ =~= range_seq(from as nat, to as nat));
    v
}

/// The ids of the nodes without children, ascending.
pub fn compute_leaves(nodes: &Vec<DAGNode>) -> (leaves: Vec<usize>)
    ensures
        leaves@ == leaves_of(nodes@),
{
    let mut leaves: Vec<usize> = Vec::new();
    let mut i: usize = 0;
    while i < nodes.len()
        invariant
            i <= nodes@.len(),
            leaves@ == childless(nodes@, i as nat),
        decreases nodes@.len() - i,
    {
        if nodes[i].child_ids.len() == 0 {
            leaves.push(i);
        }
        i = i + 1;
    }
    leaves
}

/// The nodes keyed by their ids.
fn into_map(nodes: Vec<DAGNode>) -> (m: std::collections::HashMap<usize, DAGNode>)
    requires
        ids_match(nodes@),
    ensures
        dense(m@),
        node_seq(m@) == nodes@,
{
    let ghost all = nodes@;
    let total = nodes.len();
    let mut nodes = nodes;
    let mut m: std::collections::HashMap<usize, DAGNode> = std::collections::HashMap::new();
    while nodes.len() > 0
        invariant
            nodes@ == all.take(nodes@.len() as int),
            nodes@.len() <= all.len(),
            ids_match(all),
            m@.dom().finite(),
            m@.len() == all.len() - nodes@.len(),
            forall|k: usize| #[trigger] m@.dom().contains(k) <==> (nodes@.len() <= k < all.len()),
            forall|k: usize| nodes@.len() <= k < all.len() ==> #[trigger] m@[k] == all[k as int],
        decreases nodes@.len(),
    {
        let ghost before = m@;
        let node = nodes.pop().unwrap();
        let k = nodes.len();
        assert(!before.dom().contains(k));
        m.insert(k, node);
        assert(nodes@ =~= all.take(nodes@.len() as int));
        assert(m@.dom() =~= before.dom().insert(k));
    }
    assert(m@.len() == total);
    assert forall|i: int| 0 <= i < all.len() implies #[trigger] node_seq(m@)[i] == all[i] by {
        assert(i < total);
        assert(m@[i as usize] == all[(i as usize) as int]);
    }
    assert(node_seq(m@) =~= all);
    m
}

/// The ids (position + 1) of the plan entries whose parent is `p`, ascending.
fn children_of(plan: &Vec<TreePlanNode>, p: usize) -> (ids: Vec<usize>)
    requires
        plan@.len() < usize::MAX,
    ensures
        ids@ == children_in(plan_views(plan@), p as nat, plan@.len() as nat),
{
    let ghost pv = plan_views(plan@);
    let mut ids: Vec<usize> = Vec::new();
    let mut j: usize = 0;
    while j < plan.len()
        invariant
            j <= plan@.len(),
            plan@.len() < usize::MAX,
            pv == plan_views(plan@),
            ids@ == children_in(pv, p as nat, j as nat),
        decreases plan@.len() - j,
    {
        if plan[j].parent_id == p {
            ids.push(j + 1);
        }
        j = j + 1;
    }
    ids
}

/// Record in every node the cities it shares with its parents: each shared
/// city not yet among its connection cities is appended, parent by parent.
pub fn annotate_connections(dag: &mut DAGGraph)
    requires
        dense(old(dag).nodes@),
    ensures
        dense(final(dag).nodes@),
        node_seq(final(dag).nodes@).len() == node_seq(old(dag).nodes@).len(),
        forall|i: int|
            0 <= i < node_seq(old(dag).nodes@).len() ==> connected(
                node_seq(old(dag).nodes@),
                node_seq(old(dag).nodes@)[i],
                #[trigger] node_seq(final(dag).nodes@)[i],
            ),
        is_tree_dag(node_seq(old(dag).nodes@)) ==> is_tree_dag(node_seq(final(dag).nodes@)),
        forall|i: int, c: usize|
            0 <= i < node_seq(old(dag).nodes@).len() ==> (#[trigger] node_seq(
                final(dag).nodes@,
            )[i].connection_cities@.contains(c) <==> (node_seq(old(dag).nodes@)[i].connection_cities@.contains(c)
                || (node_seq(old(dag).nodes@)[i].cities@.contains(c) && exists|j: int|
                0 <= j < node_seq(old(dag).nodes@)[i].parent_ids@.len()
                    && node_seq(old(dag).nodes@)[i].parent_ids@[j] < node_seq(old(dag).nodes@).len()
                    && #[trigger] node_seq(old(dag).nodes@)[node_seq(
                    old(dag).nodes@,
                )[i].parent_ids@[j] as int].cities@.contains(c)))),
        forall|i: int|
            0 <= i < node_seq(old(dag).nodes@).len() && node_seq(old(dag).nodes@)[i].connection_cities@.len() == 0
                && node_seq(old(dag).nodes@)[i].parent_ids@.len() == 1
                && node_seq(old(dag).nodes@)[i].parent_ids@[0] < node_seq(old(dag).nodes@).len()
                && node_seq(old(dag).nodes@)[i].cities@.no_duplicates() ==> #[trigger] node_seq(
                final(dag).nodes@,
            )[i].connection_cities@ == node_seq(old(dag).nodes@)[i].cities@.filter(
                |c: usize|
                    node_seq(old(dag).nodes@)[node_seq(old(dag).nodes@)[i].parent_ids@[0] as int].cities@.contains(
                        c,
                    ),
            ),
        final(dag).roots@ == old(dag).roots@,
        final(dag).leaves@ == old(dag).leaves@,
{
    let ghost nodes0 = node_seq(dag.nodes@);
    let mut updated: Vec<DAGNode> = Vec::new();
    let len = dag.nodes.len();
    let mut i: usize = 0;
    while i < len
        invariant
            i <= len,
            len == nodes0.len(),
            dense(dag.nodes@),
            nodes0 == node_seq(dag.nodes@),
            updated@.len() == i,
            forall|j: int| 0 <= j < i ==> connected(nodes0, nodes0[j], #[trigger] updated@[j]),
        decreases len - i,
    {
        let node = dag.nodes.get(&i).unwrap();
        assert(*node == nodes0[i as int]);
        let mut conns = copy_vec(&node.connection_cities);
        let ghost mut processed: Seq<usize> = Seq::empty();
        let mut k: usize = 0;
        while k < node.parent_ids.len()
            invariant
                k <= node.parent_ids@.len(),
                len == nodes0.len(),
                *node == nodes0[i as int],
                dense(dag.nodes@),
                nodes0 == node_seq(dag.nodes@),
                processed == shared_with_parents(nodes0, *node, k as nat),
                conns@ == append_absent(node.connection_cities@, processed),
            decreases node.parent_ids@.len() - k,
        {
            let pid = node.parent_ids[k];
            let ghost before = processed;
            match dag.nodes.get(&pid) {
                Some(parent) => {
                    assert(pid < len);
                    assert(*parent == nodes0[pid as int]);
                    let mut t: usize = 0;
                    while t < node.cities.len()
                        invariant
                            t <= node.cities@.len(),
                            pid < nodes0.len(),
                            *parent == nodes0[pid as int],
                            processed == before + shared_cities(node.cities@.take(t as int), parent.cities@),
                            conns@ == append_absent(node.connection_cities@, processed),
                        decreases node.cities@.len() - t,
                    {
                        let c = node.cities[t];
                        let ghost pred = |x: usize| parent.cities@.contains(x);
                        proof {
                            assert(node.cities@.take(t + 1) =~= node.cities@.take(t as int).push(c));
                            node.cities@.take(t as int).lemma_filter_push(c, pred);
                        }
                        if vec_contains(&parent.cities, c) {
                            let ghost p0 = processed;
                            proof {
                                processed = processed.push(c);
                                assert(processed.drop_last() =~= p0);
                            }
                            if !vec_contains(&conns, c) {
                                conns.push(c);
                            }
                        }
                        t = t + 1;
                        assert(processed =~= before + shared_cities(node.cities@.take(t as int), parent.cities@));
                    }
                    assert(node.cities@.take(node.cities@.len() as int) =~= node.cities@);
                },
                None => {
                    assert(!(pid < len));
                    assert(processed =~= before + Seq::<usize>::empty());
                },
            }
            k = k + 1;
        }
        let new_node = DAGNode {
            node_id: node.node_id,
            cities: copy_vec(&node.cities),
            level: node.level,
            parent_ids: copy_vec(&node.parent_ids),
            child_ids: copy_vec(&node.child_ids),
            connection_cities: conns,
        };
        updated.push(new_node);
        i = i + 1;
    }
    assert(ids_match(updated@)) by {
        assert forall|j: int| 0 <= j < updated@.len() implies #[trigger] updated@[j].node_id == j by {
            assert(connected(nodes0, nodes0[j], updated@[j]));
            assert(nodes0[j] == dag.nodes@[j as usize]);
        }
    }
    let ghost u = updated@;
    dag.nodes = into_map(updated);
    proof {
        assert forall|i: int| 0 <= i < nodes0.len() implies {
            &&& forall|c: usize|
                #[trigger] u[i].connection_cities@.contains(c) <==> (nodes0[i].connection_cities@.contains(c) || (
                nodes0[i].cities@.contains(c) && exists|j: int|
                    0 <= j < nodes0[i].parent_ids@.len() && nodes0[i].parent_ids@[j] < nodes0.len()
                        && #[trigger] nodes0[nodes0[i].parent_ids@[j] as int].cities@.contains(c)))
            &&& ({
                &&& nodes0[i].connection_cities@.len() == 0
                &&& nodes0[i].parent_ids@.len() == 1
                &&& nodes0[i].parent_ids@[0] < nodes0.len()
                &&& nodes0[i].cities@.no_duplicates()
            }) ==> u[i].connection_cities@ == nodes0[i].cities@.filter(
                |c: usize| nodes0[nodes0[i].parent_ids@[0] as int].cities@.contains(c),
            )
        } by {
            assert(connected(nodes0, nodes0[i], u[i]));
            lemma_connection_cities(nodes0, nodes0[i], u[i]);
        }
        if is_tree_dag(nodes0) {
            assert forall|k: int| 1 <= k < u.len() implies {
                &&& (#[trigger] u[k]).parent_ids@.len() == 1
                &&& u[k].parent_ids@[0] < k
                &&& u[u[k].parent_ids@[0] as int].child_ids@.contains(k as usize)
                &&& u[k].level == u[u[k].parent_ids@[0] as int].level + 1
            } by {
                assert(connected(nodes0, nodes0[k], u[k]));
                assert(nodes0[k].parent_ids@.len() == 1);
                let p = nodes0[k].parent_ids@[0] as int;
                assert(connected(nodes0, nodes0[p], u[p]));
            }
            assert forall|q: int, c: int| 0 <= q < u.len() && 0 <= c < u[q].child_ids@.len() implies {
                &&& 0 < #[trigger] u[q].child_ids@[c] < u.len()
                &&& u[u[q].child_ids@[c] as int].parent_ids@ == seq![q as usize]
            } by {
                assert(connected(nodes0, nodes0[q], u[q]));
                assert(nodes0[q].child_ids@[c] == u[q].child_ids@[c]);
                let x = nodes0[q].child_ids@[c] as int;
                assert(connected(nodes0, nodes0[x], u[x]));
            }
            assert(connected(nodes0, nodes0[0], u[0]));
        }
    }
}

/// Whether `x` occurs in `v`.
pub fn vec_contains(v: &Vec<usize>, x: usize) -> (found: bool)
    ensures
        found == v@.contains(x),
{
    let mut j: usize = 0;
    while j < v.len()
        invariant
            j <= v@.len(),
            forall|t: int| 0 <= t < j ==> v@[t] != x,
        decreases v@.len() - j,
    {
        if v[j] == x {
            assert(v@[j as int] == x);
            return true;
        }
        j = j + 1;
    }
    false
}

} // verus!
