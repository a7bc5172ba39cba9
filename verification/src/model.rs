//! Mathematical model of trees, focus addresses and the operations on them.
//! The executable types in `tree` are specified against these definitions.

use vstd::prelude::*;

verus! {

/// Model of a labeled, ordered, variable-arity tree.
pub struct TreeV {
    pub label: Seq<char>,
    pub kids: Seq<TreeV>,
}

/// Model of one layer of new ancestor context: a label together with the
/// new left and right siblings of the wrapped subtree.
pub struct ToothV {
    pub label: Seq<char>,
    pub kids_left: Seq<TreeV>,
    pub kids_right: Seq<TreeV>,
}

/// A focus address is in bounds when every step selects an existing child
/// of the node reached by the steps before it. The empty address (the root)
/// is in bounds in every tree.
pub open spec fn in_bounds(t: TreeV, idx: Seq<nat>) -> bool
    decreases idx.len(),
{
    idx.len() == 0 || (idx[0] < t.kids.len() && in_bounds(t.kids[idx[0] as int], idx.skip(1)))
}

/// The node reached by walking the steps of `idx` from the root of `t`.
/// Meaningful only when `in_bounds(t, idx)` holds.
pub open spec fn node_at(t: TreeV, idx: Seq<nat>) -> TreeV
    decreases idx.len(),
{
    if idx.len() == 0 {
        t
    } else if idx[0] < t.kids.len() {
        node_at(t.kids[idx[0] as int], idx.skip(1))
    } else {
        t
    }
}

/// The depth of the first step of `idx` that selects a missing child.
/// Meaningful only when `!in_bounds(t, idx)` holds.
pub open spec fn first_invalid(t: TreeV, idx: Seq<nat>) -> int
    decreases idx.len(),
{
    if idx.len() == 0 {
        0
    } else if idx[0] < t.kids.len() {
        1 + first_invalid(t.kids[idx[0] as int], idx.skip(1))
    } else {
        0
    }
}

/// The new tree a tooth builds around a subtree: the tooth's label on top,
/// the subtree between the tooth's left and right siblings.
pub open spec fn wrap_tooth(t: TreeV, tooth: ToothV) -> TreeV {
    TreeV { label: tooth.label, kids: tooth.kids_left + seq![t] + tooth.kids_right }
}

/// Folds the teeth of a path around a subtree, the last (innermost) tooth
/// first, so the first tooth of the path becomes the outermost new ancestor.
pub open spec fn wrap_path(t: TreeV, path: Seq<ToothV>) -> TreeV
    decreases path.len(),
{
    if path.len() == 0 {
        t
    } else {
        wrap_tooth(wrap_path(t, path.skip(1)), path[0])
    }
}

/// Replaces the subtree at `idx` by that subtree wrapped with `path`,
/// rebuilding the ancestors along the walk and keeping every node off the
/// walk unchanged. Meaningful only when `in_bounds(t, idx)` holds.
pub open spec fn wrap_at(t: TreeV, idx: Seq<nat>, path: Seq<ToothV>) -> TreeV
    decreases idx.len(),
{
    if idx.len() == 0 {
        wrap_path(t, path)
    } else {
        TreeV {
            label: t.label,
            kids: t.kids.update(
                idx[0] as int,
                wrap_at(t.kids[idx[0] as int], idx.skip(1), path),
            ),
        }
    }
}

/// The address, relative to the root of `t`, of the node reached from `t`
/// by stepping into the last child until a leaf is reached.
pub open spec fn right_corner(t: TreeV) -> Seq<nat>
    decreases t,
{
    if t.kids.len() == 0 {
        Seq::empty()
    } else {
        seq![(t.kids.len() - 1) as nat] + right_corner(t.kids.last())
    }
}

/// The address of the left sibling of the addressed node. Meaningful only
/// for a nonempty address whose last step is positive.
pub open spec fn left_sibling(idx: Seq<nat>) -> Seq<nat> {
    idx.drop_last().push((idx.last() - 1) as nat)
}

/// The address of the right sibling of the addressed node. Meaningful only
/// for a nonempty address.
pub open spec fn right_sibling(idx: Seq<nat>) -> Seq<nat> {
    idx.drop_last().push((idx.last() + 1) as nat)
}

/// A checked move to the left sibling succeeds exactly here.
pub open spec fn can_move_left(t: TreeV, idx: Seq<nat>) -> bool {
    idx.len() > 0 && idx.last() > 0 && in_bounds(t, left_sibling(idx))
}

/// A checked move to the right sibling succeeds exactly here.
pub open spec fn can_move_right(t: TreeV, idx: Seq<nat>) -> bool {
    idx.len() > 0 && in_bounds(t, right_sibling(idx))
}

/// The nearest ancestor-or-self of `idx` that has a right sibling, moved to
/// that sibling; `None` when no such ancestor exists.
pub open spec fn up_right(t: TreeV, idx: Seq<nat>) -> Option<Seq<nat>>
    decreases idx.len(),
{
    if idx.len() == 0 {
        None
    } else if in_bounds(t, right_sibling(idx)) {
        Some(right_sibling(idx))
    } else {
        up_right(t, idx.drop_last())
    }
}

/// The pre-order successor of an in-bounds address: the first child when the
/// addressed node has children, else the nearest right sibling of an
/// ancestor-or-self; `None` at the last node in pre-order.
pub open spec fn next_idx(t: TreeV, idx: Seq<nat>) -> Option<Seq<nat>> {
    if node_at(t, idx).kids.len() > 0 {
        Some(idx.push(0))
    } else {
        up_right(t, idx)
    }
}

/// The pre-order predecessor of an in-bounds address: `None` at the root,
/// the parent when the node is a leftmost child, and otherwise the
/// bottom-right corner of the subtree of its left sibling.
pub open spec fn prev_idx(t: TreeV, idx: Seq<nat>) -> Option<Seq<nat>> {
    if idx.len() == 0 {
        None
    } else if idx.last() == 0 {
        Some(idx.drop_last())
    } else if in_bounds(t, left_sibling(idx)) {
        Some(left_sibling(idx) + right_corner(node_at(t, left_sibling(idx))))
    } else {
        None
    }
}

/// The character of one decimal digit.
pub open spec fn digit_char(d: nat) -> char {
    if d == 0 {
        '0'
    } else if d == 1 {
        '1'
    } else if d == 2 {
        '2'
    } else if d == 3 {
        '3'
    } else if d == 4 {
        '4'
    } else if d == 5 {
        '5'
    } else if d == 6 {
        '6'
    } else if d == 7 {
        '7'
    } else if d == 8 {
        '8'
    } else {
        '9'
    }
}

/// The decimal digits of `n`, most significant first.
pub open spec fn dec_digits(n: nat) -> Seq<char>
    decreases n,
{
    if n < 10 {
        seq![digit_char(n)]
    } else {
        dec_digits(n / 10).push(digit_char(n % 10))
    }
}

/// The perfect demo tree below depth `depth`: every node above the leaf
/// depth has `width` children and is labeled `N` plus its depth; the leaves
/// at depth `height` are labeled `D` plus their depth.
pub open spec fn big_tree_node(width: nat, height: nat, depth: nat) -> TreeV
    decreases height - depth,
{
    if depth >= height {
        TreeV { label: seq!['D'] + dec_digits(depth), kids: Seq::empty() }
    } else {
        TreeV {
            label: seq!['N'] + dec_digits(depth),
            kids: Seq::new(width, |i: int| big_tree_node(width, height, depth + 1)),
        }
    }
}

/// The perfect demo tree: `height` levels of `width`-child nodes over a
/// level of leaves, labeled by kind and depth.
pub open spec fn big_tree_spec(width: nat, height: nat) -> TreeV {
    big_tree_node(width, height, 0)
}

/// The number of nodes of `t`.
pub open spec fn size(t: TreeV) -> nat
    decreases t, t.kids.len() + 1,
{
    1 + size_upto(t, t.kids.len() as int)
}

/// The total number of nodes of the first `i` children of `t`.
/// Meaningful only for `0 <= i <= t.kids.len()`.
pub open spec fn size_upto(t: TreeV, i: int) -> nat
    decreases t, i,
{
    if i <= 0 || i > t.kids.len() {
        0
    } else {
        size_upto(t, i - 1) + size(t.kids[i - 1])
    }
}

/// The pre-order position of an in-bounds address in `t`: the number of
/// nodes a pre-order traversal visits strictly before it.
pub open spec fn rank(t: TreeV, idx: Seq<nat>) -> nat
    decreases idx.len(),
{
    if idx.len() == 0 {
        0
    } else {
        1 + size_upto(t, idx[0] as int) + rank(t.kids[idx[0] as int], idx.skip(1))
    }
}

/// The address reached from `idx` by `k` pre-order successor moves, or
/// `None` when the traversal runs off the end first.
pub open spec fn next_iter(t: TreeV, idx: Seq<nat>, k: nat) -> Option<Seq<nat>>
    decreases k,
{
    if k == 0 {
        Some(idx)
    } else {
        match next_idx(t, idx) {
            Some(j) => next_iter(t, j, (k - 1) as nat),
            None => None,
        }
    }
}

/// Walking a concatenated address reaches the node that walking the two
/// parts one after the other reaches.
pub proof fn lemma_walk_concat(t: TreeV, a: Seq<nat>, b: Seq<nat>)
    requires
        in_bounds(t, a),
    ensures
        in_bounds(t, a + b) <==> in_bounds(node_at(t, a), b),
        in_bounds(t, a + b) ==> node_at(t, a + b) == node_at(node_at(t, a), b),
    decreases a.len(),
{
    if a.len() == 0 {
        assert(a + b =~= b);
    } else {
        let t2 = t.kids[a[0] as int];
        lemma_walk_concat(t2, a.skip(1), b);
        assert((a + b).skip(1) =~= a.skip(1) + b);
        assert((a + b)[0] == a[0]);
    }
}

/// Appending one step to an in-bounds address: when the new address is in
/// bounds and which node it reaches.
pub proof fn lemma_walk_push(t: TreeV, idx: Seq<nat>, k: nat)
    requires
        in_bounds(t, idx),
    ensures
        in_bounds(t, idx.push(k)) <==> k < node_at(t, idx).kids.len(),
        k < node_at(t, idx).kids.len() ==> node_at(t, idx.push(k)) == node_at(t, idx).kids[
            k as int
        ],
{
    lemma_walk_concat(t, idx, seq![k]);
    assert(idx.push(k) =~= idx + seq![k]);
    let n = node_at(t, idx);
    assert(seq![k].skip(1) =~= Seq::<nat>::empty());
    if k < n.kids.len() {
        assert(in_bounds(n.kids[k as int], Seq::<nat>::empty()));
        assert(in_bounds(n, seq![k]));
        assert(node_at(n, seq![k]) == node_at(n.kids[k as int], seq![k].skip(1)));
    } else {
        assert(!in_bounds(n, seq![k]));
    }
}

/// Every prefix of an in-bounds address is in bounds.
pub proof fn lemma_in_bounds_prefix(t: TreeV, idx: Seq<nat>, n: int)
    requires
        in_bounds(t, idx),
        0 <= n <= idx.len(),
    ensures
        in_bounds(t, idx.take(n)),
    decreases idx.len(),
{
    if n == 0 {
        assert(idx.take(0) =~= Seq::<nat>::empty());
    } else {
        lemma_in_bounds_prefix(t.kids[idx[0] as int], idx.skip(1), n - 1);
        assert(idx.take(n).skip(1) =~= idx.skip(1).take(n - 1));
        assert(idx.take(n)[0] == idx[0]);
    }
}

/// When a walk first fails at depth `d`, the whole address is out of bounds
/// and `d` is its first invalid depth.
pub proof fn lemma_first_invalid_at(t: TreeV, idx: Seq<nat>, d: int)
    requires
        0 <= d < idx.len(),
        in_bounds(t, idx.take(d)),
        idx[d] >= node_at(t, idx.take(d)).kids.len(),
    ensures
        !in_bounds(t, idx),
        first_invalid(t, idx) == d,
    decreases d,
{
    if d == 0 {
        assert(idx.take(0) =~= Seq::<nat>::empty());
    } else {
        let t2 = t.kids[idx[0] as int];
        assert(idx.take(d)[0] == idx[0]);
        assert(idx.take(d).skip(1) =~= idx.skip(1).take(d - 1));
        assert(idx.skip(1)[d - 1] == idx[d]);
        lemma_first_invalid_at(t2, idx.skip(1), d - 1);
    }
}

/// The right corner of the subtree at an in-bounds address is itself in
/// bounds and addresses a leaf.
pub proof fn lemma_rc(t: TreeV, idx: Seq<nat>)
    requires
        in_bounds(t, idx),
    ensures
        in_bounds(t, idx + right_corner(node_at(t, idx))),
        node_at(t, idx + right_corner(node_at(t, idx))).kids.len() == 0,
    decreases node_at(t, idx),
{
    let n = node_at(t, idx);
    if n.kids.len() == 0 {
        assert(idx + right_corner(n) =~= idx);
    } else {
        let k = (n.kids.len() - 1) as nat;
        lemma_walk_push(t, idx, k);
        assert(idx + right_corner(n) =~= idx.push(k) + right_corner(n.kids[k as int]));
        assert(n.kids.last() == n.kids[k as int]);
        lemma_rc(t, idx.push(k));
    }
}

} // verus!
