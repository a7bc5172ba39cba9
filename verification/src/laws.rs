//! Laws of the movement algebra and the wrap edits, stated over the model
//! in the same terms as the executable operations' contracts.

use vstd::prelude::*;

use crate::model::{
    can_move_left, can_move_right, in_bounds, left_sibling, lemma_in_bounds_prefix, lemma_rc,
    lemma_walk_concat, lemma_walk_push, next_idx, next_iter, node_at, prev_idx, rank,
    right_corner, right_sibling, size, size_upto, up_right, wrap_at, wrap_path, ToothV, TreeV,
};

verus! {

/// Walking an in-bounds address in two stages — first its prefix of length
/// `d`, then the rest from the node so reached — arrives at the node that
/// walking the whole address at once arrives at.
pub proof fn lemma_node_at_split(t: TreeV, idx: Seq<nat>, d: int)
    requires
        in_bounds(t, idx),
        0 <= d <= idx.len(),
    ensures
        in_bounds(t, idx.take(d)),
        in_bounds(node_at(t, idx.take(d)), idx.skip(d)),
        node_at(node_at(t, idx.take(d)), idx.skip(d)) == node_at(t, idx),
{
    lemma_in_bounds_prefix(t, idx, d);
    lemma_walk_concat(t, idx.take(d), idx.skip(d));
    assert(idx.take(d) + idx.skip(d) =~= idx);
}

/// Moving up and then down the original last step restores the original
/// address: after the move up, that step still selects an existing child,
/// and pushing it back yields the address moved from.
pub proof fn lemma_up_then_down_restores(t: TreeV, idx: Seq<nat>)
    requires
        in_bounds(t, idx),
        idx.len() >= 1,
    ensures
        in_bounds(t, idx.drop_last()),
        idx.last() < node_at(t, idx.drop_last()).kids.len(),
        idx.drop_last().push(idx.last()) == idx,
{
    lemma_in_bounds_prefix(t, idx, idx.len() - 1);
    assert(idx.take(idx.len() - 1) =~= idx.drop_last());
    lemma_walk_push(t, idx.drop_last(), idx.last());
    assert(idx.drop_last().push(idx.last()) =~= idx);
}

/// When a move to the right sibling succeeds, a move to the left sibling
/// succeeds from there and restores the original address.
pub proof fn lemma_right_then_left_restores(t: TreeV, idx: Seq<nat>)
    requires
        in_bounds(t, idx),
        can_move_right(t, idx),
    ensures
        can_move_left(t, right_sibling(idx)),
        left_sibling(right_sibling(idx)) == idx,
{
    let j = right_sibling(idx);
    assert(j.last() == idx.last() + 1);
    assert(j.drop_last() =~= idx.drop_last());
    assert(left_sibling(j) =~= idx);
}

/// Wrapping at the root address is wrapping the whole tree with the path.
pub proof fn lemma_wrap_at_root(t: TreeV, path: Seq<ToothV>)
    ensures
        wrap_at(t, Seq::<nat>::empty(), path) == wrap_path(t, path),
{
}

/// An address is in bounds exactly when each of its steps selects an
/// existing child of the node reached by the steps before it; in
/// particular, the empty address is in bounds in every tree.
pub proof fn lemma_in_bounds_characterization(t: TreeV, idx: Seq<nat>)
    ensures
        in_bounds(t, idx) <==> (forall|d: int|
            0 <= d < idx.len() ==> idx[d] < node_at(t, idx.take(d)).kids.len()),
    decreases idx.len(),
{
    if in_bounds(t, idx) {
        assert forall|d: int|
            0 <= d < idx.len() implies idx[d] < node_at(t, idx.take(d)).kids.len() by {
            lemma_in_bounds_prefix(t, idx, d);
            lemma_walk_push(t, idx.take(d), idx[d]);
            lemma_in_bounds_prefix(t, idx, d + 1);
            assert(idx.take(d).push(idx[d]) =~= idx.take(d + 1));
        }
    }
    if forall|d: int| 0 <= d < idx.len() ==> idx[d] < node_at(t, idx.take(d)).kids.len() {
        if idx.len() > 0 {
            assert(idx.take(0) =~= Seq::<nat>::empty());
            assert(idx[0] < node_at(t, idx.take(0)).kids.len());
            let t2 = t.kids[idx[0] as int];
            assert forall|d2: int|
                0 <= d2 < idx.skip(1).len() implies idx.skip(1)[d2] < node_at(
                t2,
                idx.skip(1).take(d2),
            ).kids.len() by {
                assert(idx[d2 + 1] < node_at(t, idx.take(d2 + 1)).kids.len());
                assert(idx.take(d2 + 1)[0] == idx[0]);
                assert(idx.take(d2 + 1).skip(1) =~= idx.skip(1).take(d2));
            }
            lemma_in_bounds_characterization(t2, idx.skip(1));
        }
    }
}

/// When the nearest right sibling of an ancestor-or-self exists, it is a
/// nonempty address with a positive last step, its left sibling is in
/// bounds, and the right corner of that left sibling's subtree extends it
/// back to the address climbed from, extended by its own right corner.
proof fn lemma_up_right_gives_prev(t: TreeV, i: Seq<nat>)
    requires
        in_bounds(t, i),
        up_right(t, i) is Some,
    ensures
        ({
            let j = up_right(t, i)->Some_0;
            &&& in_bounds(t, j)
            &&& j.len() > 0
            &&& j.last() > 0
            &&& in_bounds(t, left_sibling(j))
            &&& left_sibling(j) + right_corner(node_at(t, left_sibling(j))) == i + right_corner(
                node_at(t, i),
            )
        }),
    decreases i.len(),
{
    let j = up_right(t, i)->Some_0;
    let cand = right_sibling(i);
    if in_bounds(t, cand) {
        assert(j == cand);
        assert(cand.last() == i.last() + 1);
        assert(cand.drop_last() =~= i.drop_last());
        assert(left_sibling(cand) =~= i);
        assert(left_sibling(cand) == i);
    } else {
        let ip = i.drop_last();
        lemma_in_bounds_prefix(t, i, i.len() - 1);
        assert(i.take(i.len() - 1) =~= ip);
        lemma_up_right_gives_prev(t, ip);
        let np = node_at(t, ip);
        lemma_walk_push(t, ip, i.last());
        assert(ip.push(i.last()) =~= i);
        lemma_walk_push(t, ip, (i.last() + 1) as nat);
        assert(i.last() < np.kids.len());
        assert(i.last() + 1 >= np.kids.len());
        assert(node_at(t, i) == np.kids[i.last() as int]);
        assert(np.kids.last() == np.kids[i.last() as int]);
        assert(right_corner(np) == seq![i.last()] + right_corner(node_at(t, i)));
        assert(ip + right_corner(np) =~= i + right_corner(node_at(t, i)));
    }
}

/// Climbing for a right sibling from the right corner of the subtree at `c`
/// finds what climbing from `c` itself finds: no node on the corner chain
/// has a right sibling.
proof fn lemma_up_right_of_corner(t: TreeV, c: Seq<nat>)
    requires
        in_bounds(t, c),
    ensures
        up_right(t, c + right_corner(node_at(t, c))) == up_right(t, c),
    decreases node_at(t, c),
{
    let n = node_at(t, c);
    if n.kids.len() == 0 {
        assert(c + right_corner(n) =~= c);
    } else {
        let k = (n.kids.len() - 1) as nat;
        lemma_walk_push(t, c, k);
        let c2 = c.push(k);
        assert(n.kids.last() == n.kids[k as int]);
        assert(node_at(t, c2) == n.kids[k as int]);
        assert(c + right_corner(n) =~= c2 + right_corner(n.kids[k as int]));
        lemma_up_right_of_corner(t, c2);
        lemma_walk_push(t, c, (k + 1) as nat);
        assert(c2.drop_last() =~= c);
        assert(right_sibling(c2) == c2.drop_last().push((k + 1) as nat));
        assert(!in_bounds(t, right_sibling(c2)));
        assert(up_right(t, c2) == up_right(t, c2.drop_last()));
    }
}

/// The pre-order successor and predecessor are inverse: moving next and
/// then prev returns to the address moved from.
pub proof fn lemma_next_then_prev(t: TreeV, idx: Seq<nat>)
    requires
        in_bounds(t, idx),
        next_idx(t, idx) is Some,
    ensures
        in_bounds(t, next_idx(t, idx)->Some_0),
        prev_idx(t, next_idx(t, idx)->Some_0) == Some(idx),
{
    let j = next_idx(t, idx)->Some_0;
    let n = node_at(t, idx);
    if n.kids.len() > 0 {
        lemma_walk_push(t, idx, 0);
        assert(j.last() == 0);
        assert(j.drop_last() =~= idx);
    } else {
        lemma_up_right_gives_prev(t, idx);
        assert(right_corner(n) =~= Seq::<nat>::empty());
        assert(idx + right_corner(n) =~= idx);
    }
}

/// The pre-order predecessor and successor are inverse: moving prev and
/// then next returns to the address moved from.
pub proof fn lemma_prev_then_next(t: TreeV, idx: Seq<nat>)
    requires
        in_bounds(t, idx),
        prev_idx(t, idx) is Some,
    ensures
        in_bounds(t, prev_idx(t, idx)->Some_0),
        next_idx(t, prev_idx(t, idx)->Some_0) == Some(idx),
{
    let j = prev_idx(t, idx)->Some_0;
    if idx.last() == 0 {
        lemma_in_bounds_prefix(t, idx, idx.len() - 1);
        assert(idx.take(idx.len() - 1) =~= idx.drop_last());
        lemma_walk_push(t, idx.drop_last(), 0);
        assert(idx.drop_last().push(0nat) =~= idx);
    } else {
        let c = left_sibling(idx);
        lemma_rc(t, c);
        lemma_up_right_of_corner(t, c);
        assert(c.drop_last() =~= idx.drop_last());
        assert(c.last() == (idx.last() - 1) as nat);
        assert(right_sibling(c) =~= idx);
        assert(right_sibling(c) == idx);
    }
}

/// Climbing for a right sibling finds none exactly on the rightmost spine:
/// the address climbed from, extended by its own right corner, is the right
/// corner of the whole tree.
proof fn lemma_up_right_none_corner(t: TreeV, i: Seq<nat>)
    requires
        in_bounds(t, i),
        up_right(t, i) is None,
    ensures
        i + right_corner(node_at(t, i)) == right_corner(t),
    decreases i.len(),
{
    if i.len() == 0 {
        assert(i + right_corner(node_at(t, i)) =~= right_corner(t));
    } else {
        let ip = i.drop_last();
        lemma_in_bounds_prefix(t, i, i.len() - 1);
        assert(i.take(i.len() - 1) =~= ip);
        lemma_up_right_none_corner(t, ip);
        let np = node_at(t, ip);
        lemma_walk_push(t, ip, i.last());
        assert(ip.push(i.last()) =~= i);
        lemma_walk_push(t, ip, (i.last() + 1) as nat);
        assert(i.last() < np.kids.len());
        assert(i.last() + 1 >= np.kids.len());
        assert(node_at(t, i) == np.kids[i.last() as int]);
        assert(np.kids.last() == np.kids[i.last() as int]);
        assert(right_corner(np) == seq![i.last()] + right_corner(node_at(t, i)));
        assert(ip + right_corner(np) =~= i + right_corner(node_at(t, i)));
    }
}

/// Moving prev fails exactly at the root.
pub proof fn lemma_prev_none_iff_root(t: TreeV, idx: Seq<nat>)
    requires
        in_bounds(t, idx),
    ensures
        prev_idx(t, idx) is None <==> idx.len() == 0,
{
    if idx.len() > 0 && idx.last() > 0 {
        lemma_in_bounds_prefix(t, idx, idx.len() - 1);
        assert(idx.take(idx.len() - 1) =~= idx.drop_last());
        lemma_walk_push(t, idx.drop_last(), idx.last());
        assert(idx.drop_last().push(idx.last()) =~= idx);
        lemma_walk_push(t, idx.drop_last(), (idx.last() - 1) as nat);
    }
}

/// Moving next fails exactly at the last node in pre-order: the bottom
/// right corner of the whole tree.
pub proof fn lemma_next_none_iff_corner(t: TreeV, idx: Seq<nat>)
    requires
        in_bounds(t, idx),
    ensures
        next_idx(t, idx) is None <==> idx == right_corner(t),
{
    if next_idx(t, idx) is None {
        lemma_up_right_none_corner(t, idx);
        assert(right_corner(node_at(t, idx)) =~= Seq::<nat>::empty());
        assert(idx + right_corner(node_at(t, idx)) =~= idx);
    } else {
        if idx == right_corner(t) {
            assert(Seq::<nat>::empty() + right_corner(t) =~= right_corner(t));
            assert(in_bounds(t, Seq::<nat>::empty()));
            lemma_rc(t, Seq::<nat>::empty());
            lemma_up_right_of_corner(t, Seq::<nat>::empty());
            assert(node_at(t, Seq::<nat>::empty()) == t);
            assert(node_at(t, idx).kids.len() == 0);
            assert(up_right(t, idx) is None);
        }
    }
}

/// Counting the nodes of more children counts at least as many nodes.
proof fn lemma_size_upto_mono(t: TreeV, j1: int, j2: int)
    requires
        0 <= j1 <= j2 <= t.kids.len(),
    ensures
        size_upto(t, j1) <= size_upto(t, j2),
    decreases j2,
{
    if j1 < j2 {
        lemma_size_upto_mono(t, j1, j2 - 1);
    }
}

/// The pre-order position of an address extended by one step: one for the
/// node itself plus the subtrees of the selected child's left siblings.
proof fn lemma_rank_push(t: TreeV, idx: Seq<nat>, k: nat)
    requires
        in_bounds(t, idx),
        k < node_at(t, idx).kids.len(),
    ensures
        rank(t, idx.push(k)) == rank(t, idx) + 1 + size_upto(node_at(t, idx), k as int),
    decreases idx.len(),
{
    if idx.len() == 0 {
        assert(node_at(t, idx) == t);
        assert(idx.push(k)[0] == k);
        assert(idx.push(k).skip(1) =~= Seq::<nat>::empty());
        assert(rank(t.kids[k as int], Seq::<nat>::empty()) == 0);
    } else {
        let t2 = t.kids[idx[0] as int];
        assert(node_at(t, idx) == node_at(t2, idx.skip(1)));
        assert(idx.push(k)[0] == idx[0]);
        assert(idx.push(k).skip(1) =~= idx.skip(1).push(k));
        lemma_rank_push(t2, idx.skip(1), k);
    }
}

/// The right corner of a tree is its last node in pre-order: its position
/// is the node count minus one.
pub proof fn lemma_rank_corner(n: TreeV)
    ensures
        rank(n, right_corner(n)) == size(n) - 1,
    decreases n,
{
    if n.kids.len() == 0 {
    } else {
        let k = (n.kids.len() - 1) as nat;
        let kid = n.kids[k as int];
        assert(n.kids.last() == kid);
        lemma_rank_corner(kid);
        let rc = seq![k] + right_corner(kid);
        assert(rc[0] == k);
        assert(rc.skip(1) =~= right_corner(kid));
        assert(size_upto(n, k + 1 as int) == size_upto(n, k as int) + size(kid));
    }
}

/// Every pre-order position is below the node count.
proof fn lemma_rank_bound(t: TreeV, idx: Seq<nat>)
    requires
        in_bounds(t, idx),
    ensures
        rank(t, idx) < size(t),
    decreases idx.len(),
{
    if idx.len() > 0 {
        let k = idx[0];
        let kid = t.kids[k as int];
        lemma_rank_bound(kid, idx.skip(1));
        assert(size_upto(t, k + 1 as int) == size_upto(t, k as int) + size(kid));
        lemma_size_upto_mono(t, k + 1 as int, t.kids.len() as int);
    }
}

/// Climbing to the nearest right sibling of an ancestor-or-self skips
/// exactly the subtree of the node climbed from.
proof fn lemma_up_right_rank(t: TreeV, i: Seq<nat>)
    requires
        in_bounds(t, i),
        up_right(t, i) is Some,
    ensures
        in_bounds(t, up_right(t, i)->Some_0),
        rank(t, up_right(t, i)->Some_0) == rank(t, i) + size(node_at(t, i)),
    decreases i.len(),
{
    let j = up_right(t, i)->Some_0;
    let p = i.drop_last();
    let s = i.last();
    lemma_in_bounds_prefix(t, i, i.len() - 1);
    assert(i.take(i.len() - 1) =~= p);
    let np = node_at(t, p);
    lemma_walk_push(t, p, s);
    assert(p.push(s) =~= i);
    lemma_walk_push(t, p, (s + 1) as nat);
    assert(right_sibling(i) == p.push((s + 1) as nat));
    if in_bounds(t, right_sibling(i)) {
        lemma_rank_push(t, p, s);
        lemma_rank_push(t, p, (s + 1) as nat);
        assert(size_upto(np, (s + 1) as int) == size_upto(np, s as int) + size(
            np.kids[s as int],
        ));
        assert(node_at(t, i) == np.kids[s as int]);
    } else {
        lemma_up_right_rank(t, p);
        assert(s + 1 >= np.kids.len());
        assert(s == np.kids.len() - 1);
        lemma_rank_push(t, p, s);
        assert(size_upto(np, (s + 1) as int) == size_upto(np, s as int) + size(
            np.kids[s as int],
        ));
        assert(size(np) == 1 + size_upto(np, np.kids.len() as int));
        assert(node_at(t, i) == np.kids[s as int]);
    }
}

/// When no ancestor-or-self has a right sibling, the node's subtree is the
/// final stretch of the traversal.
proof fn lemma_up_right_none_rank(t: TreeV, i: Seq<nat>)
    requires
        in_bounds(t, i),
        up_right(t, i) is None,
    ensures
        rank(t, i) + size(node_at(t, i)) == size(t),
    decreases i.len(),
{
    if i.len() == 0 {
    } else {
        let p = i.drop_last();
        let s = i.last();
        lemma_in_bounds_prefix(t, i, i.len() - 1);
        assert(i.take(i.len() - 1) =~= p);
        let np = node_at(t, p);
        lemma_walk_push(t, p, s);
        assert(p.push(s) =~= i);
        lemma_walk_push(t, p, (s + 1) as nat);
        assert(right_sibling(i) == p.push((s + 1) as nat));
        lemma_up_right_none_rank(t, p);
        assert(s == np.kids.len() - 1);
        lemma_rank_push(t, p, s);
        assert(size_upto(np, (s + 1) as int) == size_upto(np, s as int) + size(np.kids[s as int]));
        assert(size(np) == 1 + size_upto(np, np.kids.len() as int));
        assert(node_at(t, i) == np.kids[s as int]);
    }
}

/// Each pre-order successor move advances the pre-order position by exactly
/// one; the move fails exactly at the last position, node count minus one.
pub proof fn lemma_next_advances_rank(t: TreeV, idx: Seq<nat>)
    requires
        in_bounds(t, idx),
    ensures
        rank(t, idx) < size(t),
        next_idx(t, idx) matches Some(j) ==> in_bounds(t, j) && rank(t, j) == rank(t, idx) + 1,
        next_idx(t, idx) is None ==> rank(t, idx) == size(t) - 1,
{
    lemma_rank_bound(t, idx);
    let n = node_at(t, idx);
    if n.kids.len() > 0 {
        lemma_walk_push(t, idx, 0);
        lemma_rank_push(t, idx, 0);
    } else {
        assert(size(n) == 1);
        if up_right(t, idx) is Some {
            lemma_up_right_rank(t, idx);
        } else {
            lemma_up_right_none_rank(t, idx);
        }
    }
}

/// Two in-bounds addresses with the same pre-order position are the same
/// address: no position is visited twice.
pub proof fn lemma_rank_injective(t: TreeV, i1: Seq<nat>, i2: Seq<nat>)
    requires
        in_bounds(t, i1),
        in_bounds(t, i2),
        rank(t, i1) == rank(t, i2),
    ensures
        i1 == i2,
    decreases i1.len(),
{
    if i1.len() == 0 && i2.len() == 0 {
        assert(i1 =~= i2);
    } else if i1.len() > 0 && i2.len() > 0 {
        let a = i1[0];
        let b = i2[0];
        if a == b {
            lemma_rank_injective(t.kids[a as int], i1.skip(1), i2.skip(1));
            assert(i1 =~= seq![a] + i1.skip(1));
            assert(i2 =~= seq![b] + i2.skip(1));
        } else if a < b {
            lemma_rank_bound(t.kids[a as int], i1.skip(1));
            assert(size_upto(t, a + 1 as int) == size_upto(t, a as int) + size(t.kids[a as int]));
            lemma_size_upto_mono(t, a + 1 as int, b as int);
            assert(false);
        } else {
            lemma_rank_bound(t.kids[b as int], i2.skip(1));
            assert(size_upto(t, b + 1 as int) == size_upto(t, b as int) + size(t.kids[b as int]));
            lemma_size_upto_mono(t, b + 1 as int, a as int);
            assert(false);
        }
    }
}

/// A traversal that has reached `b` after `k` moves reaches the successor
/// of `b` after one more.
proof fn lemma_next_iter_snoc(t: TreeV, a: Seq<nat>, k: nat, b: Seq<nat>, c: Seq<nat>)
    requires
        next_iter(t, a, k) == Some(b),
        next_idx(t, b) == Some(c),
    ensures
        next_iter(t, a, (k + 1) as nat) == Some(c),
    decreases k,
{
    if k == 0 {
        assert(next_iter(t, c, 0) == Some(c));
    } else {
        let j = next_idx(t, a)->Some_0;
        lemma_next_iter_snoc(t, j, (k - 1) as nat, b, c);
    }
}

/// Repeated pre-order successor moves from the root visit every node of the
/// tree: each in-bounds address is reached after exactly its pre-order
/// position of moves.
pub proof fn lemma_next_visits_every_node(t: TreeV, idx: Seq<nat>)
    requires
        in_bounds(t, idx),
    ensures
        next_iter(t, Seq::<nat>::empty(), rank(t, idx)) == Some(idx),
    decreases rank(t, idx),
{
    if rank(t, idx) == 0 {
        assert(in_bounds(t, Seq::<nat>::empty()));
        lemma_rank_injective(t, idx, Seq::<nat>::empty());
    } else {
        assert(idx.len() > 0);
        lemma_prev_none_iff_root(t, idx);
        let p = prev_idx(t, idx)->Some_0;
        lemma_prev_then_next(t, idx);
        lemma_next_advances_rank(t, p);
        lemma_next_visits_every_node(t, p);
        lemma_next_iter_snoc(t, Seq::<nat>::empty(), rank(t, p), p, idx);
    }
}

} // verus!