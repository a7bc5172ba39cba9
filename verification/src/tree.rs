//! The executable tree, focus address and ancestor-context types, with the
//! movement algebra and the structural wrap edits.

use vstd::prelude::*;

use crate::model::{
    big_tree_node, big_tree_spec, can_move_left, can_move_right, dec_digits, first_invalid,
    in_bounds, left_sibling, lemma_first_invalid_at, lemma_in_bounds_prefix, lemma_walk_push,
    node_at, right_corner, right_sibling, up_right, wrap_at, wrap_path, wrap_tooth, ToothV, TreeV,
};
use vstd::string::StringExecFns;

verus! {

/// One step of a focus address: the position of a child among its siblings.
pub type Step = usize;

/// The first `n` steps of a step vector, as model steps.
pub open spec fn steps_view(steps: Seq<Step>, n: int) -> Seq<nat> {
    Seq::new(n as nat, |i: int| steps[i] as nat)
}

/// A focus address: the path of child positions from the root of a tree to
/// the addressed node. The empty address denotes the root.
#[derive(Debug, PartialEq, Eq, Hash)]
pub struct Index(pub Vec<Step>);

impl View for Index {
    type V = Seq<nat>;

    open spec fn view(&self) -> Seq<nat> {
        steps_view(self.0@, self.0@.len() as int)
    }
}

/// A labeled, ordered, variable-arity tree. Each node exclusively owns its
/// children, so a `Tree` value is always finite and acyclic.
#[derive(Debug, PartialEq)]
pub struct Tree {
    pub label: String,
    pub kids: Vec<Tree>,
}

impl View for Tree {
    type V = TreeV;

    open spec fn view(&self) -> TreeV
        decreases self,
    {
        TreeV {
            label: self.label@,
            kids: Seq::new(
                self.kids@.len(),
                |i: int|
                    if 0 <= i < self.kids@.len() {
                        self.kids@[i]@
                    } else {
                        TreeV { label: Seq::empty(), kids: Seq::empty() }
                    },
            ),
        }
    }
}

/// Why a tree walk or a checked movement was rejected.
#[derive(Debug, PartialEq, Eq, Clone, Copy, Hash)]
pub enum NavError {
    /// A step of the address exceeds the child count of the node reached by
    /// the steps before it; carries the offending depth and step.
    InvalidAddress { depth: usize, step: Step },
    NoParent,
    NoSuchChild,
    NoLeftSibling,
    NoRightSibling,
    NoNext,
    NoPrev,
}

impl Index {
    pub fn len(&self) -> (n: usize)
        ensures
            n == self@.len(),
    {
        self.0.len()
    }

    pub fn push(&mut self, step: Step)
        ensures
            final(self)@ == old(self)@.push(step as nat),
    {
        self.0.push(step);
        proof {
            assert(self@ =~= old(self)@.push(step as nat));
        }
    }

    pub fn get(&self, i: usize) -> (r: Option<Step>)
        ensures
            i < self@.len() ==> r is Some && r->Some_0 as nat == self@[i as int],
            i >= self@.len() ==> r is None,
    {
        if i < self.0.len() {
            Some(self.0[i])
        } else {
            None
        }
    }

    pub fn pop(&mut self) -> (r: Option<Step>)
        ensures
            old(self)@.len() > 0 ==> final(self)@ == old(self)@.drop_last() && r is Some
                && r->Some_0 as nat == old(self)@.last(),
            old(self)@.len() == 0 ==> final(self)@ == old(self)@ && r is None,
    {
        let r = self.0.pop();
        proof {
            if old(self)@.len() > 0 {
                assert(self@ =~= old(self)@.drop_last());
            } else {
                assert(self@ =~= old(self)@);
            }
        }
        r
    }

    pub fn shift(&mut self) -> (r: Option<Step>)
        ensures
            old(self)@.len() > 0 ==> final(self)@ == old(self)@.skip(1) && r is Some
                && r->Some_0 as nat == old(self)@[0],
            old(self)@.len() == 0 ==> final(self)@ == old(self)@ && r is None,
    {
        if self.0.len() > 0 {
            let s = self.0.remove(0);
            proof {
                assert(self@ =~= old(self)@.skip(1));
            }
            Some(s)
        } else {
            None
        }
    }

    /// Move to the parent; at the root, stay put. Cannot fail.
    pub fn move_up_unsafe(&mut self)
        ensures
            old(self)@.len() > 0 ==> final(self)@ == old(self)@.drop_last(),
            old(self)@.len() == 0 ==> final(self)@ == old(self)@,
    {
        let _ = self.pop();
    }

    /// Move to child `i` of the addressed node, without validation: the new
    /// address may be out of bounds. Cannot fail.
    pub fn move_down_unsafe(&mut self, i: Step)
        ensures
            final(self)@ == old(self)@.push(i as nat),
    {
        self.push(i);
    }

    /// Decrement the last step, clamped at 0; at the root, stay put.
    /// Cannot fail.
    pub fn move_left_sibling_unsafe(&mut self)
        ensures
            old(self)@.len() == 0 ==> final(self)@ == old(self)@,
            old(self)@.len() > 0 && old(self)@.last() == 0 ==> final(self)@ == old(self)@,
            old(self)@.len() > 0 && old(self)@.last() > 0 ==> final(self)@ == old(self)@.drop_last()
                .push((old(self)@.last() - 1) as nat),
    {
        if let Some(i) = self.pop() {
            self.push(if i > 0 {
                i - 1
            } else {
                i
            });
            proof {
                if old(self)@.last() == 0 {
                    assert(self@ =~= old(self)@);
                }
            }
        }
    }

    /// Increment the last step, without validation: the new address may be
    /// out of bounds. At the root, stay put. Cannot fail.
    pub fn move_right_sibling_unsafe(&mut self)
        requires
            old(self)@.len() > 0 ==> old(self)@.last() < usize::MAX,
        ensures
            old(self)@.len() == 0 ==> final(self)@ == old(self)@,
            old(self)@.len() > 0 ==> final(self)@ == old(self)@.drop_last().push(
                (old(self)@.last() + 1) as nat,
            ),
    {
        if let Some(i) = self.pop() {
            self.push(i + 1);
        }
    }
}

/// The error a walk reports when an address is out of bounds: the first
/// invalid depth together with the step found there.
pub open spec fn invalid_address(t: TreeV, idx: Seq<nat>) -> NavError {
    NavError::InvalidAddress {
        depth: first_invalid(t, idx) as usize,
        step: idx[first_invalid(t, idx)] as usize,
    }
}

/// Walks the first `n` steps of `steps` from the root of `tree`.
fn walk<'a>(tree: &'a Tree, steps: &Vec<Step>, n: usize) -> (r: Result<&'a Tree, NavError>)
    requires
        n <= steps@.len(),
    ensures
        in_bounds(tree@, steps_view(steps@, n as int)) ==> (r matches Ok(node) && node@ == node_at(
            tree@,
            steps_view(steps@, n as int),
        )),
        !in_bounds(tree@, steps_view(steps@, n as int)) ==> r == Err::<&'a Tree, NavError>(
            invalid_address(tree@, steps_view(steps@, n as int)),
        ),
{
    let ghost full = steps_view(steps@, n as int);
    let mut cur: &Tree = tree;
    let mut d: usize = 0;
    while d < n
        invariant
            n <= steps@.len(),
            0 <= d <= n,
            full == steps_view(steps@, n as int),
            in_bounds(tree@, steps_view(steps@, d as int)),
            cur@ == node_at(tree@, steps_view(steps@, d as int)),
        decreases n - d,
    {
        let s = steps[d];
        if s < cur.kids.len() {
            proof {
                lemma_walk_push(tree@, steps_view(steps@, d as int), s as nat);
                assert(steps_view(steps@, d as int).push(s as nat) =~= steps_view(
                    steps@,
                    d + 1 as int,
                ));
            }
            cur = &cur.kids[s];
            d += 1;
        } else {
            proof {
                assert(full.take(d as int) =~= steps_view(steps@, d as int));
                lemma_first_invalid_at(tree@, full, d as int);
            }
            return Err(NavError::InvalidAddress { depth: d, step: s });
        }
    }
    proof {
        assert(steps_view(steps@, d as int) =~= full);
    }
    Ok(cur)
}

impl Tree {
    /// Child `i` of this node, or a not-found error; never panics, whatever
    /// untrusted step is handed in.
    pub fn child_at<'a>(&'a self, i: usize) -> (r: Result<&'a Tree, NavError>)
        ensures
            i < self@.kids.len() ==> (r matches Ok(k) && k@ == self@.kids[i as int]),
            i >= self@.kids.len() ==> r == Err::<&'a Tree, NavError>(NavError::NoSuchChild),
    {
        if i < self.kids.len() {
            Ok(&self.kids[i])
        } else {
            Err(NavError::NoSuchChild)
        }
    }

    /// Walks the steps of `index` from the root; returns the addressed node,
    /// or reports the first out-of-bounds step.
    pub fn at_index<'a>(&'a self, index: &Index) -> (r: Result<&'a Tree, NavError>)
        ensures
            in_bounds(self@, index@) ==> (r matches Ok(node) && node@ == node_at(self@, index@)),
            !in_bounds(self@, index@) ==> r == Err::<&'a Tree, NavError>(
                invalid_address(self@, index@),
            ),
    {
        walk(self, &index.0, index.0.len())
    }

    /// Walks the steps of `index` from the root. The caller must have
    /// validated the address.
    pub fn at_index_unsafe<'a>(&'a self, index: &Index) -> (r: &'a Tree)
        requires
            in_bounds(self@, index@),
        ensures
            r@ == node_at(self@, index@),
    {
        let mut cur: &Tree = self;
        let mut d: usize = 0;
        let n = index.0.len();
        while d < n
            invariant
                n == index@.len(),
                in_bounds(self@, index@),
                0 <= d <= n,
                cur@ == node_at(self@, index@.take(d as int)),
            decreases n - d,
        {
            proof {
                lemma_in_bounds_prefix(self@, index@, d as int);
                lemma_in_bounds_prefix(self@, index@, d + 1 as int);
                lemma_walk_push(self@, index@.take(d as int), index@[d as int]);
                assert(index@.take(d as int).push(index@[d as int]) =~= index@.take(d + 1 as int));
            }
            let s = index.0[d];
            cur = &cur.kids[s];
            d += 1;
        }
        proof {
            assert(index@.take(n as int) =~= index@);
        }
        cur
    }

    /// Whether every step of `index` selects an existing child, so that the
    /// address may be dereferenced against this tree.
    pub fn is_index_in_bounds(&self, index: &Index) -> (r: bool)
        ensures
            r == in_bounds(self@, index@),
    {
        match walk(self, &index.0, index.0.len()) {
            Ok(_) => true,
            Err(_) => false,
        }
    }
}

impl Index {
    /// Move to the parent; fails at the root and leaves the address as it
    /// was.
    pub fn move_up(&mut self) -> (r: Result<(), NavError>)
        ensures
            old(self)@.len() > 0 ==> r is Ok && final(self)@ == old(self)@.drop_last(),
            old(self)@.len() == 0 ==> final(self)@ == old(self)@ && r == Err::<(), NavError>(
                NavError::NoParent,
            ),
    {
        match self.pop() {
            Some(_) => Ok(()),
            None => Err(NavError::NoParent),
        }
    }

    /// Move to child `step` of the addressed node. Fails without moving when
    /// the address is out of bounds for `tree` or the child does not exist.
    pub fn move_down(&mut self, tree: &Tree, step: Step) -> (r: Result<(), NavError>)
        ensures
            !in_bounds(tree@, old(self)@) ==> final(self)@ == old(self)@ && r == Err::<
                (),
                NavError,
            >(invalid_address(tree@, old(self)@)),
            in_bounds(tree@, old(self)@) && step < node_at(tree@, old(self)@).kids.len() ==> r
                is Ok && final(self)@ == old(self)@.push(step as nat),
            in_bounds(tree@, old(self)@) && step >= node_at(tree@, old(self)@).kids.len()
                ==> final(self)@ == old(self)@ && r == Err::<(), NavError>(NavError::NoSuchChild),
    {
        match walk(tree, &self.0, self.0.len()) {
            Err(e) => Err(e),
            Ok(here) => {
                if step < here.kids.len() {
                    self.push(step);
                    Ok(())
                } else {
                    Err(NavError::NoSuchChild)
                }
            },
        }
    }

    /// Move to the left sibling. Fails without moving at the root, at a
    /// leftmost child, and when the address is out of bounds for `tree`.
    pub fn move_left(&mut self, tree: &Tree) -> (r: Result<(), NavError>)
        ensures
            can_move_left(tree@, old(self)@) ==> r is Ok && final(self)@ == left_sibling(
                old(self)@,
            ),
            !can_move_left(tree@, old(self)@) ==> final(self)@ == old(self)@ && r == Err::<
                (),
                NavError,
            >(NavError::NoLeftSibling),
    {
        let ghost o = old(self)@;
        let n = self.0.len();
        if n == 0 {
            return Err(NavError::NoLeftSibling);
        }
        let last = self.0[n - 1];
        if last == 0 {
            return Err(NavError::NoLeftSibling);
        }
        proof {
            assert(o.drop_last() =~= steps_view(self.0@, n - 1 as int));
            assert(o.last() == last as nat);
        }
        match walk(tree, &self.0, n - 1) {
            Err(_) => {
                proof {
                    if in_bounds(tree@, left_sibling(o)) {
                        lemma_in_bounds_prefix(tree@, left_sibling(o), n - 1 as int);
                        assert(left_sibling(o).take(n - 1 as int) =~= o.drop_last());
                    }
                }
                Err(NavError::NoLeftSibling)
            },
            Ok(parent) => {
                proof {
                    lemma_walk_push(tree@, o.drop_last(), (last - 1) as nat);
                }
                if last - 1 < parent.kids.len() {
                    let _ = self.pop();
                    self.push(last - 1);
                    Ok(())
                } else {
                    Err(NavError::NoLeftSibling)
                }
            },
        }
    }

    /// Move to the right sibling. Fails without moving at the root, at a
    /// rightmost child, and when the address is out of bounds for `tree`.
    pub fn move_right(&mut self, tree: &Tree) -> (r: Result<(), NavError>)
        ensures
            can_move_right(tree@, old(self)@) ==> r is Ok && final(self)@ == right_sibling(
                old(self)@,
            ),
            !can_move_right(tree@, old(self)@) ==> final(self)@ == old(self)@ && r == Err::<
                (),
                NavError,
            >(NavError::NoRightSibling),
    {
        let ghost o = old(self)@;
        let n = self.0.len();
        if n == 0 {
            return Err(NavError::NoRightSibling);
        }
        let last = self.0[n - 1];
        proof {
            assert(o.drop_last() =~= steps_view(self.0@, n - 1 as int));
            assert(o.last() == last as nat);
        }
        match walk(tree, &self.0, n - 1) {
            Err(_) => {
                proof {
                    if in_bounds(tree@, right_sibling(o)) {
                        lemma_in_bounds_prefix(tree@, right_sibling(o), n - 1 as int);
                        assert(right_sibling(o).take(n - 1 as int) =~= o.drop_last());
                    }
                }
                Err(NavError::NoRightSibling)
            },
            Ok(parent) => {
                proof {
                    lemma_walk_push(tree@, o.drop_last(), (last + 1) as nat);
                }
                let c = parent.kids.len();
                if c > 0 && last < c - 1 {
                    let _ = self.pop();
                    self.push(last + 1);
                    Ok(())
                } else {
                    Err(NavError::NoRightSibling)
                }
            },
        }
    }

    /// Extends the address by stepping into the last child until the
    /// addressed node is a leaf.
    fn descend_right_corner(&mut self, tree: &Tree, from: &Tree)
        requires
            in_bounds(tree@, old(self)@),
            from@ == node_at(tree@, old(self)@),
        ensures
            final(self)@ == old(self)@ + right_corner(from@),
    {
        let mut cur: &Tree = from;
        while cur.kids.len() > 0
            invariant
                in_bounds(tree@, self@),
                cur@ == node_at(tree@, self@),
                old(self)@ + right_corner(from@) == self@ + right_corner(cur@),
            decreases cur@,
        {
            let k = cur.kids.len() - 1;
            proof {
                lemma_walk_push(tree@, self@, k as nat);
                assert(cur@.kids.last() == cur@.kids[k as int]);
                assert(self@ + right_corner(cur@) =~= self@.push(k as nat) + right_corner(
                    cur@.kids[k as int],
                ));
            }
            self.push(k);
            cur = &cur.kids[k];
        }
        proof {
            assert(self@ + right_corner(cur@) =~= self@);
        }
    }

    /// Move to the pre-order predecessor: the parent when the node is a
    /// leftmost child, else the bottom-right corner of the left sibling's
    /// subtree. Fails without moving at the root and when the walk to the
    /// left sibling cannot be validated against `tree`.
    pub fn move_prev(&mut self, tree: &Tree) -> (r: Result<(), NavError>)
        ensures
            crate::model::prev_idx(tree@, old(self)@) matches Some(j) ==> r is Ok && final(self)@
                == j,
            crate::model::prev_idx(tree@, old(self)@) is None ==> final(self)@ == old(self)@ && r
                == Err::<(), NavError>(NavError::NoPrev),
    {
        let ghost o = old(self)@;
        let n = self.0.len();
        if n == 0 {
            return Err(NavError::NoPrev);
        }
        let last = self.0[n - 1];
        proof {
            assert(o.drop_last() =~= steps_view(self.0@, n - 1 as int));
            assert(o.last() == last as nat);
        }
        if last == 0 {
            let _ = self.pop();
            return Ok(());
        }
        match walk(tree, &self.0, n - 1) {
            Err(_) => {
                proof {
                    if in_bounds(tree@, left_sibling(o)) {
                        lemma_in_bounds_prefix(tree@, left_sibling(o), n - 1 as int);
                        assert(left_sibling(o).take(n - 1 as int) =~= o.drop_last());
                    }
                }
                Err(NavError::NoPrev)
            },
            Ok(parent) => {
                proof {
                    lemma_walk_push(tree@, o.drop_last(), (last - 1) as nat);
                }
                if last - 1 < parent.kids.len() {
                    let _ = self.pop();
                    self.push(last - 1);
                    let from = &parent.kids[last - 1];
                    proof {
                        assert(self@ =~= left_sibling(o));
                        assert(from@ == node_at(tree@, self@));
                    }
                    self.descend_right_corner(tree, from);
                    Ok(())
                } else {
                    Err(NavError::NoPrev)
                }
            },
        }
    }

    /// Extend the address to the bottom-right corner of the addressed
    /// subtree. Fails without moving when the address is out of bounds for
    /// `tree`.
    pub fn move_down_right_corner(&mut self, tree: &Tree) -> (r: Result<(), NavError>)
        ensures
            in_bounds(tree@, old(self)@) ==> r is Ok && final(self)@ == old(self)@ + right_corner(
                node_at(tree@, old(self)@),
            ),
            !in_bounds(tree@, old(self)@) ==> final(self)@ == old(self)@ && r == Err::<
                (),
                NavError,
            >(invalid_address(tree@, old(self)@)),
    {
        match walk(tree, &self.0, self.0.len()) {
            Err(e) => Err(e),
            Ok(node) => {
                self.descend_right_corner(tree, node);
                Ok(())
            },
        }
    }

    /// Move to the right sibling of the nearest ancestor-or-self that has
    /// one. Fails without moving when no ancestor has a right sibling.
    pub fn move_up_until_right(&mut self, tree: &Tree) -> (r: Result<(), NavError>)
        ensures
            up_right(tree@, old(self)@) matches Some(j) ==> r is Ok && final(self)@ == j,
            up_right(tree@, old(self)@) is None ==> final(self)@ == old(self)@ && r == Err::<
                (),
                NavError,
            >(NavError::NoNext),
    {
        let ghost o = old(self)@;
        let mut d = self.0.len();
        proof {
            assert(o.take(d as int) =~= o);
        }
        while d > 0
            invariant
                o == old(self)@,
                0 <= d <= self@.len(),
                self@ == o,
                up_right(tree@, o) == up_right(tree@, o.take(d as int)),
            decreases d,
        {
            let s = self.0[d - 1];
            let ghost pfx = o.take(d as int);
            proof {
                assert(pfx.drop_last() =~= o.take(d - 1 as int));
                assert(pfx.last() == s as nat);
                assert(o.take(d - 1 as int) =~= steps_view(self.0@, d - 1 as int));
                assert(right_sibling(pfx) == pfx.drop_last().push((s + 1) as nat));
            }
            match walk(tree, &self.0, d - 1) {
                Ok(node) => {
                    proof {
                        lemma_walk_push(tree@, pfx.drop_last(), (s + 1) as nat);
                    }
                    let c = node.kids.len();
                    if c > 0 && s < c - 1 {
                        proof {
                            assert(in_bounds(tree@, right_sibling(pfx)));
                            assert(up_right(tree@, pfx) == Some(right_sibling(pfx)));
                        }
                        self.0.truncate(d);
                        proof {
                            assert(self@ =~= pfx);
                        }
                        let _ = self.pop();
                        self.push(s + 1);
                        return Ok(());
                    }
                    proof {
                        assert(!in_bounds(tree@, right_sibling(pfx)));
                        assert(up_right(tree@, pfx) == up_right(tree@, o.take(d - 1 as int)));
                    }
                },
                Err(_) => {
                    proof {
                        if in_bounds(tree@, right_sibling(pfx)) {
                            lemma_in_bounds_prefix(tree@, right_sibling(pfx), d - 1 as int);
                            assert(right_sibling(pfx).take(d - 1 as int) =~= pfx.drop_last());
                        }
                        assert(up_right(tree@, pfx) == up_right(tree@, o.take(d - 1 as int)));
                    }
                },
            }
            d -= 1;
        }
        proof {
            assert(o.take(0) =~= Seq::<nat>::empty());
        }
        Err(NavError::NoNext)
    }

    /// Move to the pre-order successor: the first child when the addressed
    /// node has children, else the right sibling of the nearest
    /// ancestor-or-self that has one. Fails without moving at the last node
    /// in pre-order and when the address is out of bounds for `tree`.
    pub fn move_next(&mut self, tree: &Tree) -> (r: Result<(), NavError>)
        ensures
            !in_bounds(tree@, old(self)@) ==> final(self)@ == old(self)@ && r == Err::<
                (),
                NavError,
            >(invalid_address(tree@, old(self)@)),
            in_bounds(tree@, old(self)@) && crate::model::next_idx(tree@, old(self)@) is Some ==> r
                is Ok && final(self)@ == crate::model::next_idx(tree@, old(self)@)->Some_0,
            in_bounds(tree@, old(self)@) && crate::model::next_idx(tree@, old(self)@) is None
                ==> final(self)@ == old(self)@ && r == Err::<(), NavError>(NavError::NoNext),
    {
        match walk(tree, &self.0, self.0.len()) {
            Err(e) => Err(e),
            Ok(here) => {
                if here.kids.len() > 0 {
                    self.push(0);
                    Ok(())
                } else {
                    self.move_up_until_right(tree)
                }
            },
        }
    }
}

impl Clone for Index {
    /// A copy of the address, step for step.
    fn clone(&self) -> (r: Index)
        ensures
            r@ == self@,
    {
        let mut v: Vec<Step> = Vec::new();
        let mut i: usize = 0;
        while i < self.0.len()
            invariant
                0 <= i <= self.0@.len(),
                v@ == self.0@.take(i as int),
            decreases self.0@.len() - i,
        {
            v.push(self.0[i]);
            proof {
                assert(v@ =~= self.0@.take(i + 1 as int));
            }
            i += 1;
        }
        proof {
            assert(self.0@.take(self.0@.len() as int) =~= self.0@);
        }
        Index(v)
    }
}

impl Default for Index {
    /// The root address.
    fn default() -> (r: Index)
        ensures
            r@ == Seq::<nat>::empty(),
    {
        let r = Index(Vec::new());
        proof {
            assert(r@ =~= Seq::<nat>::empty());
        }
        r
    }
}

/// The models of a sequence of trees, one for one.
pub open spec fn trees_view(s: Seq<Tree>) -> Seq<TreeV> {
    Seq::new(s.len(), |i: int| s[i]@)
}

/// One layer of new ancestor context for a wrap edit: a label together with
/// the trees that become the left and right siblings of the wrapped subtree.
#[derive(Debug, PartialEq)]
pub struct Tooth {
    pub label: String,
    pub kids_left: Vec<Tree>,
    pub kids_right: Vec<Tree>,
}

impl View for Tooth {
    type V = ToothV;

    open spec fn view(&self) -> ToothV {
        ToothV {
            label: self.label@,
            kids_left: trees_view(self.kids_left@),
            kids_right: trees_view(self.kids_right@),
        }
    }
}

/// A chain of teeth to wrap around a subtree, outermost first.
pub type Path = Vec<Tooth>;

/// The models of a sequence of teeth, one for one.
pub open spec fn teeth_view(s: Seq<Tooth>) -> Seq<ToothV> {
    Seq::new(s.len(), |i: int| s[i]@)
}

/// A deep copy of a tree.
fn clone_tree(t: &Tree) -> (r: Tree)
    ensures
        r@ == t@,
    decreases t,
{
    let mut kids: Vec<Tree> = Vec::new();
    let mut i: usize = 0;
    while i < t.kids.len()
        invariant
            0 <= i <= t.kids@.len(),
            kids@.len() == i,
            forall|j: int| 0 <= j < i ==> kids@[j]@ == t@.kids[j],
        decreases t.kids@.len() - i,
    {
        kids.push(clone_tree(&t.kids[i]));
        i += 1;
    }
    let r = Tree { label: t.label.clone(), kids };
    proof {
        assert(r@.kids =~= t@.kids);
    }
    r
}

/// Deep copies of a sequence of trees.
fn clone_trees(src: &[Tree]) -> (v: Vec<Tree>)
    ensures
        v@.len() == src@.len(),
        forall|j: int| 0 <= j < src@.len() ==> v@[j]@ == src@[j]@,
{
    let mut v: Vec<Tree> = Vec::new();
    let mut i: usize = 0;
    while i < src.len()
        invariant
            0 <= i <= src@.len(),
            v@.len() == i,
            forall|j: int| 0 <= j < i ==> v@[j]@ == src@[j]@,
        decreases src@.len() - i,
    {
        v.push(clone_tree(&src[i]));
        i += 1;
    }
    v
}

impl Clone for Tree {
    /// A deep copy of the tree.
    fn clone(&self) -> (r: Tree)
        ensures
            r@ == self@,
    {
        clone_tree(self)
    }
}

impl Clone for Tooth {
    /// A deep copy of the tooth.
    fn clone(&self) -> (r: Tooth)
        ensures
            r@ == self@,
    {
        let r = Tooth {
            label: self.label.clone(),
            kids_left: clone_trees(self.kids_left.as_slice()),
            kids_right: clone_trees(self.kids_right.as_slice()),
        };
        proof {
            assert(r@.kids_left =~= self@.kids_left);
            assert(r@.kids_right =~= self@.kids_right);
        }
        r
    }
}

impl Tree {
    /// A tree with the given label over copies of the given children.
    pub fn mk(label: &str, kids: &[Tree]) -> (r: Tree)
        ensures
            r@.label == label@,
            r@.kids == trees_view(kids@),
    {
        let r = Tree { label: label.to_string(), kids: clone_trees(kids) };
        proof {
            assert(r@.kids =~= trees_view(kids@));
        }
        r
    }

    /// The tree the tooth builds around this one: the tooth's label on top,
    /// this tree between the tooth's left and right siblings.
    pub fn wrap_with_tooth(self, tooth: Tooth) -> (r: Tree)
        ensures
            r@ == wrap_tooth(self@, tooth@),
    {
        let ghost selfv = self@;
        let ghost toothv = tooth@;
        let Tooth { label, kids_left, kids_right } = tooth;
        let mut kids = kids_left;
        kids.push(self);
        let mut right = kids_right;
        kids.append(&mut right);
        let r = Tree { label, kids };
        proof {
            assert(r@.kids =~= toothv.kids_left + seq![selfv] + toothv.kids_right);
        }
        r
    }

    /// The tree the whole path builds around this one, the last (innermost)
    /// tooth applied first, so the first tooth of the path becomes the
    /// outermost new ancestor.
    pub fn wrap_with_path(self, path: Path) -> (r: Tree)
        ensures
            r@ == wrap_path(self@, teeth_view(path@)),
    {
        let ghost t0 = self@;
        let ghost p0 = teeth_view(path@);
        let mut tree = self;
        let mut rest = path;
        while rest.len() > 0
            invariant
                rest@.len() <= p0.len(),
                forall|j: int| 0 <= j < rest@.len() ==> rest@[j]@ == p0[j],
                tree@ == wrap_path(t0, p0.skip(rest@.len() as int)),
            decreases rest@.len(),
        {
            let tooth = rest.pop().unwrap();
            let ghost j = rest@.len() as int;
            tree = tree.wrap_with_tooth(tooth);
            proof {
                assert(p0.skip(j)[0] == p0[j]);
                assert(p0.skip(j).skip(1) =~= p0.skip(j + 1));
            }
        }
        proof {
            assert(p0.skip(0) =~= p0);
        }
        tree
    }

    /// Replaces the subtree at `index` by that subtree wrapped with `path`,
    /// rebuilding each ancestor along the walk with the rewritten subtree
    /// spliced in at the same position and every sibling subtree unchanged.
    /// The caller must have validated the address first.
    pub fn wrap_with_path_at_index(&mut self, index: &Index, path: Path)
        requires
            in_bounds(old(self)@, index@),
        ensures
            final(self)@ == wrap_at(old(self)@, index@, teeth_view(path@)),
    {
        proof {
            assert(steps_suffix(index.0@, 0) =~= index@);
        }
        let r = wrap_at_from(self, &index.0, 0, path);
        *self = r;
    }
}

/// The steps of a step vector from position `d` on, as model steps.
pub open spec fn steps_suffix(steps: Seq<Step>, d: int) -> Seq<nat> {
    Seq::new((steps.len() - d) as nat, |i: int| steps[d + i] as nat)
}

/// Rebuilds `tree` with the subtree addressed by the steps of `steps` from
/// position `d` on wrapped with `path`.
fn wrap_at_from(tree: &Tree, steps: &Vec<Step>, d: usize, path: Path) -> (r: Tree)
    requires
        d <= steps@.len(),
        in_bounds(tree@, steps_suffix(steps@, d as int)),
    ensures
        r@ == wrap_at(tree@, steps_suffix(steps@, d as int), teeth_view(path@)),
    decreases steps@.len() - d,
{
    let ghost sfx = steps_suffix(steps@, d as int);
    let ghost pv = teeth_view(path@);
    if d == steps.len() {
        proof {
            assert(sfx =~= Seq::<nat>::empty());
        }
        clone_tree(tree).wrap_with_path(path)
    } else {
        let step = steps[d];
        proof {
            assert(sfx[0] == step as nat);
            assert(sfx.skip(1) =~= steps_suffix(steps@, d + 1 as int));
        }
        let sub = wrap_at_from(&tree.kids[step], steps, d + 1, path);
        let mut kids: Vec<Tree> = Vec::new();
        let mut j: usize = 0;
        while j < step
            invariant
                step < tree.kids@.len(),
                0 <= j <= step,
                kids@.len() == j,
                forall|m: int| 0 <= m < j ==> kids@[m]@ == tree@.kids[m],
            decreases step - j,
        {
            kids.push(clone_tree(&tree.kids[j]));
            j += 1;
        }
        kids.push(sub);
        let c = tree.kids.len();
        let mut j2: usize = step + 1;
        while j2 < tree.kids.len()
            invariant
                step < tree.kids@.len(),
                step + 1 <= j2 <= tree.kids@.len(),
                kids@.len() == j2,
                kids@[step as int]@ == sub@,
                forall|m: int| 0 <= m < j2 && m != step ==> kids@[m]@ == tree@.kids[m],
            decreases tree.kids@.len() - j2,
        {
            kids.push(clone_tree(&tree.kids[j2]));
            j2 += 1;
        }
        let r = Tree { label: tree.label.clone(), kids };
        proof {
            assert(r@.kids =~= tree@.kids.update(
                step as int,
                wrap_at(tree@.kids[step as int], sfx.skip(1), pv),
            ));
            assert(r@ == wrap_at(tree@, sfx, pv));
        }
        r
    }
}

impl Tooth {
    /// A tooth with the given label over copies of the given sibling lists.
    pub fn mk(label: &str, kids_left: &[Tree], kids_right: &[Tree]) -> (r: Tooth)
        ensures
            r@.label == label@,
            r@.kids_left == trees_view(kids_left@),
            r@.kids_right == trees_view(kids_right@),
    {
        let r = Tooth {
            label: label.to_string(),
            kids_left: clone_trees(kids_left),
            kids_right: clone_trees(kids_right),
        };
        proof {
            assert(r@.kids_left =~= trees_view(kids_left@));
            assert(r@.kids_right =~= trees_view(kids_right@));
        }
        r
    }
}

/// Relies on `u32`'s `Display` implementation: it writes the value in
/// decimal, most significant digit first, with no sign and no padding.
#[verifier::external_body]
fn dec_string(n: u32) -> (s: String)
    ensures
        s@ == dec_digits(n as nat),
{
    n.to_string()
}

/// A perfect tree: `height` levels of nodes with `width` children each over
/// one level of leaves. A node at depth `d` above the leaves is labeled
/// `N` plus `d` in decimal; a leaf is labeled `D` plus its depth.
fn big_tree_from(width: u32, height: u32, depth: u32) -> (r: Tree)
    requires
        depth <= height,
    ensures
        r@ == big_tree_node(width as nat, height as nat, depth as nat),
    decreases height - depth,
{
    let digits = dec_string(depth);
    if depth == height {
        let label = "D".to_string().concat(digits.as_str());
        let r = Tree { label, kids: Vec::new() };
        proof {
            reveal_strlit("D");
            assert("D"@ =~= seq!['D']);
            assert(r@.kids =~= Seq::<TreeV>::empty());
            assert(r@ == big_tree_node(width as nat, height as nat, depth as nat));
        }
        r
    } else {
        let label = "N".to_string().concat(digits.as_str());
        let mut kids: Vec<Tree> = Vec::new();
        let mut i: usize = 0;
        let w = width as usize;
        while i < w
            invariant
                w == width as nat,
                depth < height,
                0 <= i <= w,
                kids@.len() == i,
                forall|j: int|
                    0 <= j < i ==> kids@[j]@ == big_tree_node(
                        width as nat,
                        height as nat,
                        (depth + 1) as nat,
                    ),
            decreases w - i,
        {
            kids.push(big_tree_from(width, height, depth + 1));
            i += 1;
        }
        let r = Tree { label, kids };
        proof {
            reveal_strlit("N");
            assert("N"@ =~= seq!['N']);
            assert(r@.kids =~= big_tree_node(width as nat, height as nat, depth as nat).kids);
        }
        r
    }
}

/// The seed document: a perfect tree of the given branching factor and
/// depth, the root labeled distinctly from its descendants.
pub fn big_tree(width: u32, height: u32) -> (r: Tree)
    ensures
        r@ == big_tree_spec(width as nat, height as nat),
{
    big_tree_from(width, height, 0)
}

} // verus!
