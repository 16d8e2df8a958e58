//! How the model changes when a leaf is added or removed or two leaves are
//! swapped, and what each change keeps.

use crate::shape::{swap_id, Kind, Shape};
use crate::tree::SplitDir;
use crate::types::NodeId;
use vstd::prelude::*;

verus! {

impl Shape {
    /// The tree with the subtree at `x` replaced by `t`.
    pub open spec fn replace(self, x: NodeId, t: Shape) -> Shape
        decreases self,
    {
        if self.id() == x {
            t
        } else {
            match self {
                Shape::Split { id, dir, a, b } => Shape::Split {
                    id,
                    dir,
                    a: Box::new(a.replace(x, t)),
                    b: Box::new(b.replace(x, t)),
                },
                _ => self,
            }
        }
    }

    /// The tree after a leaf `leaf` was added at `target`: an empty tree
    /// becomes the leaf `target`; otherwise a new split `split` takes the place
    /// of `target`, with the former subtree in its first slot and the new leaf
    /// in its second.
    pub open spec fn grown(self, target: NodeId, dir: SplitDir, leaf: NodeId, split: NodeId) -> Shape {
        if self is Placeholder {
            Shape::Leaf { id: target }
        } else {
            self.replace(
                target,
                Shape::Split {
                    id: split,
                    dir,
                    a: Box::new(self.subtree(target)),
                    b: Box::new(Shape::Leaf { id: leaf }),
                },
            )
        }
    }

    /// The tree after the leaf `x` was removed: a lone leaf leaves the empty
    /// tree; otherwise the sibling of `x` takes the place of their parent.
    pub open spec fn pruned(self, x: NodeId) -> Shape {
        match self.parent(x) {
            Some(p) => self.replace(p, self.subtree(self.sibling(x))),
            None => Shape::Placeholder { id: 0 },
        }
    }

    /// The tree with the two children of its topmost node exchanged.
    pub open spec fn flipped(self) -> Shape {
        match self {
            Shape::Split { id, dir, a, b } => Shape::Split { id, dir, a: b, b: a },
            _ => self,
        }
    }

    /// The tree with the leaves `x` and `y` standing in each other's place.
    pub open spec fn exchange(self, x: NodeId, y: NodeId) -> Shape
        decreases self,
    {
        match self {
            Shape::Leaf { id } => Shape::Leaf { id: swap_id(id, x, y) },
            Shape::Split { id, dir, a, b } => Shape::Split {
                id,
                dir,
                a: Box::new(a.exchange(x, y)),
                b: Box::new(b.exchange(x, y)),
            },
            _ => self,
        }
    }

    /// The tree after the leaves `x` and `y` were swapped: nothing changes
    /// where one of them is the root; two children of one split exchange
    /// their slots; otherwise each stands where the other stood.
    pub open spec fn swapped(self, x: NodeId, y: NodeId) -> Shape {
        match (self.parent(x), self.parent(y)) {
            (Some(p), Some(q)) => if p == q {
                self.replace(p, self.subtree(p).flipped())
            } else {
                self.exchange(x, y)
            },
            _ => self,
        }
    }

    /// Replacing at a node that the tree does not have changes nothing.
    pub proof fn lemma_replace_absent(self, x: NodeId, t: Shape)
        requires
            !self.contains(x),
        ensures
            self.replace(x, t) == self,
        decreases self,
    {
        match self {
            Shape::Split { a, b, .. } => {
                a.lemma_replace_absent(x, t);
                b.lemma_replace_absent(x, t);
            },
            _ => {},
        }
    }

    /// A replacement below the topmost node keeps that node and renames the
    /// child slot that held `x`.
    pub proof fn lemma_replace_kind(self, x: NodeId, t: Shape)
        requires
            self.id() != x,
        ensures
            self.replace(x, t).id() == self.id(),
            self.replace(x, t).kind() == self.kind().renamed(x, t.id()),
    {
        match self {
            Shape::Split { a, b, .. } => {
                assert(a.replace(x, t).id() == if a.id() == x { t.id() } else { a.id() });
                assert(b.replace(x, t).id() == if b.id() == x { t.id() } else { b.id() });
            },
            _ => {},
        }
    }

    /// How the tree looks after the subtree at `x` gave way to `t`, where the
    /// identifiers of `t` are new or come from the replaced subtree: which
    /// nodes it has, and the subtree and parent of each.
    pub proof fn lemma_replace(self, x: NodeId, t: Shape)
        requires
            self.wf(),
            self.contains(x),
            t.solid(),
            forall|y: NodeId| #[trigger]
                t.contains(y) ==> !self.contains(y) || self.subtree(x).contains(y),
        ensures
            self.replace(x, t).solid(),
            self.replace(x, t).id() == if x == self.id() { t.id() } else { self.id() },
            forall|y: NodeId| #[trigger]
                self.replace(x, t).contains(y) <==> (self.contains(y) && !self.subtree(
                    x,
                ).contains(y)) || t.contains(y),
            forall|y: NodeId| #[trigger]
                t.contains(y) ==> self.replace(x, t).subtree(y) == t.subtree(y) && self.replace(
                    x,
                    t,
                ).parent(y) == if y == t.id() { self.parent(x) } else { t.parent(y) },
            forall|y: NodeId|
                #![trigger self.replace(x, t).subtree(y)]
                #![trigger self.replace(x, t).parent(y)]
                self.contains(y) && !self.subtree(x).contains(y) ==> self.replace(x, t).subtree(y)
                    == self.subtree(y).replace(x, t) && self.replace(x, t).parent(y)
                    == self.parent(y),
        decreases self,
    {
        let r = self.replace(x, t);
        t.lemma_root();
        match self {
            Shape::Split { id, dir, a, b } => {
                a.lemma_root();
                b.lemma_root();
                a.lemma_solid();
                b.lemma_solid();
                if id == x {
                } else if a.contains(x) {
                    let a2 = a.replace(x, t);
                    b.lemma_replace_absent(x, t);
                    a.lemma_local(x);
                    a.lemma_replace(x, t);
                    assert(r == Shape::Split { id, dir, a: Box::new(a2), b });
                    assert(self.subtree(x) == a.subtree(x));
                    assert(!t.contains(id));
                    assert forall|y: NodeId| !(#[trigger] a2.contains(y) && b.contains(y)) by {
                        if a2.contains(y) && b.contains(y) {
                            assert(t.contains(y));
                            assert(self.contains(y));
                            assert(a.contains(y));
                        }
                    }
                    assert forall|y: NodeId| #[trigger] t.contains(y) implies r.subtree(y)
                        == t.subtree(y) && r.parent(y) == if y == t.id() {
                        self.parent(x)
                    } else {
                        t.parent(y)
                    } by {
                        assert(a2.contains(y));
                        assert(!b.contains(y));
                    }
                    assert forall|y: NodeId| #[trigger]
                        r.contains(y) <==> (self.contains(y) && !self.subtree(x).contains(y))
                            || t.contains(y) by {
                        assert(a2.contains(y) <==> (a.contains(y) && !a.subtree(x).contains(y))
                            || t.contains(y));
                        assert(a.subtree(x).contains(y) ==> a.contains(y));
                        assert(r.contains(y) <==> id == y || a2.contains(y) || b.contains(y));
                    }
                    assert forall|y: NodeId| #[trigger]
                        self.contains(y) && !self.subtree(x).contains(y) implies r.subtree(y)
                        == self.subtree(y).replace(x, t) && r.parent(y) == self.parent(y) by {
                        if y == id {
                            assert(r.subtree(y) == r);
                            assert(self.subtree(y) == self);
                        } else if a.contains(y) {
                            assert(a.id() != x);
                            assert(a2.id() == a.id());
                            assert(a2.subtree(y) == a.subtree(y).replace(x, t));
                            assert(a2.parent(y) == a.parent(y));
                            assert(a2.contains(y));
                        } else {
                            assert(b.contains(y));
                            assert(!t.contains(y));
                            assert(!a2.contains(y));
                            b.lemma_local(y);
                            assert(!b.subtree(y).contains(x));
                            b.subtree(y).lemma_replace_absent(x, t);
                        }
                    }
                } else {
                    let b2 = b.replace(x, t);
                    a.lemma_replace_absent(x, t);
                    b.lemma_local(x);
                    b.lemma_replace(x, t);
                    assert(r == Shape::Split { id, dir, a, b: Box::new(b2) });
                    assert(self.subtree(x) == b.subtree(x));
                    assert(!t.contains(id));
                    assert forall|y: NodeId| !(#[trigger] a.contains(y) && b2.contains(y)) by {
                        if a.contains(y) && b2.contains(y) {
                            assert(t.contains(y));
                            assert(self.contains(y));
                            assert(b.contains(y));
                        }
                    }
                    assert forall|y: NodeId| #[trigger] t.contains(y) implies r.subtree(y)
                        == t.subtree(y) && r.parent(y) == if y == t.id() {
                        self.parent(x)
                    } else {
                        t.parent(y)
                    } by {
                        assert(b2.contains(y));
                        assert(!a.contains(y));
                    }
                    assert forall|y: NodeId| #[trigger]
                        r.contains(y) <==> (self.contains(y) && !self.subtree(x).contains(y))
                            || t.contains(y) by {
                        assert(b2.contains(y) <==> (b.contains(y) && !b.subtree(x).contains(y))
                            || t.contains(y));
                        assert(b.subtree(x).contains(y) ==> b.contains(y));
                        assert(r.contains(y) <==> id == y || a.contains(y) || b2.contains(y));
                    }
                    assert forall|y: NodeId| #[trigger]
                        self.contains(y) && !self.subtree(x).contains(y) implies r.subtree(y)
                        == self.subtree(y).replace(x, t) && r.parent(y) == self.parent(y) by {
                        if y == id {
                            assert(r.subtree(y) == r);
                            assert(self.subtree(y) == self);
                        } else if b.contains(y) {
                            assert(b.id() != x);
                            assert(b2.id() == b.id());
                            assert(b2.subtree(y) == b.subtree(y).replace(x, t));
                            assert(b2.parent(y) == b.parent(y));
                            assert(b2.contains(y));
                            assert(!a.contains(y));
                        } else {
                            assert(a.contains(y));
                            assert(!t.contains(y));
                            assert(!b2.contains(y));
                            a.lemma_local(y);
                            assert(!a.subtree(y).contains(x));
                            a.subtree(y).lemma_replace_absent(x, t);
                        }
                    }
                }
            },
            _ => {},
        }
    }

    /// The tree after a leaf was added below a node of a non-empty tree: its
    /// nodes are the former ones and the two new ones; the new split stands
    /// where `target` stood and holds `target` and the new leaf; every other
    /// node keeps its parent and its state, but that the former parent of
    /// `target` now names the split in that slot.
    pub proof fn lemma_grown(self, target: NodeId, dir: SplitDir, leaf: NodeId, split: NodeId)
        requires
            self.solid(),
            self.contains(target),
            !self.contains(leaf),
            !self.contains(split),
            leaf != split,
        ensures
            self.grown(target, dir, leaf, split).solid(),
            self.grown(target, dir, leaf, split).id() == if target == self.id() {
                split
            } else {
                self.id()
            },
            forall|y: NodeId| #[trigger]
                self.grown(target, dir, leaf, split).contains(y) <==> self.contains(y) || y == leaf
                    || y == split,
            self.grown(target, dir, leaf, split).subtree(split) == (Shape::Split {
                id: split,
                dir,
                a: Box::new(self.subtree(target)),
                b: Box::new(Shape::Leaf { id: leaf }),
            }),
            self.grown(target, dir, leaf, split).parent(split) == self.parent(target),
            self.grown(target, dir, leaf, split).subtree(leaf) == (Shape::Leaf { id: leaf }),
            self.grown(target, dir, leaf, split).parent(leaf) == Some(split),
            self.grown(target, dir, leaf, split).parent(target) == Some(split),
            forall|y: NodeId|
                #![trigger self.grown(target, dir, leaf, split).subtree(y)]
                self.subtree(target).contains(y) ==> self.grown(target, dir, leaf, split).subtree(y)
                    == self.subtree(y),
            forall|y: NodeId|
                #![trigger self.grown(target, dir, leaf, split).subtree(y)]
                self.contains(y) && !self.subtree(target).contains(y) ==> self.grown(
                    target,
                    dir,
                    leaf,
                    split,
                ).subtree(y).kind() == self.subtree(y).kind().renamed(target, split),
            forall|y: NodeId|
                #![trigger self.grown(target, dir, leaf, split).parent(y)]
                self.contains(y) && y != target ==> self.grown(target, dir, leaf, split).parent(y)
                    == self.parent(y),
    {
        let sub = self.subtree(target);
        let l = Shape::Leaf { id: leaf };
        let t = Shape::Split { id: split, dir, a: Box::new(sub), b: Box::new(l) };
        let g = self.replace(target, t);
        assert(g == self.grown(target, dir, leaf, split));
        self.lemma_solid();
        self.lemma_local(target);
        sub.lemma_root();
        sub.lemma_solid();
        assert(l.solid());
        assert(!sub.contains(split));
        assert(!sub.contains(leaf));
        assert forall|y: NodeId| !(#[trigger] sub.contains(y) && l.contains(y)) by {}
        assert(t.solid());
        assert forall|y: NodeId| #[trigger] t.contains(y) <==> y == split || sub.contains(y) || y
            == leaf by {
            assert(l.contains(y) <==> y == leaf);
        }
        self.lemma_replace(target, t);
        assert(t.contains(split) && t.contains(leaf) && t.contains(target));
        assert(t.subtree(split) == t);
        assert(l.subtree(leaf) == l);
        assert(t.subtree(leaf) == l);
        assert(t.parent(leaf) == Some(split));
        assert(t.parent(target) == Some(split));
        assert forall|y: NodeId| sub.contains(y) implies #[trigger] g.subtree(y) == self.subtree(
            y,
        ) by {
            self.lemma_nested(target, y);
            assert(t.contains(y));
            assert(t.subtree(y) == sub.subtree(y));
        }
        assert forall|y: NodeId| self.contains(y) && !sub.contains(y) implies #[trigger] g.subtree(
            y,
        ).kind() == self.subtree(y).kind().renamed(target, split) by {
            self.lemma_local(y);
            self.subtree(y).lemma_replace_kind(target, t);
        }
        assert forall|y: NodeId| self.contains(y) && y != target implies #[trigger] g.parent(y)
            == self.parent(y) by {
            if sub.contains(y) {
                self.lemma_nested(target, y);
                sub.lemma_local(y);
                assert(t.contains(y));
                assert(t.parent(y) == sub.parent(y));
            }
        }
    }

    /// A leaf added to the empty tree is the whole tree, under the
    /// identifier of the placeholder, and the walk visits this one node.
    pub proof fn lemma_grown_from_empty(self, target: NodeId, dir: SplitDir, leaf: NodeId, split: NodeId)
        requires
            self is Placeholder,
        ensures
            self.grown(target, dir, leaf, split) == (Shape::Leaf { id: target }),
            self.grown(target, dir, leaf, split).id() == target,
            self.grown(target, dir, leaf, split).preorder() == seq![target],
    {
    }

    /// A leaf added to a leaf `l` puts a split in the place of `l` that holds
    /// `l` first and the new leaf second; the walk from the split visits the
    /// split, `l` and the new leaf.
    pub proof fn lemma_grown_from_leaf(self, l: NodeId, dir: SplitDir, leaf: NodeId, split: NodeId)
        requires
            self.wf(),
            self.is_leaf(l),
            !self.contains(leaf),
            !self.contains(split),
            leaf != split,
        ensures
            leaf != l,
            self.grown(l, dir, leaf, split).subtree(split) == (Shape::Split {
                id: split,
                dir,
                a: Box::new(Shape::Leaf { id: l }),
                b: Box::new(Shape::Leaf { id: leaf }),
            }),
            self.grown(l, dir, leaf, split).subtree(split).preorder() == seq![split, l, leaf],
    {
        self.lemma_local(l);
        self.lemma_grown(l, dir, leaf, split);
        let la = Shape::Leaf { id: l };
        let lb = Shape::Leaf { id: leaf };
        let t = Shape::Split { id: split, dir, a: Box::new(la), b: Box::new(lb) };
        assert(la.preorder() == seq![l]);
        assert(lb.preorder() == seq![leaf]);
        assert(t.preorder() == seq![split] + la.preorder() + lb.preorder());
        assert(seq![split] + seq![l] + seq![leaf] =~= seq![split, l, leaf]);
    }

    /// The tree after a leaf with a parent was removed: the leaf and its
    /// parent are gone; the sibling stands where the parent stood and keeps
    /// its subtree; every other node keeps its parent and its state, but that
    /// the former grandparent now names the sibling in that slot.
    pub proof fn lemma_pruned(self, x: NodeId)
        requires
            self.wf(),
            self.is_leaf(x),
            self.parent(x) is Some,
        ensures
            self.pruned(x).solid(),
            self.pruned(x).id() == if self.parent(x) == Some(self.id()) {
                self.sibling(x)
            } else {
                self.id()
            },
            forall|y: NodeId| #[trigger]
                self.pruned(x).contains(y) <==> self.contains(y) && y != x && Some(y)
                    != self.parent(x),
            self.pruned(x).parent(self.sibling(x)) == self.parent(self.parent(x).unwrap()),
            forall|y: NodeId|
                #![trigger self.pruned(x).subtree(y)]
                self.subtree(self.sibling(x)).contains(y) ==> self.pruned(x).subtree(y)
                    == self.subtree(y),
            forall|y: NodeId|
                #![trigger self.pruned(x).subtree(y)]
                self.contains(y) && !self.subtree(self.parent(x).unwrap()).contains(y)
                    ==> self.pruned(x).subtree(y).kind() == self.subtree(y).kind().renamed(
                    self.parent(x).unwrap(),
                    self.sibling(x),
                ),
            forall|y: NodeId|
                #![trigger self.pruned(x).parent(y)]
                self.contains(y) && y != x && Some(y) != self.parent(x) && y != self.sibling(x)
                    ==> self.pruned(x).parent(y) == self.parent(y),
    {
        let p = self.parent(x).unwrap();
        let sb = self.sibling(x);
        let sp = self.subtree(p);
        let t = self.subtree(sb);
        let r = self.replace(p, t);
        assert(r == self.pruned(x));
        self.lemma_up(x);
        self.lemma_local(p);
        self.lemma_local(sb);
        self.lemma_local(x);
        t.lemma_root();
        assert((Shape::Leaf { id: x }).contains(x));
        assert forall|y: NodeId| sp.contains(y) <==> y == p || y == x || #[trigger] t.contains(
            y,
        ) by {
            assert((Shape::Leaf { id: x }).contains(y) <==> y == x);
        }
        assert(!t.contains(x) && !t.contains(p));
        self.lemma_replace(p, t);
        assert forall|y: NodeId| t.contains(y) implies #[trigger] r.subtree(y) == self.subtree(
            y,
        ) by {
            self.lemma_nested(sb, y);
        }
        assert forall|y: NodeId| self.contains(y) && !sp.contains(y) implies #[trigger] r.subtree(
            y,
        ).kind() == self.subtree(y).kind().renamed(p, sb) by {
            self.lemma_local(y);
            self.subtree(y).lemma_replace_kind(p, t);
        }
        assert forall|y: NodeId|
            self.contains(y) && y != x && y != p && y != sb implies #[trigger] r.parent(y)
            == self.parent(y) by {
            if t.contains(y) {
                self.lemma_nested(sb, y);
            }
        }
    }

    /// The tree after the two slots of the split `p` were exchanged: the same
    /// nodes with the same parents and states, but that `p` names its children
    /// in the other order.
    pub proof fn lemma_flipped(self, p: NodeId)
        requires
            self.wf(),
            self.contains(p),
            self.subtree(p) is Split,
        ensures
            self.replace(p, self.subtree(p).flipped()).solid(),
            self.replace(p, self.subtree(p).flipped()).id() == self.id(),
            forall|y: NodeId| #[trigger]
                self.replace(p, self.subtree(p).flipped()).contains(y) <==> self.contains(y),
            forall|y: NodeId|
                #![trigger self.replace(p, self.subtree(p).flipped()).parent(y)]
                self.contains(y) ==> self.replace(p, self.subtree(p).flipped()).parent(y)
                    == self.parent(y),
            forall|y: NodeId|
                #![trigger self.replace(p, self.subtree(p).flipped()).subtree(y)]
                self.contains(y) ==> self.replace(p, self.subtree(p).flipped()).subtree(y).kind()
                    == if y == p {
                    self.subtree(y).kind().flipped()
                } else {
                    self.subtree(y).kind()
                },
    {
        let sp = self.subtree(p);
        let t = sp.flipped();
        let r = self.replace(p, t);
        self.lemma_local(p);
        match sp {
            Shape::Split { id, dir, a, b } => {
                a.lemma_root();
                b.lemma_root();
                a.lemma_solid();
                b.lemma_solid();
                assert(t == Shape::Split { id, dir, a: b, b: a });
                assert(t.solid());
                assert forall|y: NodeId| #[trigger] t.contains(y) <==> sp.contains(y) by {}
                self.lemma_replace(p, t);
                assert forall|y: NodeId| self.contains(y) implies #[trigger] r.parent(y)
                    == self.parent(y) by {
                    if sp.contains(y) {
                        self.lemma_nested(p, y);
                        assert(t.contains(y));
                        if y != p {
                            assert(t.parent(y) == sp.parent(y));
                        }
                    }
                }
                assert forall|y: NodeId| self.contains(y) implies #[trigger] r.subtree(y).kind()
                    == if y == p {
                    self.subtree(y).kind().flipped()
                } else {
                    self.subtree(y).kind()
                } by {
                    if sp.contains(y) {
                        self.lemma_nested(p, y);
                        assert(t.contains(y));
                        if y != p {
                            assert(t.subtree(y) == sp.subtree(y));
                        }
                    } else {
                        self.lemma_local(y);
                        self.subtree(y).lemma_replace_kind(p, t);
                    }
                }
            },
            _ => {},
        }
    }

    /// The tree after two of its leaves exchanged their places: the same
    /// nodes; each of the two has the parent that the other had; every split
    /// names the other leaf where it named one of them.
    pub proof fn lemma_exchange(self, x: NodeId, y: NodeId)
        requires
            self.solid(),
            x != y,
            self.contains(x) ==> self.is_leaf(x),
            self.contains(y) ==> self.is_leaf(y),
        ensures
            self.exchange(x, y).solid(),
            self.exchange(x, y).id() == swap_id(self.id(), x, y),
            forall|z: NodeId| #[trigger]
                self.exchange(x, y).contains(z) <==> self.contains(swap_id(z, x, y)),
            forall|z: NodeId|
                #![trigger self.exchange(x, y).subtree(z)]
                self.exchange(x, y).contains(z) ==> self.exchange(x, y).subtree(z) == self.subtree(
                    swap_id(z, x, y),
                ).exchange(x, y) && self.exchange(x, y).subtree(z).kind() == self.subtree(
                    swap_id(z, x, y),
                ).kind().exchanged(x, y),
            forall|z: NodeId|
                #![trigger self.exchange(x, y).parent(z)]
                self.exchange(x, y).contains(z) ==> self.exchange(x, y).parent(z) == self.parent(
                    swap_id(z, x, y),
                ),
        decreases self,
    {
        let e = self.exchange(x, y);
        match self {
            Shape::Split { id, dir, a, b } => {
                let a2 = a.exchange(x, y);
                let b2 = b.exchange(x, y);
                a.lemma_root();
                b.lemma_root();
                assert(id != x && id != y);
                assert(a.contains(x) ==> self.subtree(x) == a.subtree(x));
                assert(a.contains(y) ==> self.subtree(y) == a.subtree(y));
                assert(b.contains(x) ==> self.subtree(x) == b.subtree(x));
                assert(b.contains(y) ==> self.subtree(y) == b.subtree(y));
                a.lemma_exchange(x, y);
                b.lemma_exchange(x, y);
                assert(e == Shape::Split { id, dir, a: Box::new(a2), b: Box::new(b2) });
                assert forall|z: NodeId| !(#[trigger] a2.contains(z) && b2.contains(z)) by {
                    if a2.contains(z) && b2.contains(z) {
                        assert(a.contains(swap_id(z, x, y)));
                        assert(b.contains(swap_id(z, x, y)));
                    }
                }
                assert(!a2.contains(id)) by {
                    assert(swap_id(id, x, y) == id);
                }
                assert(!b2.contains(id)) by {
                    assert(swap_id(id, x, y) == id);
                }
                assert forall|z: NodeId| #[trigger]
                    e.contains(z) <==> self.contains(swap_id(z, x, y)) by {
                    assert(a2.contains(z) <==> a.contains(swap_id(z, x, y)));
                    assert(b2.contains(z) <==> b.contains(swap_id(z, x, y)));
                }
                assert forall|z: NodeId| e.contains(z) implies #[trigger] e.subtree(z)
                    == self.subtree(swap_id(z, x, y)).exchange(x, y) && e.subtree(z).kind()
                    == self.subtree(swap_id(z, x, y)).kind().exchanged(x, y) by {
                    let w = swap_id(z, x, y);
                    assert(a2.contains(z) <==> a.contains(w));
                    assert(b2.contains(z) <==> b.contains(w));
                    if z == id {
                        assert(e.subtree(z) == e);
                        assert(self.subtree(w) == self);
                        assert(a2.id() == swap_id(a.id(), x, y));
                        assert(b2.id() == swap_id(b.id(), x, y));
                    } else if a2.contains(z) {
                        assert(e.subtree(z) == a2.subtree(z));
                        assert(self.subtree(w) == a.subtree(w));
                    } else {
                        assert(e.subtree(z) == b2.subtree(z));
                        assert(!a.contains(w));
                        assert(self.subtree(w) == b.subtree(w));
                    }
                }
                assert forall|z: NodeId| e.contains(z) implies #[trigger] e.parent(z)
                    == self.parent(swap_id(z, x, y)) by {
                    let w = swap_id(z, x, y);
                    assert(a2.contains(z) <==> a.contains(w));
                    assert(b2.contains(z) <==> b.contains(w));
                    assert(a2.id() == swap_id(a.id(), x, y));
                    assert(b2.id() == swap_id(b.id(), x, y));
                    if z == id {
                    } else if a2.id() == z || b2.id() == z {
                        assert(a.id() == w || b.id() == w);
                    } else if a2.contains(z) {
                        assert(e.parent(z) == a2.parent(z));
                    } else {
                        assert(e.parent(z) == b2.parent(z));
                    }
                }
            },
            _ => {},
        }
    }
}

} // verus!
