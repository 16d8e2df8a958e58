//! The model of a layout tree: a binary tree of identifiers, with the
//! functions that say what its nodes, subtrees and parents are.

pub mod edit;
pub mod walk;

use crate::tree::SplitDir;
use crate::types::NodeId;
use vstd::prelude::*;

verus! {

/// What a node is, seen from the node itself: its variant and, for a split,
/// its orientation and the identifiers of its two children in slot order.
pub enum Kind {
    Placeholder,
    Leaf,
    Split(SplitDir, NodeId, NodeId),
}

/// `z` with the two identifiers `x` and `y` exchanged.
pub open spec fn swap_id(z: NodeId, x: NodeId, y: NodeId) -> NodeId {
    if z == x {
        y
    } else if z == y {
        x
    } else {
        z
    }
}

impl Kind {
    /// The same state with `x` and `y` exchanged in the child slots.
    pub open spec fn exchanged(self, x: NodeId, y: NodeId) -> Kind {
        match self {
            Kind::Split(d, a, b) => Kind::Split(d, swap_id(a, x, y), swap_id(b, x, y)),
            k => k,
        }
    }

    /// The same state with the two child slots exchanged.
    pub open spec fn flipped(self) -> Kind {
        match self {
            Kind::Split(d, a, b) => Kind::Split(d, b, a),
            k => k,
        }
    }

    /// The same state with each child slot that holds `from` rewritten to
    /// `to`.
    pub open spec fn renamed(self, from: NodeId, to: NodeId) -> Kind {
        match self {
            Kind::Split(d, a, b) => Kind::Split(
                d,
                if a == from { to } else { a },
                if b == from { to } else { b },
            ),
            k => k,
        }
    }
}

/// The mathematical model of a layout tree: a binary tree of identifiers.
pub enum Shape {
    Placeholder { id: NodeId },
    Leaf { id: NodeId },
    Split { id: NodeId, dir: SplitDir, a: Box<Shape>, b: Box<Shape> },
}

impl Shape {
    /// Identifier of the topmost node.
    pub open spec fn id(self) -> NodeId {
        match self {
            Shape::Placeholder { id } => id,
            Shape::Leaf { id } => id,
            Shape::Split { id, .. } => id,
        }
    }

    /// Variant of the topmost node.
    pub open spec fn kind(self) -> Kind {
        match self {
            Shape::Placeholder { .. } => Kind::Placeholder,
            Shape::Leaf { .. } => Kind::Leaf,
            Shape::Split { dir, a, b, .. } => Kind::Split(dir, a.id(), b.id()),
        }
    }

    /// Whether a node with identifier `x` occurs in the tree.
    pub open spec fn contains(self, x: NodeId) -> bool
        decreases self,
    {
        match self {
            Shape::Split { id, a, b, .. } => id == x || a.contains(x) || b.contains(x),
            _ => self.id() == x,
        }
    }

    /// Number of nodes.
    pub open spec fn size(self) -> nat
        decreases self,
    {
        match self {
            Shape::Split { a, b, .. } => 1 + a.size() + b.size(),
            _ => 1,
        }
    }

    /// A tree of leaves and splits whose identifiers are pairwise distinct.
    pub open spec fn solid(self) -> bool
        decreases self,
    {
        match self {
            Shape::Placeholder { .. } => false,
            Shape::Leaf { .. } => true,
            Shape::Split { id, a, b, .. } => {
                &&& a.solid()
                &&& b.solid()
                &&& !a.contains(id)
                &&& !b.contains(id)
                &&& forall|x: NodeId| !(#[trigger] a.contains(x) && b.contains(x))
            },
        }
    }

    /// Either the empty tree, a lone placeholder with identifier 0, or a
    /// solid tree.
    pub open spec fn wf(self) -> bool {
        match self {
            Shape::Placeholder { id } => id == 0,
            _ => self.solid(),
        }
    }

    /// The subtree whose topmost node is `x`.
    pub open spec fn subtree(self, x: NodeId) -> Shape
        decreases self,
    {
        match self {
            Shape::Split { id, a, b, .. } => if id == x {
                self
            } else if a.contains(x) {
                a.subtree(x)
            } else {
                b.subtree(x)
            },
            _ => self,
        }
    }

    /// The parent of `x`, absent for the root.
    pub open spec fn parent(self, x: NodeId) -> Option<NodeId>
        decreases self,
    {
        match self {
            Shape::Split { id, a, b, .. } => if id == x {
                None
            } else if a.id() == x || b.id() == x {
                Some(id)
            } else if a.contains(x) {
                a.parent(x)
            } else {
                b.parent(x)
            },
            _ => None,
        }
    }

    /// Whether `x` is a leaf of the tree.
    pub open spec fn is_leaf(self, x: NodeId) -> bool {
        self.contains(x) && self.subtree(x) is Leaf
    }

    /// The other child of the parent of `x`.
    pub open spec fn sibling(self, x: NodeId) -> NodeId {
        match self.parent(x) {
            Some(p) => match self.subtree(p) {
                Shape::Split { a, b, .. } => if a.id() == x {
                    b.id()
                } else {
                    a.id()
                },
                _ => x,
            },
            None => x,
        }
    }

    /// The topmost node is in the tree, heads the whole tree and has no
    /// parent.
    pub proof fn lemma_root(self)
        ensures
            self.contains(self.id()),
            self.subtree(self.id()) == self,
            self.parent(self.id()) is None,
    {
    }

    /// A solid tree is well-formed and not empty.
    pub proof fn lemma_solid(self)
        requires
            self.solid(),
        ensures
            self.wf(),
            !(self is Placeholder),
    {
    }

    /// A well-formed tree that has a node with a parent is solid.
    pub proof fn lemma_solid_root(self)
        requires
            self.wf(),
            exists|x: NodeId| self.contains(x) && #[trigger] self.parent(x) is Some,
        ensures
            self.solid(),
    {
    }

    /// What holds around a node of a well-formed tree: its subtree carries its
    /// identifier, the children of a split are nodes of the tree whose parent
    /// is the split, and only the root has no parent.
    pub proof fn lemma_local(self, x: NodeId)
        requires
            self.wf(),
            self.contains(x),
        ensures
            self.subtree(x).id() == x,
            self.subtree(x).wf(),
            self.subtree(x).size() <= self.size(),
            self.subtree(x) is Placeholder ==> self is Placeholder,
            x != self.id() ==> !self.subtree(x).contains(self.id()),
            forall|y: NodeId| #[trigger] self.subtree(x).contains(y) ==> self.contains(y),
            match self.subtree(x) {
                Shape::Split { a, b, .. } => {
                    &&& self.contains(a.id())
                    &&& self.contains(b.id())
                    &&& self.subtree(a.id()) == *a
                    &&& self.subtree(b.id()) == *b
                    &&& self.parent(a.id()) == Some(x)
                    &&& self.parent(b.id()) == Some(x)
                    &&& a.id() != b.id()
                    &&& a.id() != x
                    &&& b.id() != x
                },
                _ => true,
            },
            self.parent(x) is None <==> x == self.id(),
            match self.parent(x) {
                Some(p) => {
                    &&& self.contains(p)
                    &&& p != x
                    &&& match self.subtree(p) {
                        Shape::Split { a, b, .. } => a.id() == x || b.id() == x,
                        _ => false,
                    }
                },
                None => true,
            },
        decreases self,
    {
        match self {
            Shape::Split { id, a, b, .. } => {
                a.lemma_root();
                b.lemma_root();
                a.lemma_solid();
                b.lemma_solid();
                if id == x {
                } else if a.contains(x) {
                    a.lemma_local(x);
                } else {
                    b.lemma_local(x);
                }
            },
            _ => {},
        }
    }

    /// Inside the subtree at `x`, subtrees and parents are those of the whole
    /// tree.
    pub proof fn lemma_nested(self, x: NodeId, y: NodeId)
        requires
            self.wf(),
            self.contains(x),
            self.subtree(x).contains(y),
        ensures
            self.contains(y),
            self.subtree(y) == self.subtree(x).subtree(y),
            y != x ==> self.parent(y) == self.subtree(x).parent(y),
        decreases self,
    {
        match self {
            Shape::Split { id, a, b, .. } => {
                a.lemma_root();
                b.lemma_root();
                a.lemma_solid();
                b.lemma_solid();
                if id == x {
                } else if a.contains(x) {
                    a.lemma_local(x);
                    a.lemma_nested(x, y);
                } else {
                    b.lemma_local(x);
                    b.lemma_nested(x, y);
                }
            },
            _ => {},
        }
    }

    /// Going up from a node that has a parent: the parent is a split of the
    /// tree that holds the node in one of its slots and the sibling in the
    /// other, and its subtree is larger.
    pub proof fn lemma_up(self, x: NodeId)
        requires
            self.wf(),
            self.contains(x),
            self.parent(x) is Some,
        ensures
            self.contains(self.parent(x).unwrap()),
            self.contains(self.sibling(x)),
            self.sibling(x) != x,
            self.parent(self.sibling(x)) == self.parent(x),
            self.subtree(self.parent(x).unwrap()).size() > self.subtree(x).size(),
            self.subtree(self.parent(x).unwrap()).size() <= self.size(),
            !self.subtree(x).contains(self.parent(x).unwrap()),
            forall|y: NodeId| #[trigger]
                self.subtree(self.parent(x).unwrap()).contains(y) <==> Some(y) == self.parent(x)
                    || self.subtree(x).contains(y) || self.subtree(self.sibling(x)).contains(y),
            match self.subtree(self.parent(x).unwrap()) {
                Shape::Split { a, b, .. } => {
                    &&& (a.id() == x || b.id() == x)
                    &&& *a == self.subtree(if a.id() == x { x } else { self.sibling(x) })
                    &&& *b == self.subtree(if a.id() == x { self.sibling(x) } else { x })
                },
                _ => false,
            },
    {
        let p = self.parent(x).unwrap();
        self.lemma_local(x);
        self.lemma_local(p);
        if self.subtree(x).contains(p) {
            self.lemma_nested(x, p);
            self.subtree(x).lemma_local(p);
        }
    }
}

} // verus!
