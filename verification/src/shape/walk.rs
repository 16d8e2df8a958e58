//! The order in which the nodes of the model are visited, and the search for
//! the neighbors of a node in a direction.

use crate::shape::Shape;
use crate::tree::{Direction, SplitDir};
use crate::types::NodeId;
use vstd::prelude::*;

verus! {

/// Whether a walk along `along` visits only one child of a split with
/// orientation `dir`.
pub open spec fn narrows(along: Option<Direction>, dir: SplitDir) -> bool {
    match along {
        Some(d) => d.axis() == dir,
        None => false,
    }
}

/// The child on the near side for one who enters in direction `along`: the
/// second child where the direction points to the first, and the first
/// otherwise.
pub open spec fn near(along: Option<Direction>, a: Shape, b: Shape) -> Shape {
    match along {
        Some(d) => if d.toward_first() {
            b
        } else {
            a
        },
        None => a,
    }
}

impl Shape {
    /// The nodes in the order in which a walk from the top visits them: a
    /// node, then what is below its first child, then what is below its
    /// second. With `along` given, the walk keeps to the edge that one meets
    /// when one enters the tree in that direction: of a split on that axis it
    /// visits only the child on the near side.
    pub open spec fn walk(self, along: Option<Direction>) -> Seq<NodeId>
        decreases self,
    {
        match self {
            Shape::Split { id, dir, a, b } => if narrows(along, dir) {
                seq![id] + near(along, *a, *b).walk(along)
            } else {
                seq![id] + a.walk(along) + b.walk(along)
            },
            _ => seq![self.id()],
        }
    }

    /// The node, then the nodes below its first child, then those below its
    /// second.
    pub open spec fn preorder(self) -> Seq<NodeId> {
        self.walk(None)
    }

    /// Where the walk goes once it is done with the subtree at `c`: into the
    /// second child of the nearest ancestor that it entered by the first and
    /// visits in full, if there is one.
    pub open spec fn after(self, c: NodeId, along: Option<Direction>) -> Option<NodeId>
        decreases self,
    {
        match self {
            Shape::Split { id, dir, a, b } => if id == c {
                None
            } else if a.contains(c) {
                match a.after(c, along) {
                    Some(n) => Some(n),
                    None => if narrows(along, dir) {
                        None
                    } else {
                        Some(b.id())
                    },
                }
            } else {
                b.after(c, along)
            },
            _ => None,
        }
    }

    /// The node that the walk visits after `x`.
    pub open spec fn step(self, x: NodeId, along: Option<Direction>) -> Option<NodeId> {
        match self.subtree(x) {
            Shape::Split { dir, a, b, .. } => if narrows(along, dir) {
                Some(near(along, *a, *b).id())
            } else {
                Some(a.id())
            },
            _ => self.after(x, along),
        }
    }

    /// What the split with orientation `dir` and the children `a` and `b`
    /// offers to one who came up from its child `c` and looks in direction
    /// `d`: on the axis of `d`, the child on the side to which `d` points,
    /// unless the way came from that child.
    pub open spec fn across(dir: SplitDir, a: NodeId, b: NodeId, c: NodeId, d: Direction) -> Option<
        NodeId,
    > {
        let toward = if d.toward_first() {
            a
        } else {
            b
        };
        if dir == d.axis() && toward != c {
            Some(toward)
        } else {
            None
        }
    }

    /// The subtree that lies next to `x` in direction `d`: what the nearest
    /// ancestor of `x` offers that offers anything.
    pub open spec fn candidate(self, x: NodeId, d: Direction) -> Option<NodeId>
        decreases self,
    {
        match self {
            Shape::Split { id, dir, a, b } => if id == x {
                None
            } else if a.contains(x) {
                match a.candidate(x, d) {
                    Some(c) => Some(c),
                    None => Self::across(dir, a.id(), b.id(), a.id(), d),
                }
            } else {
                match b.candidate(x, d) {
                    Some(c) => Some(c),
                    None => Self::across(dir, a.id(), b.id(), b.id(), d),
                }
            },
            _ => None,
        }
    }

    /// The nodes that are neighbors of `x` in direction `d`, in the order of
    /// the walk along the near edge of the candidate subtree.
    pub open spec fn neighbors(self, x: NodeId, d: Direction) -> Seq<NodeId> {
        match self.candidate(x, d) {
            Some(c) => self.subtree(c).walk(Some(d)),
            None => Seq::empty(),
        }
    }

    /// Whether a split with orientation `axis` lies above `x`.
    pub open spec fn crossed_above(self, x: NodeId, axis: SplitDir) -> bool
        decreases self,
    {
        match self {
            Shape::Split { id, dir, a, b } => if id == x {
                false
            } else if a.contains(x) {
                dir == axis || a.crossed_above(x, axis)
            } else {
                dir == axis || b.crossed_above(x, axis)
            },
            _ => false,
        }
    }

    /// The walk starts at the top.
    pub proof fn lemma_walk_head(self, along: Option<Direction>)
        ensures
            self.walk(along).len() >= 1,
            self.walk(along)[0] == self.id(),
    {
    }

    /// The node at position `i` of the walk is in the tree, and `step` leads
    /// from it to the node at the next position, or nowhere from the last.
    pub proof fn lemma_walk_at(self, along: Option<Direction>, i: int)
        requires
            self.wf(),
            0 <= i < self.walk(along).len(),
        ensures
            self.contains(self.walk(along)[i]),
            self.step(self.walk(along)[i], along) == if i + 1 < self.walk(along).len() {
                Some(self.walk(along)[i + 1])
            } else {
                None
            },
        decreases self,
    {
        let w = self.walk(along);
        match self {
            Shape::Split { id, dir, a, b } => {
                a.lemma_root();
                b.lemma_root();
                a.lemma_solid();
                b.lemma_solid();
                let aw = a.walk(along);
                let bw = b.walk(along);
                a.lemma_walk_head(along);
                b.lemma_walk_head(along);
                if i == 0 {
                    assert(self.subtree(id) == self);
                } else if narrows(along, dir) {
                    let n = near(along, *a, *b);
                    let nw = n.walk(along);
                    assert(w == seq![id] + nw);
                    let x = nw[i - 1];
                    assert(w[i] == x);
                    n.lemma_walk_at(along, i - 1);
                    assert(self.subtree(x) == n.subtree(x));
                    n.lemma_local(x);
                    if n == *a {
                        assert(self.after(x, along) == a.after(x, along));
                    } else {
                        assert(!a.contains(x));
                        assert(self.after(x, along) == b.after(x, along));
                    }
                } else if i <= aw.len() {
                    assert(w == seq![id] + aw + bw);
                    let x = aw[i - 1];
                    assert(w[i] == x);
                    a.lemma_walk_at(along, i - 1);
                    assert(self.subtree(x) == a.subtree(x));
                    a.lemma_local(x);
                    if i < aw.len() {
                        assert(w[i + 1] == aw[i]);
                    } else {
                        assert(w[i + 1] == bw[0]);
                    }
                } else {
                    assert(w == seq![id] + aw + bw);
                    let j = i - 1 - aw.len();
                    let x = bw[j];
                    assert(w[i] == x);
                    b.lemma_walk_at(along, j);
                    assert(!a.contains(x));
                    assert(self.subtree(x) == b.subtree(x));
                    b.lemma_local(x);
                    if j + 1 < bw.len() {
                        assert(w[i + 1] == bw[j + 1]);
                    }
                }
            },
            _ => {
                assert(w == seq![self.id()]);
                assert(self.subtree(self.id()) == self);
            },
        }
    }

    /// The walk without a direction visits exactly the nodes of the tree.
    pub proof fn lemma_preorder_all(self, x: NodeId)
        ensures
            self.contains(x) <==> self.preorder().contains(x),
        decreases self,
    {
        let w = self.preorder();
        match self {
            Shape::Split { id, dir, a, b } => {
                let aw = a.preorder();
                let bw = b.preorder();
                a.lemma_preorder_all(x);
                b.lemma_preorder_all(x);
                assert(w == seq![id] + aw + bw);
                if x == id {
                    assert(w[0] == x);
                } else if a.contains(x) {
                    let k = choose|k: int| 0 <= k < aw.len() && aw[k] == x;
                    assert(w[k + 1] == x);
                } else if b.contains(x) {
                    let k = choose|k: int| 0 <= k < bw.len() && bw[k] == x;
                    assert(w[k + 1 + aw.len()] == x);
                }
                if w.contains(x) {
                    let k = choose|k: int| 0 <= k < w.len() && w[k] == x;
                    if k == 0 {
                    } else if k <= aw.len() {
                        assert(aw[k - 1] == x);
                    } else {
                        assert(bw[k - 1 - aw.len()] == x);
                    }
                }
            },
            _ => {
                assert(w == seq![self.id()]);
                if x == self.id() {
                    assert(w[0] == x);
                }
            },
        }
    }

    /// One step up on the way that `after` takes: from the first child of a
    /// split that the walk visits in full it goes to the second child,
    /// otherwise it goes on from the parent.
    pub proof fn lemma_after_up(self, c: NodeId, along: Option<Direction>)
        requires
            self.solid(),
            self.contains(c),
            c != self.id(),
        ensures
            self.parent(c) is Some,
            match self.subtree(self.parent(c).unwrap()) {
                Shape::Split { dir, a, b, .. } => self.after(c, along) == if !narrows(along, dir)
                    && a.id() == c {
                    Some(b.id())
                } else {
                    self.after(self.parent(c).unwrap(), along)
                },
                _ => false,
            },
        decreases self,
    {
        match self {
            Shape::Split { id, dir, a, b } => {
                a.lemma_root();
                b.lemma_root();
                a.lemma_solid();
                b.lemma_solid();
                let p = self.parent(c).unwrap();
                if a.id() == c {
                    assert(a.after(c, along) is None);
                    assert(self.subtree(p) == self);
                } else if b.id() == c {
                    assert(b.after(c, along) is None);
                    assert(self.subtree(p) == self);
                } else if a.contains(c) {
                    a.lemma_after_up(c, along);
                    a.lemma_local(c);
                    assert(a.contains(p));
                    assert(self.subtree(p) == a.subtree(p));
                } else {
                    b.lemma_after_up(c, along);
                    b.lemma_local(c);
                    assert(b.contains(p));
                    assert(!a.contains(p));
                    assert(self.subtree(p) == b.subtree(p));
                }
            },
            _ => {},
        }
    }

    /// One step up in the search for the candidate: what the parent offers,
    /// and where it offers nothing, what the search finds from the parent.
    pub proof fn lemma_candidate_up(self, c: NodeId, d: Direction)
        requires
            self.solid(),
            self.contains(c),
            c != self.id(),
        ensures
            self.parent(c) is Some,
            match self.subtree(self.parent(c).unwrap()) {
                Shape::Split { dir, a, b, .. } => self.candidate(c, d) == match Self::across(
                    dir,
                    a.id(),
                    b.id(),
                    c,
                    d,
                ) {
                    Some(n) => Some(n),
                    None => self.candidate(self.parent(c).unwrap(), d),
                },
                _ => false,
            },
        decreases self,
    {
        match self {
            Shape::Split { id, dir, a, b } => {
                a.lemma_root();
                b.lemma_root();
                a.lemma_solid();
                b.lemma_solid();
                let p = self.parent(c).unwrap();
                if a.id() == c {
                    assert(a.candidate(c, d) is None);
                    assert(self.subtree(p) == self);
                } else if b.id() == c {
                    assert(b.candidate(c, d) is None);
                    assert(self.subtree(p) == self);
                } else if a.contains(c) {
                    a.lemma_candidate_up(c, d);
                    a.lemma_local(c);
                    assert(a.contains(p));
                    assert(self.subtree(p) == a.subtree(p));
                } else {
                    b.lemma_candidate_up(c, d);
                    b.lemma_local(c);
                    assert(b.contains(p));
                    assert(!a.contains(p));
                    assert(self.subtree(p) == b.subtree(p));
                }
            },
            _ => {},
        }
    }

    /// A node whose parent is a split on the axis of `d`, and which is not
    /// the child on the side to which `d` points, has its sibling's subtree
    /// for a neighbor in direction `d`; where the sibling is a leaf, this
    /// leaf is the one neighbor.
    pub proof fn lemma_neighbor_across(self, x: NodeId, d: Direction)
        requires
            self.wf(),
            self.contains(x),
            self.parent(x) is Some,
            match self.subtree(self.parent(x).unwrap()) {
                Shape::Split { dir, a, b, .. } => dir == d.axis() && x == if d.toward_first() {
                    b.id()
                } else {
                    a.id()
                },
                _ => false,
            },
        ensures
            self.candidate(x, d) == Some(self.sibling(x)),
            self.neighbors(x, d) == self.subtree(self.sibling(x)).walk(Some(d)),
            self.is_leaf(self.sibling(x)) ==> self.neighbors(x, d) == seq![self.sibling(x)],
    {
        self.lemma_solid_root();
        self.lemma_root();
        self.lemma_local(x);
        self.lemma_up(x);
        self.lemma_candidate_up(x, d);
        self.lemma_local(self.sibling(x));
    }

    /// Where no split on the axis of `d` lies above `x`, nothing lies next
    /// to `x` in direction `d`.
    pub proof fn lemma_no_candidate(self, x: NodeId, d: Direction)
        requires
            !self.crossed_above(x, d.axis()),
        ensures
            self.candidate(x, d) is None,
            self.neighbors(x, d) == Seq::<NodeId>::empty(),
        decreases self,
    {
        match self {
            Shape::Split { id, dir, a, b } => {
                if id == x {
                } else if a.contains(x) {
                    a.lemma_no_candidate(x, d);
                } else {
                    b.lemma_no_candidate(x, d);
                }
            },
            _ => {},
        }
    }
}

} // verus!
