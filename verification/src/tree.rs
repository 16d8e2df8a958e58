//! The layout tree: an arena of nodes with parent references, kept in step
//! with its model, and the operations that change and traverse it.

use crate::shape::walk::narrows;
use crate::shape::{Kind, Shape};
use crate::types::{id_gen, Error, NodeId, Rect};
use std::collections::HashMap;
use std::collections::HashSet;
use vstd::prelude::*;

verus! {

/// Orientation of a split: `H` divides the height, `V` the width.
#[derive(Debug, Clone, Copy, PartialEq, Eq, Structural)]
pub enum SplitDir {
    H,
    V,
}

/// A cardinal direction on the screen.
#[derive(Debug, Clone, Copy, PartialEq, Eq, Structural)]
pub enum Direction {
    Up,
    Right,
    Down,
    Left,
}

impl Direction {
    /// The orientation of the splits that separate neighbors in this
    /// direction.
    pub open spec fn axis(self) -> SplitDir {
        match self {
            Direction::Up | Direction::Down => SplitDir::H,
            Direction::Left | Direction::Right => SplitDir::V,
        }
    }

    /// Whether the direction points to the first child of such a split.
    pub open spec fn toward_first(self) -> bool {
        self == Direction::Up || self == Direction::Left
    }
}

/// Content of a leaf.
pub struct Leaf<Content> {
    pub content: Content,
}

/// The two children of a split, in slot order, and its orientation.
#[derive(Debug, Clone, Copy, PartialEq, Eq, Structural)]
pub struct Split {
    pub dir: SplitDir,
    pub a: NodeId,
    pub b: NodeId,
}

/// The three states of a node.
pub enum N<T> {
    Placeholder,
    Leaf(Leaf<T>),
    Split(Split),
}

impl<T> N<T> {
    /// The state without the content.
    pub open spec fn kind(self) -> Kind {
        match self {
            N::Placeholder => Kind::Placeholder,
            N::Leaf(_) => Kind::Leaf,
            N::Split(s) => Kind::Split(s.dir, s.a, s.b),
        }
    }
}

/// A node of a layout tree, as the arena stores it.
pub struct Node<T> {
    pub id: NodeId,
    pub parent: Option<NodeId>,
    pub n: N<T>,
    pub rect: Rect,
}

impl<T> Node<T> {
    /// The root of the tree that holds this node, found by going up.
    pub fn root(&self, tree: &Tree<T>) -> (r: NodeId)
        requires
            tree.wf(),
            tree.shape().contains(self.id),
        ensures
            r == tree.shape().id(),
    {
        let mut n = self.id;
        loop
            invariant
                tree.wf(),
                tree.shape().contains(n),
            ensures
                n == tree.shape().id(),
            decreases tree.shape().size() - tree.shape().subtree(n).size(),
        {
            proof {
                tree.shape().lemma_local(n);
            }
            let up = match tree.get(n) {
                Some(node) => node.parent,
                None => None,
            };
            match up {
                Some(p) => {
                    proof {
                        tree.shape().lemma_up(n);
                    }
                    n = p;
                },
                None => {
                    break ;
                },
            }
        }
        n
    }

    /// The way up from this node: its ancestors, nearest first.
    pub fn ancestors(&self, tree: &Tree<T>) -> (it: AncestorIter)
        requires
            tree.wf(),
            tree.shape().contains(self.id),
            *self == tree.nodes()[self.id],
        ensures
            it.wf(tree),
            it.curr_id == self.id,
    {
        AncestorIter { next: self.parent, curr_id: self.id }
    }

    /// This node and the nodes below it: the node, then what is below its
    /// first child, then what is below its second.
    pub fn self_and_descendants(&self, tree: &Tree<T>) -> (r: Vec<NodeId>)
        requires
            tree.wf(),
            tree.shape().contains(self.id),
        ensures
            r@ == tree.shape().subtree(self.id).preorder(),
            forall|x: NodeId| #[trigger] r@.contains(x) <==> tree.shape().subtree(self.id).contains(x),
    {
        let ghost sub = tree.shape().subtree(self.id);
        let ghost w = sub.preorder();
        proof {
            tree.shape().lemma_local(self.id);
            sub.lemma_root();
            sub.lemma_walk_head(None);
            assert forall|x: NodeId| #[trigger] w.contains(x) <==> sub.contains(x) by {
                sub.lemma_preorder_all(x);
            }
        }
        let mut it = DescendantIter { next: Some(self.id), top: self.id };
        let mut out: Vec<NodeId> = Vec::new();
        loop
            invariant
                it.wf(tree),
                it.top == self.id,
                sub == tree.shape().subtree(self.id),
                sub.wf(),
                w == sub.preorder(),
                out.len() <= w.len(),
                out@ == w.take(out.len() as int),
                it.next == if out.len() < w.len() {
                    Some(w[out.len() as int])
                } else {
                    None
                },
            ensures
                out@ == w,
            decreases w.len() - out.len(),
        {
            match it.next(tree) {
                Some(x) => {
                    proof {
                        sub.lemma_walk_at(None, out.len() as int);
                    }
                    out.push(x);
                    assert(out@ == w.take(out.len() as int));
                },
                None => {
                    assert(w.take(w.len() as int) == w);
                    break ;
                },
            }
        }
        out
    }
}

/// The ancestors of a node, nearest first, each with the child from which
/// the way came.
pub struct AncestorIter {
    pub next: Option<NodeId>,
    pub curr_id: NodeId,
}

impl AncestorIter {
    /// The iterator stands at a node of the tree, and what comes next is that
    /// node's parent.
    pub open spec fn wf<T>(&self, tree: &Tree<T>) -> bool {
        &&& tree.wf()
        &&& tree.shape().contains(self.curr_id)
        &&& self.next == tree.shape().parent(self.curr_id)
    }

    /// The next ancestor and the child from which the way came, or nothing
    /// above the root.
    pub fn next<T>(&mut self, tree: &Tree<T>) -> (r: Option<(NodeId, NodeId)>)
        requires
            old(self).wf(tree),
        ensures
            final(self).wf(tree),
            match old(self).next {
                Some(p) => r == Some((p, old(self).curr_id)) && final(self).curr_id == p,
                None => r is None && *final(self) == *old(self),
            },
    {
        match self.next {
            Some(curr) => {
                proof {
                    tree.shape().lemma_up(self.curr_id);
                    tree.shape().lemma_local(curr);
                }
                self.next = match tree.get(curr) {
                    Some(node) => node.parent,
                    None => None,
                };
                let prev_id = self.curr_id;
                self.curr_id = curr;
                Some((curr, prev_id))
            },
            None => None,
        }
    }
}

/// The nodes at and below a node, in the order of `Shape::preorder`.
pub struct DescendantIter {
    pub next: Option<NodeId>,
    pub top: NodeId,
}

impl DescendantIter {
    /// The iterator walks below a node of the tree and stands at one of the
    /// nodes there, or at the end.
    pub open spec fn wf<T>(&self, tree: &Tree<T>) -> bool {
        &&& tree.wf()
        &&& tree.shape().contains(self.top)
        &&& match self.next {
            Some(x) => tree.shape().subtree(self.top).contains(x),
            None => true,
        }
    }

    /// The node at which the iterator stands, if it is not at the end; the
    /// iterator moves on to the node that the walk visits next.
    pub fn next<T>(&mut self, tree: &Tree<T>) -> (r: Option<NodeId>)
        requires
            old(self).wf(tree),
        ensures
            final(self).wf(tree),
            final(self).top == old(self).top,
            r == old(self).next,
            final(self).next == match old(self).next {
                Some(x) => tree.shape().subtree(old(self).top).step(x, None),
                None => None,
            },
    {
        let curr = match self.next {
            Some(x) => x,
            None => {
                return None;
            },
        };
        proof {
            let s = tree.shape();
            s.lemma_local(self.top);
            s.lemma_nested(self.top, curr);
            s.lemma_local(curr);
            s.subtree(self.top).lemma_local(curr);
        }
        let first = match tree.get(curr) {
            Some(node) => match node.n {
                N::Split(split) => Some(split.a),
                _ => None,
            },
            None => None,
        };
        self.next = match first {
            Some(a) => Some(a),
            None => climb(tree, curr, self.top, None),
        };
        Some(curr)
    }
}

/// Tests `narrows`.
fn narrows_at(along: Option<Direction>, dir: SplitDir) -> (r: bool)
    ensures
        r == narrows(along, dir),
{
    match along {
        Some(d) => {
            let axis = match d {
                Direction::Up | Direction::Down => SplitDir::H,
                Direction::Left | Direction::Right => SplitDir::V,
            };
            axis == dir
        },
        None => false,
    }
}

/// Goes up from `from`, without leaving the subtree at `top`, to the first
/// split that the walk entered by its first child and visits in full, and
/// returns that split's second child.
fn climb<T>(tree: &Tree<T>, from: NodeId, top: NodeId, along: Option<Direction>) -> (r: Option<
    NodeId,
>)
    requires
        tree.wf(),
        tree.shape().contains(top),
        tree.shape().subtree(top).contains(from),
    ensures
        r == tree.shape().subtree(top).after(from, along),
        match r {
            Some(n) => tree.shape().subtree(top).contains(n),
            None => true,
        },
{
    let ghost s = tree.shape();
    let ghost sub = s.subtree(top);
    proof {
        s.lemma_local(top);
        s.lemma_nested(top, from);
    }
    let mut it = match tree.get(from) {
        Some(node) => node.ancestors(tree),
        None => AncestorIter { next: None, curr_id: from },
    };
    loop
        invariant
            it.wf(tree),
            s == tree.shape(),
            sub == s.subtree(top),
            s.contains(top),
            sub.wf(),
            sub.id() == top,
            sub.contains(it.curr_id),
            sub.after(from, along) == sub.after(it.curr_id, along),
        decreases s.size() - s.subtree(it.curr_id).size(),
    {
        if it.curr_id == top {
            assert(sub.after(top, along) is None);
            return None;
        }
        let ghost c = it.curr_id;
        proof {
            sub.lemma_after_up(c, along);
            s.lemma_nested(top, c);
            s.lemma_up(c);
            let p = s.parent(c).unwrap();
            sub.lemma_local(c);
            s.lemma_nested(top, p);
            s.lemma_local(p);
            sub.lemma_local(p);
        }
        match it.next(tree) {
            Some((node, child_id)) => {
                let second = match tree.get(node) {
                    Some(above) => match above.n {
                        N::Split(split) => if !narrows_at(along, split.dir) && child_id
                            == split.a {
                            Some(split.b)
                        } else {
                            None
                        },
                        _ => None,
                    },
                    None => None,
                };
                if second.is_some() {
                    return second;
                }
            },
            None => {
                return None;
            },
        }
    }
}

/// A layout tree: an arena of nodes addressed by identifier, together with
/// the counter that names new nodes.
pub struct Tree<T> {
    nodes: HashMap<NodeId, Node<T>>,
    next_id: NodeId,
    shape: Ghost<Shape>,
}

impl<T> Tree<T> {
    /// The arena.
    pub closed spec fn nodes(&self) -> Map<NodeId, Node<T>> {
        self.nodes@
    }

    /// The tree that the arena holds.
    pub closed spec fn shape(&self) -> Shape {
        self.shape@
    }

    /// The identifier that the next new node gets.
    pub closed spec fn next_id(&self) -> NodeId {
        self.next_id
    }

    /// The arena holds exactly the nodes of a well-formed shape, each stored
    /// as the shape says, and all identifiers in use lie below the counter.
    pub open spec fn wf(&self) -> bool {
        &&& self.shape().wf()
        &&& forall|x: NodeId|
            #![trigger self.nodes().contains_key(x)]
            #![trigger self.shape().contains(x)]
            self.nodes().contains_key(x) <==> self.shape().contains(x)
        &&& stored(self.nodes(), self.shape())
        &&& forall|x: NodeId| #[trigger] self.shape().contains(x) ==> x < self.next_id()
        &&& self.next_id() >= 1
    }

    /// Rectangle stored at node `x`.
    pub open spec fn rect(&self, x: NodeId) -> Rect {
        self.nodes()[x].rect
    }

    /// State stored at node `x`, content included.
    pub open spec fn state(&self, x: NodeId) -> N<T> {
        self.nodes()[x].n
    }

    /// A leaf can be added: the tree is empty, or two more identifiers can be
    /// handed out.
    pub open spec fn spare(&self) -> bool {
        self.shape() is Placeholder || self.next_id() <= NodeId::MAX - 2
    }

    /// Tests `spare`.
    pub fn can_grow(&self) -> (r: bool)
        requires
            self.wf(),
        ensures
            r == self.spare(),
    {
        proof {
            self.shape().lemma_root();
            if self.shape().contains(0) {
                self.shape().lemma_local(0);
            }
        }
        let empty = match self.nodes.get(&0) {
            Some(node) => match node.n {
                N::Placeholder => true,
                _ => false,
            },
            None => false,
        };
        empty || self.next_id <= NodeId::MAX - 2
    }

    /// The identifier that a leaf added at `target` gets: that of the
    /// placeholder it fills, else a new one.
    pub open spec fn leaf_id_for(&self, target: NodeId) -> NodeId {
        if self.shape() is Placeholder {
            target
        } else {
            self.next_id()
        }
    }

    /// Content of the leaf `x`.
    pub open spec fn content(&self, x: NodeId) -> T {
        match self.nodes()[x].n {
            N::Leaf(leaf) => leaf.content,
            _ => arbitrary(),
        }
    }

    /// This tree is `before` with other rectangles: the same shape and
    /// counter, and each node as it was but for its rectangle.
    pub open spec fn relaid(&self, before: &Tree<T>) -> bool {
        &&& self.shape() == before.shape()
        &&& self.next_id() == before.next_id()
        &&& self.nodes().dom() == before.nodes().dom()
        &&& forall|x: NodeId|
            before.nodes().contains_key(x) ==> #[trigger] self.nodes()[x] == with_rect(
                before.nodes()[x],
                self.nodes()[x].rect,
            )
    }

    /// Stores `rect` at node `id`.
    pub fn set_rect(&mut self, id: NodeId, rect: Rect)
        requires
            old(self).wf(),
            old(self).shape().contains(id),
        ensures
            final(self).wf(),
            final(self).relaid(old(self)),
            final(self).rect(id) == rect,
            forall|x: NodeId| x != id ==> #[trigger] final(self).rect(x) == old(self).rect(x),
    {
        let taken = self.nodes.remove(&id);
        if let Some(node) = taken {
            let Node { id: node_id, parent, n, rect: _ } = node;
            self.nodes.insert(id, Node { id: node_id, parent, n, rect });
        }
        assert(self.nodes@.dom() =~= old(self).nodes@.dom());
    }

    /// Replaces the content of the leaf `id` by what `f` makes of it.
    pub fn update_content<F: FnOnce(T) -> T>(&mut self, id: NodeId, f: F)
        requires
            old(self).wf(),
            old(self).shape().is_leaf(id),
            f.requires((old(self).content(id),)),
        ensures
            final(self).wf(),
            final(self).shape() == old(self).shape(),
            final(self).next_id() == old(self).next_id(),
            f.ensures((old(self).content(id),), final(self).content(id)),
            final(self).nodes() == old(self).nodes().insert(
                id,
                with_content(old(self).nodes()[id], final(self).content(id)),
            ),
    {
        proof {
            self.shape().lemma_local(id);
        }
        let taken = self.nodes.remove(&id);
        if let Some(node) = taken {
            let Node { id: node_id, parent, n, rect } = node;
            if let N::Leaf(leaf) = n {
                let content = f(leaf.content);
                self.nodes.insert(id, Node { id: node_id, parent, n: N::Leaf(Leaf { content }), rect });
                assert(self.nodes@ =~= old(self).nodes@.insert(
                    id,
                    with_content(old(self).nodes@[id], content),
                ));
            }
        }
    }

    /// The node stored under `id`, if the tree has one.
    pub fn get(&self, id: NodeId) -> (r: Option<&Node<T>>)
        ensures
            match r {
                Some(node) => self.nodes().contains_key(id) && *node == self.nodes()[id],
                None => !self.nodes().contains_key(id),
            },
    {
        self.nodes.get(&id)
    }
}

/// A tree that consists of one placeholder with identifier 0.
pub fn create_root<T>() -> (tree: Tree<T>)
    ensures
        tree.wf(),
        tree.shape() == (Shape::Placeholder { id: 0 }),
        tree.next_id() == 1,
        tree.rect(0) == Rect::zero(),
{
    let mut nodes: HashMap<NodeId, Node<T>> = HashMap::new();
    nodes.insert(0, Node { id: 0, parent: None, n: N::Placeholder, rect: Rect::default() });
    Tree { nodes, next_id: 1, shape: Ghost(Shape::Placeholder { id: 0 }) }
}

/// The node with another rectangle.
pub open spec fn with_rect<T>(node: Node<T>, rect: Rect) -> Node<T> {
    Node { rect, ..node }
}

/// The node as a leaf with the given content.
pub open spec fn with_content<T>(node: Node<T>, content: T) -> Node<T> {
    Node { n: N::Leaf(Leaf { content }), ..node }
}

/// The node with another parent.
pub open spec fn with_parent<T>(node: Node<T>, parent: Option<NodeId>) -> Node<T> {
    Node { parent, ..node }
}

/// The children of a split with the slot that holds `from` rewritten to `to`:
/// the first slot if it matches, else the second.
pub open spec fn with_slot(s: Split, from: NodeId, to: NodeId) -> Split {
    if s.a == from {
        Split { a: to, ..s }
    } else {
        Split { b: to, ..s }
    }
}

/// The split node with the slot that holds `from` rewritten to `to`.
pub open spec fn with_child<T>(node: Node<T>, from: NodeId, to: NodeId) -> Node<T> {
    match node.n {
        N::Split(s) => Node { n: N::Split(with_slot(s, from, to)), ..node },
        _ => node,
    }
}

/// Writes the parent reference of the stored node `id`.
fn set_parent<T>(tree: &mut Tree<T>, id: NodeId, parent: Option<NodeId>)
    requires
        old(tree).nodes().contains_key(id),
    ensures
        final(tree).shape() == old(tree).shape(),
        final(tree).next_id() == old(tree).next_id(),
        final(tree).nodes() == old(tree).nodes().insert(
            id,
            with_parent(old(tree).nodes()[id], parent),
        ),
{
    let taken = tree.nodes.remove(&id);
    if let Some(node) = taken {
        let Node { id: node_id, parent: _, n, rect } = node;
        tree.nodes.insert(id, Node { id: node_id, parent, n, rect });
        assert(tree.nodes@ =~= old(tree).nodes@.insert(
            id,
            with_parent(old(tree).nodes@[id], parent),
        ));
    }
}

/// Rewrites the child slot of the split `parent` that holds `from` to `to`.
fn replace_child<T>(tree: &mut Tree<T>, parent: NodeId, from: NodeId, to: NodeId)
    requires
        old(tree).nodes().contains_key(parent),
        match old(tree).nodes()[parent].n {
            N::Split(s) => s.a == from || s.b == from,
            _ => false,
        },
    ensures
        final(tree).shape() == old(tree).shape(),
        final(tree).next_id() == old(tree).next_id(),
        final(tree).nodes() == old(tree).nodes().insert(
            parent,
            with_child(old(tree).nodes()[parent], from, to),
        ),
{
    let taken = tree.nodes.remove(&parent);
    if let Some(node) = taken {
        let Node { id, parent: up, n, rect } = node;
        if let N::Split(s) = n {
            let s2 = if s.a == from {
                Split { dir: s.dir, a: to, b: s.b }
            } else {
                Split { dir: s.dir, a: s.a, b: to }
            };
            tree.nodes.insert(parent, Node { id, parent: up, n: N::Split(s2), rect });
            assert(tree.nodes@ =~= old(tree).nodes@.insert(
                parent,
                with_child(old(tree).nodes@[parent], from, to),
            ));
        }
    }
}

/// Puts a new split in the place of `tree_node`, with `tree_node` in its
/// first slot and `new_node` in its second, and returns the split's
/// identifier.
fn split_from<T>(tree: &mut Tree<T>, tree_node: NodeId, new_node: NodeId, dir: SplitDir) -> (split:
    NodeId)
    requires
        old(tree).nodes().contains_key(tree_node),
        old(tree).nodes().contains_key(new_node),
        tree_node != new_node,
        old(tree).next_id() < NodeId::MAX,
        !old(tree).nodes().contains_key(old(tree).next_id()),
        match old(tree).nodes()[tree_node].parent {
            Some(p) => old(tree).nodes().contains_key(p) && p != new_node && p != tree_node && match old(
                tree,
            ).nodes()[p].n {
                N::Split(s) => s.a == tree_node || s.b == tree_node,
                _ => false,
            },
            None => true,
        },
    ensures
        split == old(tree).next_id(),
        final(tree).shape() == old(tree).shape(),
        final(tree).next_id() == old(tree).next_id() + 1,
        final(tree).nodes() == split_links(old(tree).nodes(), tree_node, new_node, dir, split),
{
    let ghost before = tree.nodes@;
    let parent = match tree.nodes.get(&tree_node) {
        Some(node) => node.parent,
        None => None,
    };
    let split = id_gen(&mut tree.next_id);
    tree.nodes.insert(
        split,
        Node {
            id: split,
            parent,
            n: N::Split(Split { dir, a: tree_node, b: new_node }),
            rect: Rect::default(),
        },
    );
    set_parent(tree, new_node, Some(split));
    set_parent(tree, tree_node, Some(split));
    if let Some(p) = parent {
        replace_child(tree, p, tree_node, split);
    }
    assert(tree.nodes@ =~= split_links(before, tree_node, new_node, dir, split));
    split
}

/// Every node of `g` is stored in `m` under its identifier, with the parent
/// and the state that `g` gives it.
pub open spec fn stored<T>(m: Map<NodeId, Node<T>>, g: Shape) -> bool {
    forall|y: NodeId| #[trigger]
        g.contains(y) ==> {
            &&& m.contains_key(y)
            &&& m[y].id == y
            &&& m[y].parent == g.parent(y)
            &&& m[y].n.kind() == g.subtree(y).kind()
        }
}

/// The arena after two leaves with different parents exchanged their places.
pub open spec fn exchanged_links<T>(
    m: Map<NodeId, Node<T>>,
    node1: NodeId,
    node2: NodeId,
    parent1: NodeId,
    parent2: NodeId,
) -> Map<NodeId, Node<T>> {
    let first = m.insert(parent1, with_child(m[parent1], node1, node2)).insert(
        node1,
        with_parent(m[node1], Some(parent2)),
    );
    first.insert(parent2, with_child(first[parent2], node2, node1)).insert(
        node2,
        with_parent(first[node2], Some(parent1)),
    )
}

impl<T> Tree<T> {
    /// After a new leaf was stored and a new split was linked in at
    /// `target`, the arena stores the grown shape.
    pub proof fn lemma_grown_stored(
        &self,
        new_node: Node<T>,
        target: NodeId,
        dir: SplitDir,
        leaf: NodeId,
        split: NodeId,
    )
        requires
            self.wf(),
            !(self.shape() is Placeholder),
            self.shape().contains(target),
            !self.shape().contains(leaf),
            !self.shape().contains(split),
            leaf != split,
            new_node.id == leaf,
            new_node.n is Leaf,
        ensures
            self.shape().grown(target, dir, leaf, split).solid(),
            forall|y: NodeId| #[trigger]
                self.shape().grown(target, dir, leaf, split).contains(y) <==> self.shape().contains(
                    y,
                ) || y == leaf || y == split,
            stored(
                split_links(self.nodes().insert(leaf, new_node), target, leaf, dir, split),
                self.shape().grown(target, dir, leaf, split),
            ),
    {
        let s = self.shape();
        let g = s.grown(target, dir, leaf, split);
        let m2 = split_links(self.nodes().insert(leaf, new_node), target, leaf, dir, split);
        s.lemma_local(target);
        s.lemma_grown(target, dir, leaf, split);
        assert forall|y: NodeId| #[trigger] g.contains(y) implies {
            &&& m2.contains_key(y)
            &&& m2[y].id == y
            &&& m2[y].parent == g.parent(y)
            &&& m2[y].n.kind() == g.subtree(y).kind()
        } by {
            if s.contains(y) {
                s.lemma_local(y);
            }
        }
    }

    /// After the sibling of the leaf `node` took the place of their parent
    /// and both left the arena, the arena stores the pruned shape.
    pub proof fn lemma_pruned_stored(&self, node: NodeId)
        requires
            self.wf(),
            self.shape().is_leaf(node),
            self.shape().parent(node) is Some,
        ensures
            self.shape().pruned(node).solid(),
            forall|y: NodeId| #[trigger]
                self.shape().pruned(node).contains(y) <==> self.shape().contains(y) && y != node
                    && Some(y) != self.shape().parent(node),
            stored(
                moved_links(
                    self.nodes(),
                    self.shape().parent(node).unwrap(),
                    self.shape().sibling(node),
                ).remove(node).remove(self.shape().parent(node).unwrap()),
                self.shape().pruned(node),
            ),
    {
        let s = self.shape();
        let p = s.parent(node).unwrap();
        let g = s.pruned(node);
        let m2 = moved_links(self.nodes(), p, s.sibling(node)).remove(node).remove(p);
        s.lemma_local(node);
        s.lemma_up(node);
        s.lemma_local(p);
        s.lemma_local(s.sibling(node));
        s.lemma_pruned(node);
        assert forall|y: NodeId| #[trigger] g.contains(y) implies {
            &&& m2.contains_key(y)
            &&& m2[y].id == y
            &&& m2[y].parent == g.parent(y)
            &&& m2[y].n.kind() == g.subtree(y).kind()
        } by {
            s.lemma_local(y);
            if s.parent(p) is Some {
                s.lemma_up(p);
                s.lemma_local(s.parent(p).unwrap());
            }
        }
    }

    /// After the two slots of the split `p` were exchanged, the arena stores
    /// the shape with that split flipped.
    pub proof fn lemma_flipped_stored(&self, p: NodeId)
        requires
            self.wf(),
            self.shape().contains(p),
            self.shape().subtree(p) is Split,
        ensures
            self.shape().replace(p, self.shape().subtree(p).flipped()).solid(),
            forall|y: NodeId| #[trigger]
                self.shape().replace(p, self.shape().subtree(p).flipped()).contains(y)
                    <==> self.shape().contains(y),
            stored(
                self.nodes().insert(p, flipped(self.nodes()[p])),
                self.shape().replace(p, self.shape().subtree(p).flipped()),
            ),
    {
        let s = self.shape();
        let g = s.replace(p, s.subtree(p).flipped());
        let m2 = self.nodes().insert(p, flipped(self.nodes()[p]));
        s.lemma_flipped(p);
        assert forall|y: NodeId| #[trigger] g.contains(y) implies {
            &&& m2.contains_key(y)
            &&& m2[y].id == y
            &&& m2[y].parent == g.parent(y)
            &&& m2[y].n.kind() == g.subtree(y).kind()
        } by {
            s.lemma_local(y);
        }
    }

    /// After two leaves with different parents were linked into each other's
    /// place, the arena stores the shape with the two exchanged.
    pub proof fn lemma_exchanged_stored(&self, node1: NodeId, node2: NodeId)
        requires
            self.wf(),
            self.shape().is_leaf(node1),
            self.shape().is_leaf(node2),
            self.shape().parent(node1) is Some,
            self.shape().parent(node2) is Some,
            self.shape().parent(node1) != self.shape().parent(node2),
        ensures
            self.shape().exchange(node1, node2).solid(),
            forall|y: NodeId| #[trigger]
                self.shape().exchange(node1, node2).contains(y) <==> self.shape().contains(y),
            stored(
                exchanged_links(
                    self.nodes(),
                    node1,
                    node2,
                    self.shape().parent(node1).unwrap(),
                    self.shape().parent(node2).unwrap(),
                ),
                self.shape().exchange(node1, node2),
            ),
    {
        let s = self.shape();
        let parent1 = s.parent(node1).unwrap();
        let parent2 = s.parent(node2).unwrap();
        let g = s.exchange(node1, node2);
        let m2 = exchanged_links(self.nodes(), node1, node2, parent1, parent2);
        s.lemma_local(node1);
        s.lemma_local(node2);
        s.lemma_up(node1);
        s.lemma_up(node2);
        s.lemma_local(parent1);
        s.lemma_local(parent2);
        s.lemma_solid_root();
        s.lemma_exchange(node1, node2);
        assert forall|y: NodeId| #[trigger] g.contains(y) <==> s.contains(y) by {
            assert(s.contains(crate::shape::swap_id(y, node1, node2)) <==> s.contains(y));
        }
        assert forall|y: NodeId| #[trigger] g.contains(y) implies {
            &&& m2.contains_key(y)
            &&& m2[y].id == y
            &&& m2[y].parent == g.parent(y)
            &&& m2[y].n.kind() == g.subtree(y).kind()
        } by {
            let w = crate::shape::swap_id(y, node1, node2);
            s.lemma_local(y);
            s.lemma_local(w);
        }
    }
}

/// Adds a leaf at `target_node`, with the content that `content` makes for the
/// leaf's identifier. Returns the node that now stands where `target_node`
/// stood, and the new leaf.
pub fn add_leaf<T, F: FnOnce(NodeId) -> T>(
    tree: &mut Tree<T>,
    target_node: NodeId,
    content: F,
    split_dir: SplitDir,
) -> (r: (NodeId, NodeId))
    requires
        old(tree).wf(),
        old(tree).shape().contains(target_node),
        old(tree).spare(),
        content.requires((old(tree).leaf_id_for(target_node),)),
    ensures
        final(tree).wf(),
        r.1 == old(tree).leaf_id_for(target_node),
        r.0 == if old(tree).shape() is Placeholder {
            target_node
        } else {
            (old(tree).next_id() + 1) as NodeId
        },
        final(tree).next_id() == if old(tree).shape() is Placeholder {
            old(tree).next_id()
        } else {
            (old(tree).next_id() + 2) as NodeId
        },
        final(tree).shape() == old(tree).shape().grown(target_node, split_dir, r.1, r.0),
        match final(tree).state(r.1) {
            N::Leaf(leaf) => content.ensures((r.1,), leaf.content),
            _ => false,
        },
        forall|x: NodeId|
            old(tree).shape().contains(x) ==> #[trigger] final(tree).rect(x) == old(tree).rect(x),
        forall|x: NodeId|
            old(tree).shape().is_leaf(x) ==> #[trigger] final(tree).state(x) == old(tree).state(x),
        !old(tree).shape().contains(r.1) ==> final(tree).rect(r.1) == Rect::zero(),
        !old(tree).shape().contains(r.0) ==> final(tree).rect(r.0) == Rect::zero(),
{
    let ghost s = tree.shape@;
    proof {
        s.lemma_local(target_node);
    }
    let is_placeholder = match tree.nodes.get(&target_node) {
        Some(node) => match node.n {
            N::Placeholder => true,
            _ => false,
        },
        None => false,
    };
    if is_placeholder {
        let new_n = N::Leaf(Leaf { content: content(target_node) });
        let taken = tree.nodes.remove(&target_node);
        if let Some(node) = taken {
            let Node { id, parent, n: _, rect } = node;
            tree.nodes.insert(target_node, Node { id, parent, n: new_n, rect });
        }
        tree.shape = Ghost(Shape::Leaf { id: target_node });
        (target_node, target_node)
    } else {
        let id = id_gen(&mut tree.next_id);
        let new_n = N::Leaf(Leaf { content: content(id) });
        let new_node = Node { id, parent: Some(target_node), n: new_n, rect: Rect::default() };
        let ghost stored_leaf = new_node;
        tree.nodes.insert(id, new_node);
        let split = split_from(tree, target_node, id, split_dir);
        proof {
            old(tree).lemma_grown_stored(stored_leaf, target_node, split_dir, id, split);
        }
        tree.shape = Ghost(s.grown(target_node, split_dir, id, split));
        (split, id)
    }
}

/// The child of `s` that is not `child`.
fn sibling(s: &Split, child: NodeId) -> (r: NodeId)
    requires
        s.a == child || s.b == child,
    ensures
        r == if s.a == child { s.b } else { s.a },
{
    if s.a == child {
        s.b
    } else {
        s.a
    }
}

/// Puts `to` where `from` stands: the parent of `from`, if it has one, names
/// `to` in that slot, and `to` gets the parent that `from` has.
fn replace_node<T>(tree: &mut Tree<T>, from: NodeId, to: NodeId)
    requires
        old(tree).nodes().contains_key(from),
        old(tree).nodes().contains_key(to),
        match old(tree).nodes()[from].parent {
            Some(p) => old(tree).nodes().contains_key(p) && p != to && match old(tree).nodes()[p].n {
                N::Split(s) => s.a == from || s.b == from,
                _ => false,
            },
            None => true,
        },
    ensures
        final(tree).shape() == old(tree).shape(),
        final(tree).next_id() == old(tree).next_id(),
        final(tree).nodes() == moved_links(old(tree).nodes(), from, to),
{
    let parent = match tree.nodes.get(&from) {
        Some(node) => node.parent,
        None => None,
    };
    if let Some(p) = parent {
        replace_child(tree, p, from, to);
    }
    set_parent(tree, to, parent);
}

/// The arena after `to` took the place of `from` below the parent of `from`.
pub open spec fn moved_links<T>(m: Map<NodeId, Node<T>>, from: NodeId, to: NodeId) -> Map<
    NodeId,
    Node<T>,
> {
    let above = match m[from].parent {
        Some(p) => m.insert(p, with_child(m[p], from, to)),
        None => m,
    };
    above.insert(to, with_parent(m[to], m[from].parent))
}

/// Removes the leaf `node` and returns the root of what is left. A node that
/// is not a leaf is refused, and the tree stays as it is.
pub fn remove_from_tree<T>(tree: &mut Tree<T>, node: NodeId) -> (r: Result<NodeId, Error>)
    requires
        old(tree).wf(),
        old(tree).shape().contains(node),
    ensures
        final(tree).wf(),
        final(tree).next_id() == old(tree).next_id(),
        old(tree).shape().is_leaf(node) ==> {
            &&& r == Ok::<NodeId, Error>(final(tree).shape().id())
            &&& final(tree).shape() == old(tree).shape().pruned(node)
            &&& forall|x: NodeId|
                #![trigger final(tree).shape().contains(x)]
                old(tree).shape().contains(x) && x != node && final(tree).shape().contains(x) ==> {
                    &&& final(tree).rect(x) == old(tree).rect(x)
                    &&& old(tree).shape().is_leaf(x) ==> final(tree).state(x) == old(tree).state(x)
                }
            &&& old(tree).shape().parent(node) is None ==> final(tree).rect(0) == old(tree).rect(
                node,
            )
        },
        !old(tree).shape().is_leaf(node) ==> {
            &&& r == Err::<NodeId, Error>(Error::OnlyLeafCanBeRemoved(node))
            &&& final(tree).shape() == old(tree).shape()
            &&& final(tree).nodes() == old(tree).nodes()
        },
{
    let ghost s = tree.shape@;
    proof {
        s.lemma_local(node);
    }
    let (is_leaf, parent) = match tree.nodes.get(&node) {
        Some(found) => (
            match found.n {
                N::Leaf(_) => true,
                _ => false,
            },
            found.parent,
        ),
        None => (false, None),
    };
    if !is_leaf {
        return Err(Error::OnlyLeafCanBeRemoved(node));
    }
    if let Some(p) = parent {
        proof {
            s.lemma_up(node);
            s.lemma_local(p);
            s.lemma_local(s.sibling(node));
        }
        let other = match tree.nodes.get(&p) {
            Some(above) => match above.n {
                N::Split(split) => sibling(&split, node),
                _ => node,
            },
            None => node,
        };
        replace_node(tree, p, other);
        tree.nodes.remove(&node);
        tree.nodes.remove(&p);
        proof {
            old(tree).lemma_pruned_stored(node);
        }
        tree.shape = Ghost(s.pruned(node));
        let root = match tree.nodes.get(&other) {
            Some(kept) => kept.root(tree),
            None => other,
        };
        Ok(root)
    } else {
        let taken = tree.nodes.remove(&node);
        if let Some(found) = taken {
            tree.nodes.insert(0, Node { id: 0, parent: None, n: N::Placeholder, rect: found.rect });
        }
        tree.shape = Ghost(Shape::Placeholder { id: 0 });
        Ok(0)
    }
}

/// Exchanges the two child slots of the split `parent`.
fn flip_children<T>(tree: &mut Tree<T>, parent: NodeId)
    requires
        old(tree).nodes().contains_key(parent),
        old(tree).nodes()[parent].n is Split,
    ensures
        final(tree).shape() == old(tree).shape(),
        final(tree).next_id() == old(tree).next_id(),
        final(tree).nodes() == old(tree).nodes().insert(parent, flipped(old(tree).nodes()[parent])),
{
    let taken = tree.nodes.remove(&parent);
    if let Some(node) = taken {
        let Node { id, parent: up, n, rect } = node;
        if let N::Split(s) = n {
            let s2 = Split { dir: s.dir, a: s.b, b: s.a };
            tree.nodes.insert(parent, Node { id, parent: up, n: N::Split(s2), rect });
            assert(tree.nodes@ =~= old(tree).nodes@.insert(
                parent,
                flipped(old(tree).nodes@[parent]),
            ));
        }
    }
}

/// The split node with its two child slots exchanged.
pub open spec fn flipped<T>(node: Node<T>) -> Node<T> {
    match node.n {
        N::Split(s) => Node { n: N::Split(Split { dir: s.dir, a: s.b, b: s.a }), ..node },
        _ => node,
    }
}

/// Exchanges the places of two leaves. Children of one split exchange their
/// slots; a leaf that is the whole tree stays where it is.
pub fn swap<T>(tree: &mut Tree<T>, node1: NodeId, node2: NodeId)
    requires
        old(tree).wf(),
        old(tree).shape().is_leaf(node1),
        old(tree).shape().is_leaf(node2),
    ensures
        final(tree).wf(),
        final(tree).next_id() == old(tree).next_id(),
        final(tree).shape() == old(tree).shape().swapped(node1, node2),
        forall|x: NodeId|
            old(tree).shape().contains(x) ==> #[trigger] final(tree).rect(x) == old(tree).rect(x),
        forall|x: NodeId|
            old(tree).shape().is_leaf(x) ==> #[trigger] final(tree).state(x) == old(tree).state(x),
{
    let ghost s = tree.shape@;
    proof {
        s.lemma_local(node1);
        s.lemma_local(node2);
    }
    let up1 = match tree.nodes.get(&node1) {
        Some(node) => node.parent,
        None => None,
    };
    let up2 = match tree.nodes.get(&node2) {
        Some(node) => node.parent,
        None => None,
    };
    let parent1 = match up1 {
        Some(p) => p,
        None => {
            return ;
        },
    };
    let parent2 = match up2 {
        Some(p) => p,
        None => {
            return ;
        },
    };
    proof {
        s.lemma_up(node1);
        s.lemma_up(node2);
        s.lemma_local(parent1);
        s.lemma_local(parent2);
    }
    if parent1 == parent2 {
        flip_children(tree, parent1);
        proof {
            old(tree).lemma_flipped_stored(parent1);
        }
        tree.shape = Ghost(s.swapped(node1, node2));
    } else {
        replace_child(tree, parent1, node1, node2);
        set_parent(tree, node1, Some(parent2));
        replace_child(tree, parent2, node2, node1);
        set_parent(tree, node2, Some(parent1));
        proof {
            old(tree).lemma_exchanged_stored(node1, node2);
            assert(tree.nodes@ == exchanged_links(old(tree).nodes@, node1, node2, parent1, parent2));
        }
        tree.shape = Ghost(s.swapped(node1, node2));
    }
}

/// The nodes that are neighbors of `start_node` in `direction`: the nodes
/// along the near edge of the subtree that lies across the nearest split
/// boundary in that direction; none where there is no such boundary.
pub fn nodes_to_direction<T>(tree: &Tree<T>, start_node: NodeId, direction: Direction) -> (r:
    HashSet<NodeId>)
    requires
        tree.wf(),
        tree.shape().contains(start_node),
    ensures
        r@ == tree.shape().neighbors(start_node, direction).to_set(),
{
    let ghost s = tree.shape();
    let split_dir = match direction {
        Direction::Up | Direction::Down => SplitDir::H,
        Direction::Left | Direction::Right => SplitDir::V,
    };
    let up_or_left = direction == Direction::Up || direction == Direction::Left;

    let mut ancestor_sibling: Option<NodeId> = None;
    let mut it = match tree.get(start_node) {
        Some(node) => node.ancestors(tree),
        None => AncestorIter { next: None, curr_id: start_node },
    };
    loop
        invariant_except_break
            ancestor_sibling is None,
            s.candidate(start_node, direction) == s.candidate(it.curr_id, direction),
        invariant
            it.wf(tree),
            s == tree.shape(),
            split_dir == direction.axis(),
            up_or_left == direction.toward_first(),
        ensures
            ancestor_sibling == s.candidate(start_node, direction),
            match ancestor_sibling {
                Some(c) => s.contains(c),
                None => true,
            },
        decreases s.size() - s.subtree(it.curr_id).size(),
    {
        let ghost c = it.curr_id;
        proof {
            s.lemma_local(c);
            if s.parent(c) is Some {
                s.lemma_solid_root();
                s.lemma_candidate_up(c, direction);
                s.lemma_up(c);
                s.lemma_local(s.parent(c).unwrap());
            } else {
                assert(s.candidate(s.id(), direction) is None);
            }
        }
        match it.next(tree) {
            Some((parent, nodeid)) => {
                let found = match tree.get(parent) {
                    Some(above) => match above.n {
                        N::Split(split) => if split.dir == split_dir {
                            let dir_child = if up_or_left {
                                split.a
                            } else {
                                split.b
                            };
                            if dir_child == nodeid {
                                None
                            } else {
                                Some(dir_child)
                            }
                        } else {
                            None
                        },
                        _ => None,
                    },
                    None => None,
                };
                if found.is_some() {
                    ancestor_sibling = found;
                    break ;
                }
            },
            None => {
                break ;
            },
        }
    }

    let mut collected: HashSet<NodeId> = HashSet::new();
    if let Some(top) = ancestor_sibling {
        let ghost sub = s.subtree(top);
        let ghost w = sub.walk(Some(direction));
        let ghost mut seen: Seq<NodeId> = Seq::empty();
        proof {
            s.lemma_local(top);
            sub.lemma_root();
            sub.lemma_walk_head(Some(direction));
        }
        let mut search = Some(top);
        loop
            invariant
                tree.wf(),
                s == tree.shape(),
                s.contains(top),
                sub == s.subtree(top),
                sub.wf(),
                w == sub.walk(Some(direction)),
                split_dir == direction.axis(),
                up_or_left == direction.toward_first(),
                seen.len() <= w.len(),
                seen == w.take(seen.len() as int),
                collected@ == seen.to_set(),
                search == if seen.len() < w.len() {
                    Some(w[seen.len() as int])
                } else {
                    None
                },
            ensures
                seen == w,
                collected@ == seen.to_set(),
            decreases w.len() - seen.len(),
        {
            let current_search = match search {
                Some(x) => x,
                None => {
                    assert(w.take(w.len() as int) == w);
                    break ;
                },
            };
            proof {
                sub.lemma_walk_at(Some(direction), seen.len() as int);
                s.lemma_nested(top, current_search);
                s.lemma_local(current_search);
                sub.lemma_local(current_search);
                seen.lemma_push_to_set_commute(current_search);
                assert(w.take(seen.len() as int + 1) == seen.push(current_search));
                seen = seen.push(current_search);
            }
            collected.insert(current_search);
            let below = match tree.get(current_search) {
                Some(node) => match node.n {
                    N::Split(split) => if split.dir == split_dir {
                        Some(
                            if up_or_left {
                                split.b
                            } else {
                                split.a
                            },
                        )
                    } else {
                        Some(split.a)
                    },
                    _ => None,
                },
                None => None,
            };
            search = match below {
                Some(n) => Some(n),
                None => climb(tree, current_search, top, Some(direction)),
            };
        }
    } else {
        assert(Seq::<NodeId>::empty().to_set() =~= Set::<NodeId>::empty());
    }

    collected
}

/// The arena after a new split `split` took the place of `tree_node`.
pub open spec fn split_links<T>(
    m: Map<NodeId, Node<T>>,
    tree_node: NodeId,
    new_node: NodeId,
    dir: SplitDir,
    split: NodeId,
) -> Map<NodeId, Node<T>> {
    let linked = m.insert(
        split,
        Node {
            id: split,
            parent: m[tree_node].parent,
            n: N::Split(Split { dir, a: tree_node, b: new_node }),
            rect: Rect::zero(),
        },
    ).insert(new_node, with_parent(m[new_node], Some(split))).insert(
        tree_node,
        with_parent(m[tree_node], Some(split)),
    );
    match m[tree_node].parent {
        Some(p) => linked.insert(p, with_child(m[p], tree_node, split)),
        None => linked,
    }
}

} // verus!
