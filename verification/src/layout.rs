//! The rectangles that a layout assigns: a split divides its rectangle
//! between its two children, and the leaves tile the whole.

use crate::shape::Shape;
use crate::tree::{SplitDir, Tree, N};
use crate::types::{NodeId, Rect};
use vstd::prelude::*;

verus! {

/// The part of `r` that the first child of a split gets: the top half of the
/// height for `H`, the left half of the width for `V`, rounded down.
pub open spec fn first_half(r: Rect, dir: SplitDir) -> Rect {
    match dir {
        SplitDir::H => Rect { h: r.h / 2, ..r },
        SplitDir::V => Rect { w: r.w / 2, ..r },
    }
}

/// The part of `r` that the second child of a split gets: what the first
/// half leaves.
pub open spec fn second_half(r: Rect, dir: SplitDir) -> Rect {
    match dir {
        SplitDir::H => Rect { y: (r.y + r.h / 2) as i32, h: (r.h - r.h / 2) as u32, ..r },
        SplitDir::V => Rect { x: (r.x + r.w / 2) as i32, w: (r.w - r.w / 2) as u32, ..r },
    }
}

/// The two parts into which a split with orientation `dir` divides `rect`.
pub fn halves(rect: Rect, dir: SplitDir) -> (r: (Rect, Rect))
    requires
        rect.valid(),
    ensures
        r.0 == first_half(rect, dir),
        r.1 == second_half(rect, dir),
        r.0.valid(),
        r.1.valid(),
{
    match dir {
        SplitDir::H => {
            let half: u32 = rect.h / 2;
            (
                Rect { x: rect.x, y: rect.y, w: rect.w, h: half },
                Rect { x: rect.x, y: rect.y + half as i32, w: rect.w, h: rect.h - half },
            )
        },
        SplitDir::V => {
            let half: u32 = rect.w / 2;
            (
                Rect { x: rect.x, y: rect.y, w: half, h: rect.h },
                Rect { x: rect.x + half as i32, y: rect.y, w: rect.w - half, h: rect.h },
            )
        },
    }
}

/// The rectangle of node `x` when the tree `s` is laid out in `r`: the root
/// gets `r`, and the children of a split get its two halves.
pub open spec fn rect_of(s: Shape, r: Rect, x: NodeId) -> Rect
    decreases s,
{
    match s {
        Shape::Split { id, dir, a, b } => if id == x {
            r
        } else if a.contains(x) {
            rect_of(*a, first_half(r, dir), x)
        } else {
            rect_of(*b, second_half(r, dir), x)
        },
        _ => r,
    }
}

/// The leaf in whose rectangle the point `(px, py)` falls when the tree `s`
/// is laid out in `r`.
pub open spec fn leaf_at(s: Shape, r: Rect, px: int, py: int) -> NodeId
    decreases s,
{
    match s {
        Shape::Split { dir, a, b, .. } => if first_half(r, dir).covers(px, py) {
            leaf_at(*a, first_half(r, dir), px, py)
        } else {
            leaf_at(*b, second_half(r, dir), px, py)
        },
        _ => s.id(),
    }
}

/// The two halves of a valid rectangle are valid, and each point of the
/// rectangle lies in exactly one of them.
pub proof fn lemma_halves(r: Rect, dir: SplitDir, px: int, py: int)
    requires
        r.valid(),
    ensures
        first_half(r, dir).valid(),
        second_half(r, dir).valid(),
        r.covers(px, py) <==> first_half(r, dir).covers(px, py) || second_half(r, dir).covers(
            px,
            py,
        ),
        !(first_half(r, dir).covers(px, py) && second_half(r, dir).covers(px, py)),
{
}

/// The rectangle of every node of a layout in a valid rectangle is valid.
pub proof fn lemma_rect_valid(s: Shape, r: Rect, x: NodeId)
    requires
        r.valid(),
    ensures
        rect_of(s, r, x).valid(),
    decreases s,
{
    match s {
        Shape::Split { id, dir, a, b } => {
            lemma_halves(r, dir, 0, 0);
            lemma_rect_valid(*a, first_half(r, dir), x);
            lemma_rect_valid(*b, second_half(r, dir), x);
        },
        _ => {},
    }
}

/// The second half of a rectangle with positive extents has positive
/// extents.
pub proof fn lemma_second_half_positive(r: Rect, dir: SplitDir)
    requires
        r.valid(),
        r.w > 0,
        r.h > 0,
    ensures
        second_half(r, dir).w > 0,
        second_half(r, dir).h > 0,
{
}

/// The layout after a leaf was added at `target`: the new split has the
/// rectangle that `target` had, `target` has its first half and the new leaf
/// its second, and every node outside the subtree at `target` keeps its
/// rectangle.
pub proof fn lemma_grown_layout(
    s: Shape,
    r: Rect,
    target: NodeId,
    dir: SplitDir,
    leaf: NodeId,
    split: NodeId,
)
    requires
        s.solid(),
        s.contains(target),
        !s.contains(leaf),
        !s.contains(split),
        leaf != split,
    ensures
        rect_of(s.grown(target, dir, leaf, split), r, split) == rect_of(s, r, target),
        rect_of(s.grown(target, dir, leaf, split), r, target) == first_half(
            rect_of(s, r, target),
            dir,
        ),
        rect_of(s.grown(target, dir, leaf, split), r, leaf) == second_half(
            rect_of(s, r, target),
            dir,
        ),
        forall|y: NodeId|
            s.contains(y) && !s.subtree(target).contains(y) ==> #[trigger] rect_of(
                s.grown(target, dir, leaf, split),
                r,
                y,
            ) == rect_of(s, r, y),
    decreases s,
{
    let g = s.grown(target, dir, leaf, split);
    let l = Shape::Leaf { id: leaf };
    s.lemma_root();
    s.lemma_grown(target, dir, leaf, split);
    if s.id() == target {
        assert(s.subtree(target) == s);
        assert(g == Shape::Split { id: split, dir, a: Box::new(s), b: Box::new(l) });
        assert(rect_of(s, r, target) == r);
        assert(rect_of(s, first_half(r, dir), target) == first_half(r, dir));
        assert(l.contains(leaf));
        assert(rect_of(l, second_half(r, dir), leaf) == second_half(r, dir));
    } else {
        match s {
            Shape::Split { id, dir: d, a, b } => {
                a.lemma_solid();
                b.lemma_solid();
                a.lemma_root();
                b.lemma_root();
                let t = Shape::Split {
                    id: split,
                    dir,
                    a: Box::new(s.subtree(target)),
                    b: Box::new(l),
                };
                if a.contains(target) {
                    let a2 = a.grown(target, dir, leaf, split);
                    assert(s.subtree(target) == a.subtree(target));
                    b.lemma_replace_absent(target, t);
                    assert(g == Shape::Split { id, dir: d, a: Box::new(a2), b });
                    a.lemma_grown(target, dir, leaf, split);
                    lemma_grown_layout(*a, first_half(r, d), target, dir, leaf, split);
                    assert(a2.contains(split) && a2.contains(leaf) && a2.contains(target));
                    assert forall|y: NodeId|
                        s.contains(y) && !s.subtree(target).contains(y) implies #[trigger] rect_of(
                        g,
                        r,
                        y,
                    ) == rect_of(s, r, y) by {
                        if y == id {
                        } else if a.contains(y) {
                            assert(a2.contains(y));
                            assert(rect_of(g, r, y) == rect_of(a2, first_half(r, d), y));
                            assert(rect_of(a2, first_half(r, d), y) == rect_of(
                                *a,
                                first_half(r, d),
                                y,
                            ));
                        } else {
                            assert(b.contains(y));
                            assert(!a2.contains(y));
                            assert(rect_of(g, r, y) == rect_of(*b, second_half(r, d), y));
                        }
                    }
                } else {
                    let b2 = b.grown(target, dir, leaf, split);
                    assert(s.subtree(target) == b.subtree(target));
                    a.lemma_replace_absent(target, t);
                    assert(g == Shape::Split { id, dir: d, a, b: Box::new(b2) });
                    b.lemma_grown(target, dir, leaf, split);
                    lemma_grown_layout(*b, second_half(r, d), target, dir, leaf, split);
                    assert(!a.contains(split) && !a.contains(leaf) && !a.contains(target));
                    assert forall|y: NodeId|
                        s.contains(y) && !s.subtree(target).contains(y) implies #[trigger] rect_of(
                        g,
                        r,
                        y,
                    ) == rect_of(s, r, y) by {
                        if y == id {
                        } else if a.contains(y) {
                            assert(rect_of(g, r, y) == rect_of(*a, first_half(r, d), y));
                        } else {
                            assert(b.contains(y));
                            assert(b2.contains(y));
                            assert(rect_of(g, r, y) == rect_of(b2, second_half(r, d), y));
                            assert(rect_of(b2, second_half(r, d), y) == rect_of(
                                *b,
                                second_half(r, d),
                                y,
                            ));
                        }
                    }
                }
            },
            _ => {},
        }
    }
}

/// No gap: every point of the rectangle in which a tree of leaves and splits
/// is laid out lies in the rectangle of one of its leaves.
pub proof fn lemma_layout_covers(s: Shape, r: Rect, px: int, py: int)
    requires
        s.solid(),
        r.valid(),
        r.covers(px, py),
    ensures
        s.is_leaf(leaf_at(s, r, px, py)),
        rect_of(s, r, leaf_at(s, r, px, py)).covers(px, py),
    decreases s,
{
    match s {
        Shape::Split { id, dir, a, b } => {
            lemma_halves(r, dir, px, py);
            a.lemma_root();
            b.lemma_root();
            if first_half(r, dir).covers(px, py) {
                lemma_layout_covers(*a, first_half(r, dir), px, py);
                let l = leaf_at(*a, first_half(r, dir), px, py);
                assert(s.subtree(l) == a.subtree(l));
            } else {
                lemma_layout_covers(*b, second_half(r, dir), px, py);
                let l = leaf_at(*b, second_half(r, dir), px, py);
                assert(!a.contains(l));
                assert(s.subtree(l) == b.subtree(l));
            }
        },
        _ => {},
    }
}

/// No overlap, nothing outside: a point in the rectangle of a leaf lies in
/// the rectangle of the whole layout, and in the rectangle of no other leaf.
pub proof fn lemma_layout_disjoint(s: Shape, r: Rect, x: NodeId, px: int, py: int)
    requires
        s.solid(),
        r.valid(),
        s.is_leaf(x),
        rect_of(s, r, x).covers(px, py),
    ensures
        r.covers(px, py),
        leaf_at(s, r, px, py) == x,
    decreases s,
{
    match s {
        Shape::Split { id, dir, a, b } => {
            lemma_halves(r, dir, px, py);
            if a.contains(x) {
                assert(s.subtree(x) == a.subtree(x));
                lemma_layout_disjoint(*a, first_half(r, dir), x, px, py);
            } else {
                assert(s.subtree(x) == b.subtree(x));
                lemma_layout_disjoint(*b, second_half(r, dir), x, px, py);
            }
        },
        _ => {},
    }
}

/// `after` is `before` with the subtree at `root` laid out in `rect`: each
/// node below `root` holds the rectangle that `rect_of` gives it, and all
/// else is as it was.
pub open spec fn laid<T>(after: &Tree<T>, before: &Tree<T>, root: NodeId, rect: Rect) -> bool {
    &&& after.relaid(before)
    &&& forall|x: NodeId|
        before.shape().subtree(root).contains(x) ==> #[trigger] after.rect(x) == rect_of(
            before.shape().subtree(root),
            rect,
            x,
        )
    &&& forall|x: NodeId|
        !before.shape().subtree(root).contains(x) ==> #[trigger] after.rect(x) == before.rect(x)
}

/// Lays out the subtree at `root` in `rect`.
pub fn configure_views<T>(tree: &mut Tree<T>, root: NodeId, rect: Rect)
    requires
        old(tree).wf(),
        old(tree).shape().contains(root),
        rect.valid(),
    ensures
        final(tree).wf(),
        laid(final(tree), old(tree), root, rect),
    decreases old(tree).shape().subtree(root).size(),
{
    let ghost s = tree.shape();
    let ghost sub = s.subtree(root);
    proof {
        s.lemma_local(root);
        sub.lemma_root();
    }
    tree.set_rect(root, rect);
    let split = match tree.get(root) {
        Some(node) => match node.n {
            N::Split(split) => Some(split),
            _ => None,
        },
        None => None,
    };
    if let Some(split) = split {
        let (first, second) = halves(rect, split.dir);
        let ghost t1 = *tree;
        configure_views(tree, split.a, first);
        let ghost t2 = *tree;
        configure_views(tree, split.b, second);
        proof {
            assert forall|x: NodeId| t1.nodes().contains_key(x) implies #[trigger] tree.nodes()[x]
                == crate::tree::with_rect(old(tree).nodes()[x], tree.nodes()[x].rect) by {
                assert(t2.nodes().contains_key(x));
                assert(t2.nodes()[x] == crate::tree::with_rect(t1.nodes()[x], t2.nodes()[x].rect));
            }
            assert forall|x: NodeId| sub.contains(x) implies #[trigger] tree.rect(x) == rect_of(
                sub,
                rect,
                x,
            ) by {
                if x == root {
                } else if s.subtree(split.a).contains(x) {
                } else {
                }
            }
        }
    }
}

/// Laying out twice in the same rectangle leaves every rectangle as the
/// first layout made it.
pub proof fn lemma_layout_idempotent<T>(
    t0: &Tree<T>,
    t1: &Tree<T>,
    t2: &Tree<T>,
    root: NodeId,
    rect: Rect,
)
    requires
        laid(t1, t0, root, rect),
        laid(t2, t1, root, rect),
    ensures
        forall|x: NodeId| #[trigger] t2.rect(x) == t1.rect(x),
{
    assert forall|x: NodeId| #[trigger] t2.rect(x) == t1.rect(x) by {
        if t0.shape().subtree(root).contains(x) {
        } else {
        }
    }
}

/// After a tree of leaves and splits was laid out in `rect`, the rectangles
/// of its leaves tile `rect`: each point of `rect` lies in the rectangle of
/// the leaf `leaf_at`, and in that of no other leaf.
pub proof fn lemma_laid_tiles<T>(after: &Tree<T>, before: &Tree<T>, rect: Rect, px: int, py: int)
    requires
        before.wf(),
        before.shape().solid(),
        laid(after, before, before.shape().id(), rect),
        rect.valid(),
        rect.covers(px, py),
    ensures
        after.shape().is_leaf(leaf_at(after.shape(), rect, px, py)),
        after.rect(leaf_at(after.shape(), rect, px, py)).covers(px, py),
        forall|x: NodeId|
            after.shape().is_leaf(x) && (#[trigger] after.rect(x)).covers(px, py) ==> x == leaf_at(
                after.shape(),
                rect,
                px,
                py,
            ),
{
    let s = before.shape();
    s.lemma_root();
    lemma_layout_covers(s, rect, px, py);
    assert forall|x: NodeId| s.is_leaf(x) && (#[trigger] after.rect(x)).covers(px, py) implies x
        == leaf_at(s, rect, px, py) by {
        lemma_layout_disjoint(s, rect, x, px, py);
    }
}

} // verus!
