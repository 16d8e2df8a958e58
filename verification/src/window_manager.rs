//! The window manager: the workspaces with their trees, the windows in the
//! order of their last use, and the navigation between windows.

use crate::layout::{
    configure_views, first_half, leaf_at, lemma_grown_layout, lemma_layout_covers,
    lemma_layout_disjoint, lemma_rect_valid, lemma_second_half_positive, rect_of, second_half,
};
use crate::mru::{
    last_index_of, last_where, lemma_last_index_of, lemma_last_where_none, lemma_moved_last,
    lemma_remove_distinct, remove_id, without_last,
};
use crate::outputs::{
    claimed_rect, distinct_outputs, first_bound, first_of_its_output, is_reported,
    lemma_first_bound, place, reported, unbound, OutputInfo,
};
use crate::shape::Shape;
use crate::tree::{
    add_leaf, create_root, nodes_to_direction, remove_from_tree, swap, Direction, Node, SplitDir,
    Tree, N,
};
use crate::types::{Error, NodeId, OutputId, Rect};
use std::collections::HashMap;
use vstd::prelude::*;

verus! {

/// The orientation in which a node with rectangle `rect` is split when a
/// window is added to it: along the longer side.
pub open spec fn split_dir_for(rect: Rect) -> SplitDir {
    if rect.h > rect.w {
        SplitDir::H
    } else {
        SplitDir::V
    }
}

/// The orientation in which `node` is split when a window is added to it.
fn split_dir<T>(node: &Node<T>) -> (r: SplitDir)
    ensures
        r == split_dir_for(node.rect),
{
    if node.rect.h > node.rect.w {
        SplitDir::H
    } else {
        SplitDir::V
    }
}

/// Whether the range of length `l1` from `a1` and the range of length `l2`
/// from `a2` overlap or touch.
pub open spec fn ranges_meet(a1: int, l1: int, a2: int, l2: int) -> bool {
    a1 + l1 >= a2 && a2 + l2 >= a1
}

/// Tests `ranges_meet`.
fn overlaps(a1: i32, l1: u32, a2: i32, l2: u32) -> (r: bool)
    ensures
        r == ranges_meet(a1 as int, l1 as int, a2 as int, l2 as int),
{
    a1 as i64 + l1 as i64 >= a2 as i64 && a2 as i64 + l2 as i64 >= a1 as i64
}

/// Whether a window with rectangle `r` lies beside one with rectangle
/// `active` for one who looks in `direction`: looking up or down, their
/// horizontal extents meet; looking left or right, their vertical extents.
pub open spec fn beside(r: Rect, active: Rect, direction: Direction) -> bool {
    if direction == Direction::Up || direction == Direction::Down {
        ranges_meet(r.x as int, r.w as int, active.x as int, active.w as int)
    } else {
        ranges_meet(r.y as int, r.h as int, active.y as int, active.h as int)
    }
}

/// What a leaf of a workspace's tree holds: the window's surface, and the
/// position of the workspace in the manager's list.
pub struct Window<V> {
    pub view: V,
    pub workspace: usize,
}

/// One layout tree with the rectangle in which it is laid out, bound to an
/// output or to none.
pub struct Workspace<V> {
    tree: Tree<Window<V>>,
    root: NodeId,
    rect: Rect,
    output_id: Option<OutputId>,
}

impl<V> Workspace<V> {
    /// The layout tree.
    pub closed spec fn tree(&self) -> Tree<Window<V>> {
        self.tree
    }

    /// The cached root of the tree.
    pub closed spec fn root(&self) -> NodeId {
        self.root
    }

    /// The rectangle in which the tree is laid out.
    pub closed spec fn rect(&self) -> Rect {
        self.rect
    }

    /// The output to which the workspace is bound.
    pub closed spec fn output_id(&self) -> Option<OutputId> {
        self.output_id
    }

    /// The tree is well-formed, the cached root is its root, and the
    /// rectangle is valid.
    pub open spec fn wf(&self) -> bool {
        &&& self.tree().wf()
        &&& self.root() == self.tree().shape().id()
        &&& self.rect().valid()
    }

    /// Every node holds the rectangle that the layout of the tree in the
    /// workspace's rectangle gives it.
    pub open spec fn laid_out(&self) -> bool {
        forall|x: NodeId| #[trigger]
            self.tree().shape().contains(x) ==> self.tree().rect(x) == rect_of(
                self.tree().shape(),
                self.rect(),
                x,
            )
    }
}

/// A window of the manager: its surface and the rectangle assigned to it.
pub struct ViewRef<'a, V> {
    view: &'a V,
    rect: &'a Rect,
}

impl<'a, V> ViewRef<'a, V> {
    /// The surface.
    pub closed spec fn view(&self) -> V {
        *self.view
    }

    /// The assigned rectangle.
    pub closed spec fn rect(&self) -> Rect {
        *self.rect
    }

    /// The surface and the rectangle.
    pub fn content_and_rect(&'a self) -> (r: (&'a V, &'a Rect))
        ensures
            *r.0 == self.view(),
            *r.1 == self.rect(),
    {
        (self.view, self.rect)
    }
}

/// Position of the last workspace after the first that is bound to the
/// output `id`, or 0 where none is.
pub open spec fn last_bound<V>(list: Seq<Workspace<V>>, id: OutputId) -> int
    decreases list.len(),
{
    if list.len() <= 1 {
        0
    } else if list.last().output_id() == Some(id) {
        list.len() - 1
    } else {
        last_bound(list.drop_last(), id)
    }
}

/// `last_bound` is the position of a workspace bound to `id`, and none
/// after it is bound to `id`.
pub proof fn lemma_last_bound<V>(list: Seq<Workspace<V>>, id: OutputId)
    ensures
        0 <= last_bound(list, id),
        last_bound(list, id) == 0 || last_bound(list, id) < list.len(),
        last_bound(list, id) > 0 ==> list[last_bound(list, id)].output_id() == Some(id),
        forall|k: int|
            1 <= k < list.len() && last_bound(list, id) < k ==> (#[trigger] list[k]).output_id()
                != Some(id),
    decreases list.len(),
{
    if list.len() <= 1 {
    } else if list.last().output_id() == Some(id) {
    } else {
        let front = list.drop_last();
        lemma_last_bound(front, id);
        assert forall|k: int| 1 <= k < list.len() && last_bound(list, id) < k implies (
        #[trigger] list[k]).output_id() != Some(id) by {
            if k < front.len() {
                assert(front[k] == list[k]);
            }
        }
        if last_bound(front, id) > 0 {
            assert(front[last_bound(front, id)] == list[last_bound(front, id)]);
        }
    }
}

/// The workspaces, the windows in the order of their last use, and the index
/// that tells in which workspace a window lives.
pub struct WindowManager<V> {
    view_nodes: HashMap<NodeId, usize>,
    mru_view: Vec<NodeId>,
    workspaces: Vec<Workspace<V>>,
}

impl<V> WindowManager<V> {
    /// The windows, least recently used first.
    pub closed spec fn mru(&self) -> Seq<NodeId> {
        self.mru_view@
    }

    /// For each window, the position of its workspace.
    pub closed spec fn index(&self) -> Map<NodeId, usize> {
        self.view_nodes@
    }

    /// The workspaces; the first is the one that is never dropped.
    pub closed spec fn workspaces(&self) -> Seq<Workspace<V>> {
        self.workspaces@
    }

    /// The workspace that holds the windows.
    pub open spec fn home(&self) -> Workspace<V> {
        self.workspaces()[0]
    }

    /// The tree of windows.
    pub open spec fn shape(&self) -> Shape {
        self.home().tree().shape()
    }

    /// The surface of window `id`.
    pub open spec fn view(&self, id: NodeId) -> V {
        self.home().tree().content(id).view
    }

    /// The rectangle assigned to node `id`.
    pub open spec fn rect(&self, id: NodeId) -> Rect {
        self.home().tree().rect(id)
    }

    /// Number of workspaces.
    pub fn workspace_count(&self) -> (r: usize)
        ensures
            r == self.workspaces().len(),
    {
        self.workspaces.len()
    }

    /// Rectangle of the workspace at position `i`.
    pub fn workspace_rect(&self, i: usize) -> (r: Rect)
        requires
            i < self.workspaces().len(),
        ensures
            r == self.workspaces()[i as int].rect(),
    {
        self.workspaces[i].rect
    }

    /// Output to which the workspace at position `i` is bound.
    pub fn workspace_output(&self, i: usize) -> (r: Option<OutputId>)
        requires
            i < self.workspaces().len(),
        ensures
            r == self.workspaces()[i as int].output_id(),
    {
        self.workspaces[i].output_id
    }

    /// The identifier that the next new node of the tree of windows gets.
    pub open spec fn next_id(&self) -> NodeId {
        self.home().tree().next_id()
    }

    /// Whether the tree of windows has identifiers left for one more window.
    pub fn can_add_view(&self) -> (r: bool)
        requires
            self.wf(),
        ensures
            r == self.home().tree().spare(),
    {
        self.workspaces[0].tree.can_grow()
    }

    /// The node to which the next window is added: the most recently used
    /// window, or the root where there is no window.
    pub open spec fn target(&self) -> NodeId {
        if self.mru().len() > 0 {
            self.mru().last()
        } else {
            self.home().root()
        }
    }

    /// The manager's invariant but for the layout. There is a first
    /// workspace, every workspace is well-formed, and all but the first are
    /// empty. The windows in the order of use are, without repetition, the
    /// leaves of the first workspace's tree, and the index knows exactly
    /// them.
    pub open spec fn consistent(&self) -> bool {
        &&& self.workspaces().len() >= 1
        &&& forall|i: int| 0 <= i < self.workspaces().len() ==> (#[trigger] self.workspaces()[i]).wf()
        &&& forall|i: int|
            1 <= i < self.workspaces().len() ==> (#[trigger] self.workspaces()[i]).tree().shape()
                == (Shape::Placeholder { id: 0 })
        &&& self.mru().no_duplicates()
        &&& forall|id: NodeId| #[trigger] self.mru().contains(id) <==> self.shape().is_leaf(id)
        &&& forall|id: NodeId| #[trigger] self.index().contains_key(id) <==> self.mru().contains(id)
        &&& forall|id: NodeId| self.index().contains_key(id) ==> #[trigger] self.index()[id] == 0
        &&& forall|id: NodeId| #[trigger]
            self.shape().is_leaf(id) ==> self.home().tree().content(id).workspace == 0
    }

    /// The manager's invariant: it is consistent, and the first workspace is
    /// laid out.
    pub open spec fn wf(&self) -> bool {
        &&& self.consistent()
        &&& self.home().laid_out()
    }

    /// A manager without windows, with one workspace of 800 by 600 that is
    /// bound to no output.
    pub fn new() -> (wm: WindowManager<V>)
        ensures
            wm.wf(),
            wm.mru() == Seq::<NodeId>::empty(),
            wm.workspaces().len() == 1,
            wm.shape() == (Shape::Placeholder { id: 0 }),
            wm.home().rect() == (Rect { x: 0, y: 0, w: 800, h: 600 }),
            wm.home().output_id() is None,
            wm.next_id() == 1,
    {
        let rect = Rect { x: 0, y: 0, w: 800, h: 600 };
        let mut tree = create_root();
        configure_views(&mut tree, 0, rect);
        let ws = Workspace { tree, root: 0, rect, output_id: None };
        let mut workspaces = Vec::new();
        workspaces.push(ws);
        WindowManager { view_nodes: HashMap::new(), mru_view: Vec::new(), workspaces }
    }

    /// The most recently used window, if there is a window.
    pub fn active_node(&self) -> (r: Option<NodeId>)
        requires
            self.wf(),
        ensures
            r == if self.mru().len() > 0 {
                Some(self.mru().last())
            } else {
                None
            },
    {
        let n = self.mru_view.len();
        if n == 0 {
            None
        } else {
            let id = self.mru_view[n - 1];
            assert(self.mru()[n - 1] == id);
            assert(self.mru().contains(id));
            assert(self.index().contains_key(id));
            if self.view_nodes.contains_key(&id) {
                Some(id)
            } else {
                None
            }
        }
    }

    /// Takes the last occurrence of `id` out of the order of use.
    fn remove_from_mru(&mut self, id: NodeId)
        requires
            old(self).mru().contains(id),
        ensures
            final(self).mru() == without_last(old(self).mru(), id),
            final(self).workspaces() == old(self).workspaces(),
            final(self).index() == old(self).index(),
    {
        remove_id(&mut self.mru_view, id);
    }

    /// Makes `id` the most recently used window.
    pub fn touch_node(&mut self, id: NodeId)
        requires
            old(self).wf(),
            old(self).mru().contains(id),
        ensures
            final(self).wf(),
            final(self).mru() == without_last(old(self).mru(), id).push(id),
            final(self).mru().len() == old(self).mru().len(),
            final(self).mru().last() == id,
            final(self).workspaces() == old(self).workspaces(),
            final(self).index() == old(self).index(),
    {
        proof {
            lemma_moved_last(self.mru(), id);
        }
        self.remove_from_mru(id);
        self.mru_view.push(id);
    }

    /// This manager has the workspaces of `before` but for the tree of the
    /// first: as many, the others as they were, and the first with its
    /// rectangle and output.
    pub open spec fn same_workspaces(&self, before: &WindowManager<V>) -> bool {
        &&& self.workspaces().len() == before.workspaces().len()
        &&& forall|i: int|
            1 <= i < self.workspaces().len() ==> #[trigger] self.workspaces()[i]
                == before.workspaces()[i]
        &&& self.home().rect() == before.home().rect()
        &&& self.home().output_id() == before.home().output_id()
    }

    /// This manager is `before` with the first workspace laid out in its
    /// rectangle, and all else as it was.
    pub open spec fn configured(&self, before: &WindowManager<V>) -> bool {
        &&& self.same_workspaces(before)
        &&& self.mru() == before.mru()
        &&& self.index() == before.index()
        &&& self.home().wf()
        &&& self.home().laid_out()
        &&& self.home().tree().relaid(&before.home().tree())
    }

    /// Lays out the first workspace in its rectangle.
    pub fn configure_views(&mut self)
        requires
            old(self).workspaces().len() >= 1,
            old(self).home().wf(),
        ensures
            final(self).configured(old(self)),
            old(self).consistent() ==> final(self).wf(),
            forall|x: NodeId|
                old(self).shape().contains(x) ==> #[trigger] final(self).home().tree().state(x)
                    == old(self).home().tree().state(x),
    {
        let rect = self.workspaces[0].rect;
        let root = self.workspaces[0].root;
        proof {
            self.workspaces[0].tree.shape().lemma_root();
        }
        configure_views(&mut self.workspaces[0].tree, root, rect);
        proof {
            self.lemma_configured_wf(old(self));
        }
    }

    /// The identifier that the next window gets.
    pub open spec fn next_view_id(&self) -> NodeId {
        self.home().tree().leaf_id_for(self.target())
    }

    /// The identifier of the split that the next window brings with it, or
    /// of the window itself where it is the first.
    pub open spec fn next_split_id(&self) -> NodeId {
        if self.shape() is Placeholder {
            self.target()
        } else {
            (self.home().tree().next_id() + 1) as NodeId
        }
    }

    /// Adds a window next to the most recently used one, or as the first,
    /// with the surface that `create_view` makes for its identifier. The node
    /// it is added to is split along its longer side. The new window becomes
    /// the most recently used.
    pub fn add_view<F: FnOnce(NodeId) -> V>(&mut self, create_view: F) -> (id: NodeId)
        requires
            old(self).wf(),
            old(self).home().tree().spare(),
            create_view.requires((old(self).next_view_id(),)),
        ensures
            final(self).wf(),
            final(self).same_workspaces(old(self)),
            id == old(self).next_view_id(),
            final(self).mru() == old(self).mru().push(id),
            final(self).shape() == old(self).shape().grown(
                old(self).target(),
                split_dir_for(old(self).rect(old(self).target())),
                id,
                old(self).next_split_id(),
            ),
            create_view.ensures((id,), final(self).view(id)),
            forall|x: NodeId|
                old(self).mru().contains(x) ==> #[trigger] final(self).view(x) == old(self).view(x),
            final(self).next_id() == if old(self).shape() is Placeholder {
                old(self).next_id()
            } else {
                (old(self).next_id() + 2) as NodeId
            },
            final(self).rect(id) == if old(self).shape() is Placeholder {
                old(self).home().rect()
            } else {
                second_half(
                    old(self).rect(old(self).target()),
                    split_dir_for(old(self).rect(old(self).target())),
                )
            },
            !(old(self).shape() is Placeholder) ==> final(self).rect(old(self).target())
                == first_half(
                old(self).rect(old(self).target()),
                split_dir_for(old(self).rect(old(self).target())),
            ),
            forall|x: NodeId|
                #![trigger final(self).rect(x)]
                old(self).mru().contains(x) && x != old(self).target() ==> final(self).rect(x)
                    == old(self).rect(x),
            old(self).rect(old(self).target()).w > 0 && old(self).rect(old(self).target()).h > 0
                ==> final(self).rect(id).w > 0 && final(self).rect(id).h > 0,
    {
        let ghost s = self.shape();
        let active = self.active_node();
        let active_node = match active {
            Some(a) => a,
            None => self.workspaces[0].root,
        };
        let workspace: usize = 0;
        proof {
            s.lemma_root();
            if self.mru().len() > 0 {
                assert(self.mru()[self.mru().len() - 1] == active_node);
                assert(self.mru().contains(active_node));
            }
        }
        let dir = match self.workspaces[0].tree.get(active_node) {
            Some(node) => split_dir(node),
            None => SplitDir::V,
        };
        let wrap = |id: NodeId| -> (w: Window<V>)
            requires
                create_view.requires((id,)),
            ensures
                create_view.ensures((id,), w.view),
                w.workspace == workspace,
            { Window { view: create_view(id), workspace } };
        let (parent, new_leaf) = add_leaf(&mut self.workspaces[0].tree, active_node, wrap, dir);
        let ghost g = self.workspaces[0].tree.shape();
        let ghost t1 = self.workspaces[0].tree;
        proof {
            if s is Placeholder {
            } else {
                s.lemma_grown(active_node, dir, new_leaf, parent);
            }
        }
        let root = match self.workspaces[0].tree.get(parent) {
            Some(node) => node.root(&self.workspaces[0].tree),
            None => parent,
        };
        self.workspaces[0].root = root;
        self.view_nodes.insert(new_leaf, workspace);
        self.mru_view.push(new_leaf);
        proof {
            let before = old(self).mru();
            let after = self.mru();
            let t0 = old(self).home().tree();
            assert(!before.contains(new_leaf));
            assert forall|x: NodeId| #[trigger] after.contains(x) <==> before.contains(x) || x
                == new_leaf by {
                if after.contains(x) {
                    let k = choose|k: int| 0 <= k < after.len() && after[k] == x;
                    if k < before.len() {
                        assert(before[k] == x);
                    }
                }
                if before.contains(x) {
                    let k = choose|k: int| 0 <= k < before.len() && before[k] == x;
                    assert(after[k] == x);
                }
                if x == new_leaf {
                    assert(after[after.len() - 1] == x);
                }
            }
            assert forall|x: NodeId| #[trigger] g.is_leaf(x) <==> s.is_leaf(x) || x
                == new_leaf by {
                if !(s is Placeholder) {
                    s.lemma_local(active_node);
                    if s.contains(x) {
                        s.lemma_local(x);
                    }
                }
            }
            assert(after.no_duplicates()) by {
                assert forall|i: int, j: int|
                    0 <= i < after.len() && 0 <= j < after.len() && i != j implies after[i]
                    != after[j] by {
                    if i < before.len() {
                        assert(before.contains(after[i]));
                    }
                    if j < before.len() {
                        assert(before.contains(after[j]));
                    }
                }
            }
            assert forall|id: NodeId| #[trigger] g.is_leaf(id) implies t1.content(id).workspace
                == 0 by {
                if id != new_leaf {
                    assert(s.is_leaf(id));
                    assert(t1.state(id) == t0.state(id));
                }
            }
            assert(self.index() == old(self).index().insert(new_leaf, 0));
            assert forall|id: NodeId| #[trigger]
                self.index().contains_key(id) <==> after.contains(id) by {
                assert(old(self).index().contains_key(id) <==> before.contains(id));
            }
            assert forall|id: NodeId| self.index().contains_key(id) implies #[trigger] self.index()[id]
                == 0 by {
                if id != new_leaf {
                    assert(old(self).index().contains_key(id));
                }
            }
            self.lemma_consistent_after(old(self));
        }
        self.configure_views();
        proof {
            let t2 = self.home().tree();
            assert(t2.state(new_leaf) == t1.state(new_leaf));
            self.lemma_views_kept(&t1, old(self));
            assert forall|x: NodeId| old(self).mru().contains(x) implies #[trigger] self.view(x)
                == old(self).view(x) by {
                assert(s.is_leaf(x));
            }
            let r = old(self).home().rect();
            assert(self.shape() == g);
            assert(g.contains(new_leaf));
            assert(s.contains(active_node));
            assert(old(self).rect(active_node) == rect_of(s, r, active_node));
            if !(s is Placeholder) {
                lemma_grown_layout(s, r, active_node, dir, new_leaf, parent);
                assert(g.contains(active_node));
                s.lemma_local(active_node);
                assert forall|x: NodeId|
                    old(self).mru().contains(x) && x != active_node implies #[trigger] self.rect(x)
                    == old(self).rect(x) by {
                    assert(s.is_leaf(x));
                    assert(s.contains(x));
                    assert(g.contains(x));
                    assert(old(self).rect(x) == rect_of(s, r, x));
                }
                lemma_rect_valid(s, r, active_node);
                if old(self).rect(active_node).w > 0 && old(self).rect(active_node).h > 0 {
                    lemma_second_half_positive(old(self).rect(active_node), dir);
                }
            } else {
                assert forall|x: NodeId|
                    old(self).mru().contains(x) && x != active_node implies #[trigger] self.rect(x)
                    == old(self).rect(x) by {
                    assert(s.is_leaf(x));
                }
            }
        }
        new_leaf
    }

    /// Removes the window `id`. An identifier that names no window is
    /// refused, and nothing changes.
    pub fn remove_node(&mut self, id: NodeId) -> (r: Result<(), Error>)
        requires
            old(self).wf(),
        ensures
            final(self).wf(),
            final(self).same_workspaces(old(self)),
            final(self).next_id() == old(self).next_id(),
            old(self).mru().contains(id) ==> {
                &&& r == Ok::<(), Error>(())
                &&& final(self).mru() == without_last(old(self).mru(), id)
                &&& final(self).mru().len() == old(self).mru().len() - 1
                &&& !final(self).mru().contains(id)
                &&& final(self).shape() == old(self).shape().pruned(id)
                &&& forall|x: NodeId|
                    final(self).mru().contains(x) ==> #[trigger] final(self).view(x) == old(
                        self,
                    ).view(x)
            },
            !old(self).mru().contains(id) ==> {
                &&& r == Err::<(), Error>(Error::NoWindow(id))
                &&& final(self).mru() == old(self).mru()
                &&& final(self).index() == old(self).index()
                &&& final(self).workspaces() == old(self).workspaces()
            },
    {
        let ghost s = self.shape();
        let workspace: usize = match self.view_nodes.get(&id) {
            Some(_) => 0,
            None => {
                assert(!self.index().contains_key(id));
                return Err(Error::NoWindow(id));
            },
        };
        assert(self.index().contains_key(id));
        assert(s.is_leaf(id));
        let removed = remove_from_tree(&mut self.workspaces[workspace].tree, id);
        let ghost t1 = self.workspaces[0].tree;
        match removed {
            Ok(root) => {
                self.workspaces[workspace].root = root;
            },
            Err(e) => {
                return Err(e);
            },
        }
        self.view_nodes.remove(&id);
        proof {
            lemma_last_index_of(self.mru(), id);
            lemma_remove_distinct(self.mru(), last_index_of(self.mru(), id));
        }
        self.remove_from_mru(id);
        proof {
            let before = old(self).mru();
            let after = self.mru();
            let g = self.shape();
            let t0 = old(self).home().tree();
            s.lemma_local(id);
            assert forall|x: NodeId| #[trigger] g.is_leaf(x) <==> s.is_leaf(x) && x != id by {
                if s.parent(id) is Some {
                    s.lemma_pruned(id);
                    s.lemma_up(id);
                    if s.contains(x) {
                        s.lemma_local(x);
                    }
                }
            }
            assert forall|x: NodeId| #[trigger] g.is_leaf(x) implies t1.content(x).workspace
                == 0 by {
                assert(s.is_leaf(x));
                assert(t1.state(x) == t0.state(x));
            }
            assert(self.index() == old(self).index().remove(id));
            assert forall|x: NodeId| #[trigger]
                self.index().contains_key(x) <==> after.contains(x) by {
                assert(old(self).index().contains_key(x) <==> before.contains(x));
            }
            assert forall|x: NodeId| self.index().contains_key(x) implies #[trigger] self.index()[x]
                == 0 by {
                assert(old(self).index().contains_key(x));
            }
            assert forall|x: NodeId| #[trigger] after.contains(x) <==> g.is_leaf(x) by {
                assert(before.contains(x) <==> s.is_leaf(x));
            }
            self.lemma_consistent_after(old(self));
        }
        self.configure_views();
        proof {
            self.lemma_views_kept(&t1, old(self));
            assert forall|x: NodeId| self.mru().contains(x) implies #[trigger] self.view(x) == old(
                self,
            ).view(x) by {
                assert(old(self).mru().contains(x) && x != id);
                assert(s.is_leaf(x));
                assert(self.shape().is_leaf(x));
            }
        }
        Ok(())
    }

    /// The window that `neighbor` picks: of the windows that are neighbors of
    /// the most recently used one in `direction` and lie beside it, the most
    /// recently used.
    pub open spec fn neighbor_of(&self, direction: Direction) -> Option<NodeId> {
        if self.mru().len() == 0 {
            None
        } else {
            last_where(
                self.mru(),
                |id: NodeId|
                    self.shape().neighbors(self.mru().last(), direction).contains(id) && beside(
                        self.rect(id),
                        self.rect(self.mru().last()),
                        direction,
                    ),
            )
        }
    }

    /// The window to which the focus goes from the most recently used window
    /// in `direction`, if there is one.
    pub fn neighbor(&self, direction: Direction) -> (r: Option<NodeId>)
        requires
            self.wf(),
        ensures
            r == self.neighbor_of(direction),
    {
        let active = match self.active_node() {
            Some(a) => a,
            None => {
                return None;
            },
        };
        proof {
            assert(self.mru()[self.mru().len() - 1] == active);
            assert(self.mru().contains(active));
        }
        let active_rect = match self.workspaces[0].tree.get(active) {
            Some(node) => node.rect,
            None => Rect::default(),
        };
        let potential_neighbors = nodes_to_direction(&self.workspaces[0].tree, active, direction);
        let ghost good = |id: NodeId|
            self.shape().neighbors(self.mru().last(), direction).contains(id) && beside(
                self.rect(id),
                self.rect(self.mru().last()),
                direction,
            );
        let mut i: usize = self.mru_view.len();
        assert(self.mru().take(i as int) == self.mru());
        while i > 0
            invariant
                self.wf(),
                i <= self.mru().len(),
                self.mru().len() > 0,
                active == self.mru().last(),
                active_rect == self.rect(active),
                potential_neighbors@ == self.shape().neighbors(active, direction).to_set(),
                good == |id: NodeId|
                    self.shape().neighbors(self.mru().last(), direction).contains(id) && beside(
                        self.rect(id),
                        self.rect(self.mru().last()),
                        direction,
                    ),
                last_where(self.mru(), good) == last_where(self.mru().take(i as int), good),
            decreases i,
        {
            i -= 1;
            let nodeid = self.mru_view[i];
            proof {
                let front = self.mru().take(i + 1);
                assert(front.last() == nodeid);
                assert(front.drop_last() == self.mru().take(i as int));
                assert(self.mru().contains(nodeid));
            }
            if potential_neighbors.contains(&nodeid) {
                let r = match self.workspaces[0].tree.get(nodeid) {
                    Some(node) => node.rect,
                    None => Rect::default(),
                };
                let meets = if direction == Direction::Up || direction == Direction::Down {
                    overlaps(r.x, r.w, active_rect.x, active_rect.w)
                } else {
                    overlaps(r.y, r.h, active_rect.y, active_rect.h)
                };
                if meets {
                    assert(good(nodeid));
                    return Some(nodeid);
                }
            }
            assert(!good(nodeid));
        }
        assert(self.mru().take(self.mru().len() as int) == self.mru());
        None
    }

    /// The window `id`, if there is one.
    pub fn find_view<'a>(&'a self, id: NodeId) -> (r: Option<ViewRef<'a, V>>)
        requires
            self.wf(),
        ensures
            match r {
                Some(found) => self.mru().contains(id) && found.view() == self.view(id)
                    && found.rect() == self.rect(id),
                None => !self.mru().contains(id),
            },
    {
        let workspace: usize = match self.view_nodes.get(&id) {
            Some(w) => *w,
            None => {
                assert(!self.index().contains_key(id));
                return None;
            },
        };
        assert(self.index().contains_key(id));
        assert(self.index()[id] == 0);
        assert(self.shape().is_leaf(id));
        match self.workspaces[workspace].tree.get(id) {
            Some(node) => match &node.n {
                N::Leaf(leaf) => Some(ViewRef { view: &leaf.content.view, rect: &node.rect }),
                _ => None,
            },
            None => None,
        }
    }

    /// The windows, least recently used first.
    pub fn views_for_render<'a>(&'a self, _output: OutputId) -> (r: Vec<ViewRef<'a, V>>)
        requires
            self.wf(),
        ensures
            r.len() == self.mru().len(),
            forall|i: int|
                0 <= i < r.len() ==> (#[trigger] r[i]).view() == self.view(self.mru()[i]) && r[i].rect()
                    == self.rect(self.mru()[i]),
    {
        let mut out: Vec<ViewRef<'a, V>> = Vec::new();
        let mut i: usize = 0;
        while i < self.mru_view.len()
            invariant
                self.wf(),
                i <= self.mru().len(),
                out.len() == i,
                forall|j: int|
                    0 <= j < i ==> (#[trigger] out[j]).view() == self.view(self.mru()[j])
                        && out[j].rect() == self.rect(self.mru()[j]),
            decreases self.mru().len() - i,
        {
            let id = self.mru_view[i];
            assert(self.mru().contains(id));
            if let Some(found) = self.find_view(id) {
                out.push(found);
            }
            i += 1;
        }
        out
    }

    /// The windows, most recently used first.
    pub fn views_for_finding<'a>(&'a self) -> (r: Vec<ViewRef<'a, V>>)
        requires
            self.wf(),
        ensures
            r.len() == self.mru().len(),
            forall|i: int|
                0 <= i < r.len() ==> (#[trigger] r[i]).view() == self.view(
                    self.mru()[self.mru().len() - 1 - i],
                ) && r[i].rect() == self.rect(self.mru()[self.mru().len() - 1 - i]),
    {
        let mut out: Vec<ViewRef<'a, V>> = Vec::new();
        let n = self.mru_view.len();
        let mut i: usize = 0;
        while i < n
            invariant
                self.wf(),
                n == self.mru().len(),
                i <= n,
                out.len() == i,
                forall|j: int|
                    0 <= j < i ==> (#[trigger] out[j]).view() == self.view(self.mru()[n - 1 - j])
                        && out[j].rect() == self.rect(self.mru()[n - 1 - j]),
            decreases n - i,
        {
            let id = self.mru_view[n - 1 - i];
            assert(self.mru().contains(id));
            if let Some(found) = self.find_view(id) {
                out.push(found);
            }
            i += 1;
        }
        out
    }

    /// Exchanges the places of the windows `node1` and `node2` and lays the
    /// windows out anew.
    pub fn swap_views(&mut self, node1: NodeId, node2: NodeId)
        requires
            old(self).wf(),
            old(self).mru().contains(node1),
            old(self).mru().contains(node2),
        ensures
            final(self).wf(),
            final(self).same_workspaces(old(self)),
            final(self).mru() == old(self).mru(),
            final(self).shape() == old(self).shape().swapped(node1, node2),
            final(self).next_id() == old(self).next_id(),
            forall|x: NodeId|
                old(self).mru().contains(x) ==> #[trigger] final(self).view(x) == old(self).view(x),
    {
        let ghost s = self.shape();
        assert(s.is_leaf(node1) && s.is_leaf(node2));
        swap(&mut self.workspaces[0].tree, node1, node2);
        let ghost t1 = self.workspaces[0].tree;
        let ghost g = t1.shape();
        proof {
            s.lemma_local(node1);
            s.lemma_local(node2);
            if s.parent(node1) is Some && s.parent(node2) is Some {
                s.lemma_solid_root();
                if s.parent(node1) == s.parent(node2) {
                    s.lemma_up(node1);
                    s.lemma_flipped(s.parent(node1).unwrap());
                } else {
                    s.lemma_exchange(node1, node2);
                }
            }
            assert(g.id() == s.id());
            assert forall|x: NodeId| #[trigger] g.is_leaf(x) <==> s.is_leaf(x) by {
                if s.contains(x) {
                    s.lemma_local(x);
                }
                let w = crate::shape::swap_id(x, node1, node2);
                if s.contains(w) {
                    s.lemma_local(w);
                }
            }
        }
        proof {
            let t0 = old(self).home().tree();
            assert forall|x: NodeId| #[trigger] g.is_leaf(x) implies t1.content(x).workspace
                == 0 by {
                assert(s.is_leaf(x));
                assert(t1.state(x) == t0.state(x));
            }
            assert forall|x: NodeId| #[trigger] self.mru().contains(x) <==> g.is_leaf(x) by {
                assert(old(self).mru().contains(x) <==> s.is_leaf(x));
            }
            assert(self.index() == old(self).index());
            self.lemma_consistent_after(old(self));
        }
        self.configure_views();
        proof {
            self.lemma_views_kept(&t1, old(self));
            assert forall|x: NodeId| old(self).mru().contains(x) implies #[trigger] self.view(x)
                == old(self).view(x) by {
                assert(s.is_leaf(x));
                assert(g.is_leaf(x));
            }
        }
    }

    /// Replaces the surface of the window `id` by what `f` makes of it.
    pub fn update_view<F: FnOnce(V) -> V>(&mut self, id: NodeId, f: F)
        requires
            old(self).wf(),
            old(self).mru().contains(id),
            f.requires((old(self).view(id),)),
        ensures
            final(self).wf(),
            final(self).same_workspaces(old(self)),
            final(self).mru() == old(self).mru(),
            final(self).shape() == old(self).shape(),
            final(self).next_id() == old(self).next_id(),
            f.ensures((old(self).view(id),), final(self).view(id)),
            forall|x: NodeId| x != id ==> #[trigger] final(self).view(x) == old(self).view(x),
            forall|x: NodeId| #[trigger] final(self).rect(x) == old(self).rect(x),
    {
        assert(self.shape().is_leaf(id));
        let wrap = |w: Window<V>| -> (r: Window<V>)
            requires
                f.requires((w.view,)),
            ensures
                f.ensures((w.view,), r.view),
                r.workspace == w.workspace,
            { Window { view: f(w.view), workspace: w.workspace } };
        self.workspaces[0].tree.update_content(id, wrap);
        proof {
            assert forall|x: NodeId| #[trigger] self.mru().contains(x) <==> self.shape().is_leaf(
                x,
            ) by {
                assert(old(self).mru().contains(x) <==> old(self).shape().is_leaf(x));
            }
            assert forall|x: NodeId| #[trigger]
                self.shape().is_leaf(x) implies self.home().tree().content(x).workspace == 0 by {
                assert(old(self).shape().is_leaf(x));
            }
            assert forall|x: NodeId| #[trigger]
                self.shape().contains(x) implies self.home().tree().rect(x) == rect_of(
                self.shape(),
                self.home().rect(),
                x,
            ) by {
                assert(old(self).shape().contains(x));
            }
            assert(self.index() == old(self).index());
            self.lemma_consistent_after(old(self));
        }
    }

    /// This manager has the workspaces that `outputs` ask for, given those of
    /// `before`. The first workspace keeps its output; it has the rectangle
    /// of the first output with that identifier, or its rectangle as before
    /// where none has it. After it come the workspaces of the other outputs,
    /// in their order, each with the rectangle and the identifier of its
    /// output, and no others.
    pub open spec fn reconciled(&self, before: &WindowManager<V>, outputs: Seq<OutputInfo>) -> bool {
        let to = before.home().output_id();
        let rest = unbound(outputs, to);
        &&& self.workspaces().len() == 1 + rest.len()
        &&& self.home().output_id() == to
        &&& self.home().rect() == claimed_rect(outputs, to, before.home().rect())
        &&& forall|i: int|
            1 <= i < self.workspaces().len() ==> {
                &&& (#[trigger] self.workspaces()[i]).rect() == rest[i - 1].rect
                &&& self.workspaces()[i].output_id() == Some(rest[i - 1].id)
            }
    }

    /// Reconciles the workspaces with the outputs that are there now. The
    /// first workspace stays, with its windows and its output; where its
    /// output is among `outputs`, it gets that output's rectangle. Every
    /// other output gets a workspace with its rectangle, in the order of
    /// `outputs`: the one that was bound to it, carried over with its tree
    /// (the last, where several were bound to it; a new one for an output that
    /// is named again), or a new empty one. Workspaces of outputs that are
    /// gone are dropped. Then the windows are laid out anew.
    pub fn update_outputs(&mut self, outputs: Vec<OutputInfo>)
        requires
            old(self).wf(),
            forall|i: int| 0 <= i < outputs.len() ==> (#[trigger] outputs[i]).rect.valid(),
        ensures
            final(self).wf(),
            final(self).mru() == old(self).mru(),
            final(self).shape() == old(self).shape(),
            final(self).next_id() == old(self).next_id(),
            forall|x: NodeId|
                old(self).mru().contains(x) ==> #[trigger] final(self).view(x) == old(self).view(x),
            final(self).reconciled(old(self), outputs@),
            forall|i: int|
                #![trigger final(self).workspaces()[i]]
                1 <= i < final(self).workspaces().len() && first_of_its_output(
                    unbound(outputs@, old(self).home().output_id()),
                    i - 1,
                ) && last_bound(
                    old(self).workspaces(),
                    unbound(outputs@, old(self).home().output_id())[i - 1].id,
                ) > 0 ==> final(self).workspaces()[i].tree() == old(self).workspaces()[last_bound(
                    old(self).workspaces(),
                    unbound(outputs@, old(self).home().output_id())[i - 1].id,
                )].tree(),
    {
        let ghost all = self.workspaces();
        let ghost to = self.home().output_id();
        let ghost k = first_bound(outputs@, to);
        let ghost rest = unbound(outputs@, to);
        let mut old_workspaces: Vec<Workspace<V>> = Vec::new();
        core::mem::swap(&mut old_workspaces, &mut self.workspaces);
        let mut bound: HashMap<OutputId, Workspace<V>> = HashMap::new();
        proof {
            lemma_first_bound(outputs@, to);
            assert(all.take(all.len() as int) == all);
            assert forall|id: OutputId| last_bound(all, id) < all.len() by {
                lemma_last_bound(all, id);
            }
        }
        while old_workspaces.len() > 1
            invariant
                1 <= old_workspaces.len() <= all.len(),
                old_workspaces@ == all.take(old_workspaces.len() as int),
                forall|id: OutputId| #[trigger]
                    bound@.contains_key(id) <==> last_bound(all, id) >= old_workspaces.len(),
                forall|id: OutputId|
                    bound@.contains_key(id) ==> #[trigger] bound@[id] == all[last_bound(all, id)],
            decreases old_workspaces.len(),
        {
            let ghost n = old_workspaces.len() as int;
            let ghost before = bound@;
            if let Some(ws) = old_workspaces.pop() {
                assert(ws == all[n - 1]);
                if let Some(id) = ws.output_id {
                    if !bound.contains_key(&id) {
                        bound.insert(id, ws);
                    }
                }
            }
            proof {
                assert(old_workspaces@ == all.take(n - 1));
                assert forall|id: OutputId| #[trigger]
                    bound@.contains_key(id) <==> last_bound(all, id) >= n - 1 by {
                    lemma_last_bound(all, id);
                    assert(before.contains_key(id) <==> last_bound(all, id) >= n);
                }
                assert forall|id: OutputId| bound@.contains_key(id) implies #[trigger] bound@[id]
                    == all[last_bound(all, id)] by {
                    lemma_last_bound(all, id);
                    assert(before.contains_key(id) <==> last_bound(all, id) >= n);
                }
            }
        }
        let mut overflow = old_workspaces.remove(0);
        assert(overflow == all[0]);
        let ghost t0 = overflow.tree;
        let mut fresh: Vec<Workspace<V>> = Vec::new();
        let mut claimed = false;
        let mut i: usize = 0;
        while i < outputs.len()
            invariant
                i <= outputs.len(),
                all == old(self).workspaces(),
                old(self).wf(),
                forall|j: int| 0 <= j < outputs.len() ==> (#[trigger] outputs[j]).rect.valid(),
                to == overflow.output_id(),
                k == first_bound(outputs@, to),
                0 <= k <= outputs.len(),
                k < outputs.len() ==> Some(outputs[k].id) == to,
                forall|j: int| 0 <= j < k ==> Some(#[trigger] outputs[j].id) != to,
                rest == unbound(outputs@, to),
                claimed <==> k < i,
                overflow.tree() == t0,
                overflow.wf(),
                overflow.root() == old(self).home().root(),
                overflow.rect() == if claimed {
                    outputs[k].rect
                } else {
                    old(self).home().rect()
                },
                fresh.len() == if claimed {
                    i - 1
                } else {
                    i as int
                },
                forall|id: OutputId| #[trigger]
                    bound@.contains_key(id) <==> last_bound(all, id) > 0 && forall|m: int|
                        0 <= m < fresh.len() ==> rest[m].id != id,
                forall|id: OutputId|
                    bound@.contains_key(id) ==> #[trigger] bound@[id] == all[last_bound(all, id)],
                forall|j: int|
                    0 <= j < fresh.len() ==> {
                        &&& (#[trigger] fresh[j]).wf()
                        &&& fresh[j].tree().shape() == (Shape::Placeholder { id: 0 })
                        &&& fresh[j].rect() == rest[j].rect
                        &&& fresh[j].output_id() == Some(rest[j].id)
                        &&& first_of_its_output(rest, j) && last_bound(all, rest[j].id) > 0
                            ==> fresh[j].tree() == all[last_bound(all, rest[j].id)].tree()
                    },
            decreases outputs.len() - i,
        {
            let o_id = outputs[i].id;
            let o_rect = outputs[i].rect;
            let takes = !claimed && match overflow.output_id {
                Some(home_id) => home_id == o_id,
                None => false,
            };
            if takes {
                overflow.rect = o_rect;
                claimed = true;
            } else {
                let ghost before = bound@;
                let ghost n = fresh.len() as int;
                proof {
                    lemma_last_bound(all, o_id);
                    assert(rest[n] == outputs[i as int]);
                }
                let ws = match bound.remove(&o_id) {
                    Some(found) => {
                        let mut reused = found;
                        reused.rect = o_rect;
                        reused
                    },
                    None => Workspace {
                        tree: create_root(),
                        root: 0,
                        rect: o_rect,
                        output_id: Some(o_id),
                    },
                };
                proof {
                    assert(before.contains_key(o_id) ==> all[last_bound(all, o_id)].wf());
                    assert(first_of_its_output(rest, n) && last_bound(all, o_id) > 0
                        ==> before.contains_key(o_id));
                    assert forall|id: OutputId| #[trigger]
                        bound@.contains_key(id) <==> last_bound(all, id) > 0 && forall|m: int|
                            0 <= m < n + 1 ==> rest[m].id != id by {
                        assert(before.contains_key(id) <==> last_bound(all, id) > 0 && forall|
                            m: int,
                        |
                            0 <= m < n ==> rest[m].id != id);
                        if id != o_id && before.contains_key(id) {
                            assert forall|m: int| 0 <= m < n + 1 implies rest[m].id != id by {}
                        }
                    }
                }
                fresh.push(ws);
            }
            i += 1;
        }
        let mut workspaces: Vec<Workspace<V>> = Vec::new();
        workspaces.push(overflow);
        workspaces.append(&mut fresh);
        self.workspaces = workspaces;
        proof {
            assert(self.home().tree() == t0);
            assert forall|j: int| 1 <= j < self.workspaces().len() implies {
                &&& (#[trigger] self.workspaces()[j]).wf()
                &&& self.workspaces()[j].tree().shape() == (Shape::Placeholder { id: 0 })
                &&& self.workspaces()[j].rect() == rest[j - 1].rect
                &&& self.workspaces()[j].output_id() == Some(rest[j - 1].id)
                &&& first_of_its_output(rest, j - 1) && last_bound(all, rest[j - 1].id) > 0
                    ==> self.workspaces()[j].tree() == all[last_bound(all, rest[j - 1].id)].tree()
            } by {}
            self.lemma_rebuilt(old(self));
        }
        let ghost mid = *self;
        self.configure_views();
        proof {
            self.lemma_views_kept(&t0, old(self));
            assert forall|x: NodeId| old(self).mru().contains(x) implies #[trigger] self.view(x)
                == old(self).view(x) by {
                assert(old(self).shape().is_leaf(x));
            }
            assert forall|j: int| 1 <= j < self.workspaces().len() implies {
                &&& (#[trigger] self.workspaces()[j]).rect() == rest[j - 1].rect
                &&& self.workspaces()[j].output_id() == Some(rest[j - 1].id)
                &&& first_of_its_output(rest, j - 1) && last_bound(all, rest[j - 1].id) > 0
                    ==> self.workspaces()[j].tree() == all[last_bound(all, rest[j - 1].id)].tree()
            } by {
                assert(self.workspaces()[j] == mid.workspaces()[j]);
            }
        }
    }

    /// After reconciliation every output has its workspace, at the position
    /// `place`, with its rectangle; where the outputs have distinct
    /// identifiers, no other workspace is bound to it.
    pub proof fn lemma_workspace_of_output(
        &self,
        before: &WindowManager<V>,
        outputs: Seq<OutputInfo>,
        i: int,
    )
        requires
            self.reconciled(before, outputs),
            0 <= i < outputs.len(),
        ensures
            0 <= place(outputs, before.home().output_id(), i) < self.workspaces().len(),
            self.workspaces()[place(outputs, before.home().output_id(), i)].output_id() == Some(
                outputs[i].id,
            ),
            self.workspaces()[place(outputs, before.home().output_id(), i)].rect()
                == outputs[i].rect,
            distinct_outputs(outputs) ==> forall|j: int|
                0 <= j < self.workspaces().len() && j != place(
                    outputs,
                    before.home().output_id(),
                    i,
                ) ==> (#[trigger] self.workspaces()[j]).output_id() != Some(outputs[i].id),
    {
        let to = before.home().output_id();
        let k = first_bound(outputs, to);
        let rest = unbound(outputs, to);
        let p = place(outputs, to, i);
        lemma_first_bound(outputs, to);
        if p > 0 {
            assert(rest[p - 1] == outputs[i]);
            assert(self.workspaces()[p].output_id() == Some(rest[p - 1].id));
        }
        if distinct_outputs(outputs) {
            assert forall|j: int| 0 <= j < self.workspaces().len() && j != p implies (
            #[trigger] self.workspaces()[j]).output_id() != Some(outputs[i].id) by {
                if j == 0 {
                    if to == Some(outputs[i].id) {
                        assert(k <= i);
                        assert(outputs[k].id == outputs[i].id);
                    }
                } else {
                    let m = if j - 1 < k {
                        j - 1
                    } else {
                        j
                    };
                    assert(rest[j - 1] == outputs[m]);
                    assert(self.workspaces()[j].output_id() == Some(rest[j - 1].id));
                    if m < i {
                        assert(outputs[m].id != outputs[i].id);
                    } else if i < m {
                        assert(outputs[i].id != outputs[m].id);
                    }
                }
            }
        }
    }

    /// Lets the first workspace, where its output is not among `outputs`,
    /// take the place of the workspace that follows it: the first workspace
    /// gets the rectangle and the output of that workspace, which gives way,
    /// and the windows are laid out anew. Says whether it did so.
    pub fn claim_output(&mut self, outputs: &Vec<OutputInfo>) -> (claimed: bool)
        requires
            old(self).wf(),
        ensures
            final(self).wf(),
            final(self).mru() == old(self).mru(),
            final(self).shape() == old(self).shape(),
            final(self).next_id() == old(self).next_id(),
            forall|x: NodeId|
                old(self).mru().contains(x) ==> #[trigger] final(self).view(x) == old(self).view(x),
            claimed == (!reported(outputs@, old(self).home().output_id()) && old(
                self,
            ).workspaces().len() > 1),
            claimed ==> {
                &&& final(self).workspaces().len() == old(self).workspaces().len() - 1
                &&& final(self).home().rect() == old(self).workspaces()[1].rect()
                &&& final(self).home().output_id() == old(self).workspaces()[1].output_id()
                &&& forall|j: int|
                    #![trigger final(self).workspaces()[j]]
                    1 <= j < final(self).workspaces().len() ==> final(self).workspaces()[j] == old(
                        self,
                    ).workspaces()[j + 1]
            },
            !claimed ==> {
                &&& final(self).workspaces() == old(self).workspaces()
                &&& final(self).index() == old(self).index()
            },
    {
        let present = is_reported(outputs, self.workspaces[0].output_id);
        if present || self.workspaces.len() < 2 {
            return false;
        }
        let ghost t0 = self.home().tree();
        let taken = self.workspaces.remove(1);
        self.workspaces[0].rect = taken.rect;
        self.workspaces[0].output_id = taken.output_id;
        proof {
            assert(taken == old(self).workspaces()[1]);
            assert(taken.wf());
            assert forall|j: int| 0 <= j < self.workspaces().len() implies (
            #[trigger] self.workspaces()[j]).wf() by {
                if j > 0 {
                    assert(self.workspaces()[j] == old(self).workspaces()[j + 1]);
                }
            }
            assert forall|j: int| 1 <= j < self.workspaces().len() implies (
            #[trigger] self.workspaces()[j]).tree().shape() == (Shape::Placeholder { id: 0 }) by {
                assert(self.workspaces()[j] == old(self).workspaces()[j + 1]);
            }
            self.lemma_rebuilt(old(self));
        }
        let ghost mid = *self;
        self.configure_views();
        proof {
            self.lemma_views_kept(&t0, old(self));
            assert forall|x: NodeId| old(self).mru().contains(x) implies #[trigger] self.view(x)
                == old(self).view(x) by {
                assert(old(self).shape().is_leaf(x));
            }
            assert forall|j: int| 1 <= j < self.workspaces().len() implies #[trigger] self.workspaces()[j]
                == old(self).workspaces()[j + 1] by {
                assert(self.workspaces()[j] == mid.workspaces()[j]);
                assert(mid.workspaces()[j] == old(self).workspaces()[j + 1]);
            }
        }
        true
    }

    /// A window keeps its surface through a change of the tree of windows
    /// that keeps the state of its leaf, and through the layout that follows.
    pub proof fn lemma_views_kept(&self, changed: &Tree<Window<V>>, before: &WindowManager<V>)
        requires
            forall|x: NodeId|
                before.shape().is_leaf(x) && changed.shape().is_leaf(x) ==> #[trigger] changed.state(
                    x,
                ) == before.home().tree().state(x),
            forall|x: NodeId|
                changed.shape().contains(x) ==> #[trigger] self.home().tree().state(x)
                    == changed.state(x),
        ensures
            forall|x: NodeId|
                before.shape().is_leaf(x) && changed.shape().is_leaf(x) ==> #[trigger] self.view(x)
                    == before.view(x),
    {
        assert forall|x: NodeId|
            before.shape().is_leaf(x) && changed.shape().is_leaf(x) implies #[trigger] self.view(x)
            == before.view(x) by {
            assert(changed.state(x) == before.home().tree().state(x));
            assert(self.home().tree().state(x) == changed.state(x));
        }
    }

    /// A manager is consistent after a change in the first workspace that
    /// leaves the other workspaces as they were, where the first workspace is
    /// well-formed and the order of use and the index name exactly its
    /// leaves.
    pub proof fn lemma_consistent_after(&self, before: &WindowManager<V>)
        requires
            before.consistent(),
            self.same_workspaces(before),
            self.home().wf(),
            self.mru().no_duplicates(),
            forall|x: NodeId| #[trigger] self.mru().contains(x) <==> self.shape().is_leaf(x),
            forall|x: NodeId| #[trigger] self.index().contains_key(x) <==> self.mru().contains(x),
            forall|x: NodeId| self.index().contains_key(x) ==> #[trigger] self.index()[x] == 0,
            forall|x: NodeId| #[trigger]
                self.shape().is_leaf(x) ==> self.home().tree().content(x).workspace == 0,
        ensures
            self.consistent(),
    {
        assert forall|i: int| 0 <= i < self.workspaces().len() implies (
        #[trigger] self.workspaces()[i]).wf() by {
            if i > 0 {
                assert(self.workspaces()[i] == before.workspaces()[i]);
            }
        }
        assert forall|i: int| 1 <= i < self.workspaces().len() implies (
        #[trigger] self.workspaces()[i]).tree().shape() == (Shape::Placeholder { id: 0 }) by {
            assert(self.workspaces()[i] == before.workspaces()[i]);
        }
    }

    /// A consistent manager stays consistent where the tree of windows, the
    /// order of use and the index stay, every workspace is well-formed, and
    /// all but the first are empty.
    pub proof fn lemma_rebuilt(&self, before: &WindowManager<V>)
        requires
            before.consistent(),
            self.workspaces().len() >= 1,
            self.home().tree() == before.home().tree(),
            self.mru() == before.mru(),
            self.index() == before.index(),
            forall|j: int| 0 <= j < self.workspaces().len() ==> (#[trigger] self.workspaces()[j]).wf(),
            forall|j: int|
                1 <= j < self.workspaces().len() ==> (#[trigger] self.workspaces()[j]).tree().shape()
                    == (Shape::Placeholder { id: 0 }),
        ensures
            self.consistent(),
    {
        assert forall|x: NodeId| #[trigger] self.mru().contains(x) <==> self.shape().is_leaf(
            x,
        ) by {
            assert(before.mru().contains(x) <==> before.shape().is_leaf(x));
        }
        assert forall|x: NodeId| #[trigger]
            self.shape().is_leaf(x) implies self.home().tree().content(x).workspace == 0 by {
            assert(before.shape().is_leaf(x));
        }
    }

    /// Hands every window its assigned rectangle: the surface of each window
    /// is replaced by what `configure` makes of it and the rectangle. The
    /// windows are visited in the order of their last use.
    pub fn configure_with<F: Fn(V, Rect) -> V>(&mut self, configure: F)
        requires
            old(self).wf(),
            forall|v: V, r: Rect| configure.requires((v, r)),
        ensures
            final(self).wf(),
            final(self).same_workspaces(old(self)),
            final(self).mru() == old(self).mru(),
            final(self).shape() == old(self).shape(),
            final(self).next_id() == old(self).next_id(),
            forall|x: NodeId| #[trigger] final(self).rect(x) == old(self).rect(x),
            forall|x: NodeId|
                old(self).mru().contains(x) ==> configure.ensures(
                    (old(self).view(x), old(self).rect(x)),
                    #[trigger] final(self).view(x),
                ),
    {
        let n = self.mru_view.len();
        let mut i: usize = 0;
        while i < n
            invariant
                self.wf(),
                self.same_workspaces(old(self)),
                self.mru() == old(self).mru(),
                self.shape() == old(self).shape(),
                self.next_id() == old(self).next_id(),
                n == self.mru().len(),
                i <= n,
                forall|v: V, r: Rect| configure.requires((v, r)),
                forall|x: NodeId| #[trigger] self.rect(x) == old(self).rect(x),
                forall|j: int|
                    0 <= j < i ==> configure.ensures(
                        (old(self).view(self.mru()[j]), old(self).rect(self.mru()[j])),
                        #[trigger] self.view(self.mru()[j]),
                    ),
                forall|j: int|
                    i <= j < n ==> #[trigger] self.view(self.mru()[j]) == old(self).view(
                        self.mru()[j],
                    ),
            decreases n - i,
        {
            let id = self.mru_view[i];
            assert(self.mru().contains(id));
            assert(self.shape().is_leaf(id));
            let rect = match self.workspaces[0].tree.get(id) {
                Some(node) => node.rect,
                None => Rect::default(),
            };
            let ghost before = *self;
            let apply = |v: V| -> (r: V)
                requires
                    configure.requires((v, rect)),
                ensures
                    configure.ensures((v, rect), r),
                { configure(v, rect) };
            self.update_view(id, apply);
            proof {
                assert(before.view(id) == old(self).view(id)) by {
                    assert(before.mru()[i as int] == id);
                }
                assert(rect == before.rect(id));
                assert(before.rect(id) == old(self).rect(id));
                assert(configure.ensures((old(self).view(id), old(self).rect(id)), self.view(id)));
                assert forall|j: int| 0 <= j <= i implies configure.ensures(
                    (old(self).view(self.mru()[j]), old(self).rect(self.mru()[j])),
                    #[trigger] self.view(self.mru()[j]),
                ) by {
                    if j < i {
                        assert(self.mru()[j] != id);
                        assert(self.view(self.mru()[j]) == before.view(self.mru()[j]));
                        assert(configure.ensures(
                            (old(self).view(self.mru()[j]), old(self).rect(self.mru()[j])),
                            before.view(before.mru()[j]),
                        ));
                    }
                }
                assert forall|j: int| i < j < n implies #[trigger] self.view(self.mru()[j]) == old(
                    self,
                ).view(self.mru()[j]) by {
                    assert(self.mru()[j] != id);
                    assert(self.view(self.mru()[j]) == before.view(self.mru()[j]));
                }
            }
            i += 1;
        }
        proof {
            assert forall|x: NodeId| old(self).mru().contains(x) implies configure.ensures(
                (old(self).view(x), old(self).rect(x)),
                #[trigger] self.view(x),
            ) by {
                let j = choose|j: int| 0 <= j < n && self.mru()[j] == x;
                assert(self.mru()[j] == x);
            }
        }
    }

    /// Laying out changes rectangles only, and makes a consistent manager
    /// well-formed.
    pub proof fn lemma_configured_wf(&self, before: &WindowManager<V>)
        requires
            self.configured(before),
        ensures
            self.shape() == before.shape(),
            self.next_id() == before.next_id(),
            forall|x: NodeId|
                before.shape().contains(x) ==> #[trigger] self.home().tree().state(x)
                    == before.home().tree().state(x),
            before.consistent() ==> self.wf(),
    {
        let t0 = before.home().tree();
        let t1 = self.home().tree();
        assert forall|x: NodeId| t0.shape().contains(x) implies #[trigger] t1.state(x) == t0.state(
            x,
        ) by {
            assert(t0.nodes().contains_key(x));
            assert(t1.nodes()[x] == crate::tree::with_rect(t0.nodes()[x], t1.nodes()[x].rect));
        }
        if before.consistent() {
            assert forall|x: NodeId| #[trigger]
                self.shape().is_leaf(x) implies self.home().tree().content(x).workspace == 0 by {
                assert(before.shape().is_leaf(x));
                assert(t1.state(x) == t0.state(x));
            }
            assert forall|x: NodeId| #[trigger] self.mru().contains(x) <==> self.shape().is_leaf(
                x,
            ) by {
                assert(before.mru().contains(x) <==> before.shape().is_leaf(x));
            }
            self.lemma_consistent_after(before);
        }
    }

    /// Laying out twice leaves every rectangle as the first layout made it.
    pub proof fn lemma_configure_idempotent(
        &self,
        once: &WindowManager<V>,
        before: &WindowManager<V>,
    )
        requires
            once.configured(before),
            self.configured(once),
        ensures
            forall|x: NodeId| once.shape().contains(x) ==> #[trigger] self.rect(x) == once.rect(x),
    {
        assert forall|x: NodeId| once.shape().contains(x) implies #[trigger] self.rect(x)
            == once.rect(x) by {
            assert(self.shape().contains(x));
        }
    }

    /// The rectangles of the windows tile the rectangle of the first
    /// workspace. No gap: each of its points lies in the rectangle of a
    /// window. No overlap: it lies in the rectangle of no other window.
    pub proof fn lemma_windows_tile(&self, px: int, py: int)
        requires
            self.wf(),
            self.mru().len() > 0,
            self.home().rect().covers(px, py),
        ensures
            self.mru().contains(leaf_at(self.shape(), self.home().rect(), px, py)),
            self.rect(leaf_at(self.shape(), self.home().rect(), px, py)).covers(px, py),
            forall|x: NodeId|
                self.mru().contains(x) && (#[trigger] self.rect(x)).covers(px, py) ==> x == leaf_at(
                    self.shape(),
                    self.home().rect(),
                    px,
                    py,
                ),
    {
        let s = self.shape();
        let r = self.home().rect();
        assert(self.mru().contains(self.mru()[0]));
        assert(s.is_leaf(self.mru()[0]));
        s.lemma_local(self.mru()[0]);
        assert(s.solid());
        lemma_layout_covers(s, r, px, py);
        let l = leaf_at(s, r, px, py);
        assert(s.contains(l));
        assert forall|x: NodeId|
            self.mru().contains(x) && (#[trigger] self.rect(x)).covers(px, py) implies x == l by {
            assert(s.is_leaf(x));
            assert(s.contains(x));
            lemma_layout_disjoint(s, r, x, px, py);
        }
    }

    /// No two windows overlap: a point in the rectangle of one window lies in
    /// the rectangle of no other.
    pub proof fn lemma_windows_disjoint(&self, x: NodeId, y: NodeId, px: int, py: int)
        requires
            self.wf(),
            self.mru().contains(x),
            self.mru().contains(y),
            x != y,
            self.rect(x).covers(px, py),
        ensures
            !self.rect(y).covers(px, py),
    {
        self.lemma_windows_inside(x, px, py);
        self.lemma_windows_tile(px, py);
    }

    /// Identifiers are unique over all workspaces, but for 0, which names the
    /// root of every empty tree: a node with another identifier lives in the
    /// first workspace and in no other.
    pub proof fn lemma_ids_in_one_workspace(&self, i: int, x: NodeId)
        requires
            self.wf(),
            1 <= i < self.workspaces().len(),
            self.workspaces()[i].tree().shape().contains(x),
        ensures
            x == 0,
    {
    }

    /// Nothing outside: each point in the rectangle of a window lies in the
    /// rectangle of the first workspace.
    pub proof fn lemma_windows_inside(&self, x: NodeId, px: int, py: int)
        requires
            self.wf(),
            self.mru().contains(x),
            self.rect(x).covers(px, py),
        ensures
            self.home().rect().covers(px, py),
    {
        let s = self.shape();
        assert(s.is_leaf(x));
        assert(s.contains(x));
        s.lemma_local(x);
        lemma_layout_disjoint(s, self.home().rect(), x, px, py);
    }

    /// Where no split on the axis of `direction` lies above the most recently
    /// used window, `neighbor` finds no window.
    pub proof fn lemma_no_neighbor(&self, direction: Direction)
        requires
            self.wf(),
            self.mru().len() > 0 ==> !self.shape().crossed_above(
                self.mru().last(),
                direction.axis(),
            ),
        ensures
            self.neighbor_of(direction) is None,
    {
        if self.mru().len() > 0 {
            let active = self.mru().last();
            self.shape().lemma_no_candidate(active, direction);
            let good = |id: NodeId|
                self.shape().neighbors(self.mru().last(), direction).contains(id) && beside(
                    self.rect(id),
                    self.rect(self.mru().last()),
                    direction,
                );
            lemma_last_where_none(self.mru(), good);
        }
    }
}

} // verus!
