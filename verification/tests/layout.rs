use compositor::layout::{configure_views, halves};
use compositor::tree::{add_leaf, create_root, SplitDir};
use compositor::types::Rect;

#[test]
fn halves_of_an_even_rectangle() {
    let r = Rect { x: 10, y: 20, w: 800, h: 600 };
    assert_eq!(
        halves(r, SplitDir::H),
        (Rect { x: 10, y: 20, w: 800, h: 300 }, Rect { x: 10, y: 320, w: 800, h: 300 })
    );
    assert_eq!(
        halves(r, SplitDir::V),
        (Rect { x: 10, y: 20, w: 400, h: 600 }, Rect { x: 410, y: 20, w: 400, h: 600 })
    );
}

#[test]
fn halves_of_an_odd_rectangle_leave_no_gap() {
    let r = Rect { x: -3, y: 7, w: 5, h: 1 };
    assert_eq!(
        halves(r, SplitDir::H),
        (Rect { x: -3, y: 7, w: 5, h: 0 }, Rect { x: -3, y: 7, w: 5, h: 1 })
    );
    assert_eq!(
        halves(r, SplitDir::V),
        (Rect { x: -3, y: 7, w: 2, h: 1 }, Rect { x: -1, y: 7, w: 3, h: 1 })
    );
}

#[test]
fn halves_at_the_limits() {
    let r = Rect { x: i32::MIN, y: i32::MAX, w: u32::MAX, h: 0 };
    assert!(r.is_valid());
    let (a, b) = halves(r, SplitDir::V);
    assert_eq!(a, Rect { x: i32::MIN, y: i32::MAX, w: 2147483647, h: 0 });
    assert_eq!(b, Rect { x: -1, y: i32::MAX, w: 2147483648, h: 0 });
    assert!(a.is_valid() && b.is_valid());
}

#[test]
fn configure_views_lays_out_a_subtree_only() {
    let mut tree = create_root::<u8>();
    let (first, _) = add_leaf(&mut tree, 0, |_| 0, SplitDir::V);
    let (split, a) = add_leaf(&mut tree, first, |_| 1, SplitDir::H);
    let (root, b) = add_leaf(&mut tree, split, |_| 2, SplitDir::V);
    configure_views(&mut tree, root, Rect { x: 0, y: 0, w: 100, h: 60 });
    assert_eq!(tree.get(root).unwrap().rect, Rect { x: 0, y: 0, w: 100, h: 60 });
    assert_eq!(tree.get(split).unwrap().rect, Rect { x: 0, y: 0, w: 50, h: 60 });
    assert_eq!(tree.get(first).unwrap().rect, Rect { x: 0, y: 0, w: 50, h: 30 });
    assert_eq!(tree.get(a).unwrap().rect, Rect { x: 0, y: 30, w: 50, h: 30 });
    assert_eq!(tree.get(b).unwrap().rect, Rect { x: 50, y: 0, w: 50, h: 60 });
    configure_views(&mut tree, split, Rect { x: 0, y: 0, w: 10, h: 10 });
    assert_eq!(tree.get(first).unwrap().rect, Rect { x: 0, y: 0, w: 10, h: 5 });
    assert_eq!(tree.get(a).unwrap().rect, Rect { x: 0, y: 5, w: 10, h: 5 });
    assert_eq!(tree.get(b).unwrap().rect, Rect { x: 50, y: 0, w: 50, h: 60 });
    assert_eq!(tree.get(root).unwrap().rect, Rect { x: 0, y: 0, w: 100, h: 60 });
}
