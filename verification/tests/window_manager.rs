use compositor::tree::Direction;
use compositor::types::{id_gen, Error, NodeId, Rect};
use compositor::mru::remove_id;
use compositor::outputs::{new_output_id, OutputInfo};
use compositor::window_manager::WindowManager;

#[derive(Debug, PartialEq)]
struct Surface {
    id: NodeId,
    resized: u32,
}

fn surface(id: NodeId) -> Surface {
    Surface { id, resized: 0 }
}

fn rect_of(wm: &WindowManager<Surface>, id: NodeId) -> Rect {
    let found = wm.find_view(id).unwrap();
    *found.content_and_rect().1
}

fn order(wm: &WindowManager<Surface>) -> Vec<NodeId> {
    wm.views_for_render(0).iter().map(|v| v.content_and_rect().0.id).collect()
}

fn three_windows() -> (WindowManager<Surface>, NodeId, NodeId, NodeId) {
    let mut wm = WindowManager::new();
    let a = wm.add_view(surface);
    let b = wm.add_view(surface);
    let c = wm.add_view(surface);
    (wm, a, b, c)
}

#[test]
fn new_manager_is_empty() {
    let wm: WindowManager<Surface> = WindowManager::new();
    assert_eq!(wm.active_node(), None);
    assert_eq!(wm.workspace_count(), 1);
    assert_eq!(wm.workspace_rect(0), Rect { x: 0, y: 0, w: 800, h: 600 });
    assert_eq!(wm.workspace_output(0), None);
    assert!(wm.views_for_render(0).is_empty());
    assert!(wm.views_for_finding().is_empty());
    assert!(wm.find_view(0).is_none());
    assert!(wm.can_add_view());
}

#[test]
fn first_window_fills_the_workspace() {
    let mut wm = WindowManager::new();
    let a = wm.add_view(surface);
    assert_eq!(a, 0);
    assert_eq!(wm.active_node(), Some(a));
    assert_eq!(rect_of(&wm, a), Rect { x: 0, y: 0, w: 800, h: 600 });
    assert_eq!(wm.find_view(a).unwrap().content_and_rect().0.id, a);
}

#[test]
fn windows_split_along_the_longer_side() {
    let (wm, a, b, c) = three_windows();
    assert_eq!(rect_of(&wm, a), Rect { x: 0, y: 0, w: 400, h: 600 });
    assert_eq!(rect_of(&wm, b), Rect { x: 400, y: 0, w: 400, h: 300 });
    assert_eq!(rect_of(&wm, c), Rect { x: 400, y: 300, w: 400, h: 300 });
    assert_eq!(order(&wm), vec![a, b, c]);
}

#[test]
fn the_factory_gets_the_identifier_of_the_leaf() {
    let (wm, a, b, c) = three_windows();
    for id in [a, b, c] {
        assert_eq!(wm.find_view(id).unwrap().content_and_rect().0.id, id);
    }
    assert_ne!(a, b);
    assert_ne!(b, c);
    assert_ne!(a, c);
}

#[test]
fn odd_extent_is_divided_without_gap() {
    let mut wm = WindowManager::new();
    wm.update_outputs(vec![]);
    let a = wm.add_view(surface);
    let b = wm.add_view(surface);
    let c = wm.add_view(surface);
    let d = wm.add_view(surface);
    // 800 x 600 -> a | (b / (c | d)); c and d share 400 x 300 along the width
    assert_eq!(rect_of(&wm, c), Rect { x: 400, y: 300, w: 200, h: 300 });
    assert_eq!(rect_of(&wm, d), Rect { x: 600, y: 300, w: 200, h: 300 });
    let e = wm.add_view(surface);
    // d is 200 x 300: split along the height
    assert_eq!(rect_of(&wm, d), Rect { x: 600, y: 300, w: 200, h: 150 });
    assert_eq!(rect_of(&wm, e), Rect { x: 600, y: 450, w: 200, h: 150 });
    let f = wm.add_view(surface);
    // e is 200 x 150: split along the width
    let g = wm.add_view(surface);
    // f is 100 x 150: split along the height, 75 and 75
    let h = wm.add_view(surface);
    // g is 100 x 75: split along the width, 50 and 50
    let i = wm.add_view(surface);
    // h is 50 x 75: split along the height, 37 and 38
    assert_eq!(rect_of(&wm, h), Rect { x: 750, y: 525, w: 50, h: 37 });
    assert_eq!(rect_of(&wm, i), Rect { x: 750, y: 562, w: 50, h: 38 });
    let total: u64 = [a, b, c, d, e, f, g, h, i]
        .iter()
        .map(|id| {
            let r = rect_of(&wm, *id);
            r.w as u64 * r.h as u64
        })
        .sum();
    assert_eq!(total, 800 * 600);
}

#[test]
fn window_rectangles_tile_the_workspace() {
    let (wm, a, b, c) = three_windows();
    let rects: Vec<Rect> = [a, b, c].iter().map(|id| rect_of(&wm, *id)).collect();
    for px in (0..800).step_by(37) {
        for py in (0..600).step_by(29) {
            let hits = rects
                .iter()
                .filter(|r| {
                    r.x <= px
                        && (px as i64) < r.x as i64 + r.w as i64
                        && r.y <= py
                        && (py as i64) < r.y as i64 + r.h as i64
                })
                .count();
            assert_eq!(hits, 1);
        }
    }
}

#[test]
fn configure_views_twice_gives_the_same_rectangles() {
    let (mut wm, a, b, c) = three_windows();
    wm.configure_views();
    let once: Vec<Rect> = [a, b, c].iter().map(|id| rect_of(&wm, *id)).collect();
    wm.configure_views();
    let twice: Vec<Rect> = [a, b, c].iter().map(|id| rect_of(&wm, *id)).collect();
    assert_eq!(once, twice);
    assert_eq!(once[0], Rect { x: 0, y: 0, w: 400, h: 600 });
}

#[test]
fn touch_node_moves_to_most_recent() {
    let (mut wm, a, b, c) = three_windows();
    wm.touch_node(a);
    assert_eq!(order(&wm), vec![b, c, a]);
    assert_eq!(wm.active_node(), Some(a));
    wm.touch_node(a);
    assert_eq!(order(&wm), vec![b, c, a]);
    wm.touch_node(c);
    assert_eq!(order(&wm), vec![b, a, c]);
    assert_eq!(wm.views_for_render(0).len(), 3);
}

#[test]
fn views_for_finding_is_most_recent_first() {
    let (mut wm, a, b, c) = three_windows();
    wm.touch_node(b);
    let found: Vec<NodeId> =
        wm.views_for_finding().iter().map(|v| v.content_and_rect().0.id).collect();
    assert_eq!(found, vec![b, c, a]);
}

#[test]
fn remove_node_takes_one_window_out() {
    let (mut wm, a, b, c) = three_windows();
    assert_eq!(wm.remove_node(b), Ok(()));
    assert_eq!(order(&wm), vec![a, c]);
    assert!(wm.find_view(b).is_none());
    assert_eq!(rect_of(&wm, a), Rect { x: 0, y: 0, w: 400, h: 600 });
    assert_eq!(rect_of(&wm, c), Rect { x: 400, y: 0, w: 400, h: 600 });
    assert_eq!(wm.remove_node(a), Ok(()));
    assert_eq!(rect_of(&wm, c), Rect { x: 0, y: 0, w: 800, h: 600 });
    assert_eq!(wm.remove_node(c), Ok(()));
    assert_eq!(wm.active_node(), None);
    let again = wm.add_view(surface);
    assert_eq!(again, 0);
    assert_eq!(rect_of(&wm, again), Rect { x: 0, y: 0, w: 800, h: 600 });
}

#[test]
fn remove_node_refuses_unknown_window() {
    let (mut wm, a, b, c) = three_windows();
    assert_eq!(wm.remove_node(77), Err(Error::NoWindow(77)));
    assert_eq!(order(&wm), vec![a, b, c]);
    assert_eq!(wm.remove_node(b), Ok(()));
    assert_eq!(wm.remove_node(b), Err(Error::NoWindow(b)));
}

#[test]
fn neighbor_follows_the_split_boundaries() {
    let (wm, a, b, c) = three_windows();
    // a | (b / c), c is active
    assert_eq!(wm.neighbor(Direction::Up), Some(b));
    assert_eq!(wm.neighbor(Direction::Left), Some(a));
    assert_eq!(wm.neighbor(Direction::Right), None);
    assert_eq!(wm.neighbor(Direction::Down), None);
}

#[test]
fn neighbor_is_none_without_a_split_on_the_axis() {
    let mut wm = WindowManager::new();
    assert_eq!(wm.neighbor(Direction::Up), None);
    let _a = wm.add_view(surface);
    for d in [Direction::Up, Direction::Right, Direction::Down, Direction::Left] {
        assert_eq!(wm.neighbor(d), None);
    }
    let _b = wm.add_view(surface);
    // a | b: no horizontal split above b
    assert_eq!(wm.neighbor(Direction::Up), None);
    assert_eq!(wm.neighbor(Direction::Down), None);
}

#[test]
fn neighbor_prefers_the_most_recently_used() {
    let (mut wm, a, b, c) = three_windows();
    wm.touch_node(a);
    // from a, looking right: b and c both lie beside a; c was used last
    assert_eq!(wm.neighbor(Direction::Right), Some(c));
    wm.touch_node(b);
    wm.touch_node(a);
    assert_eq!(wm.neighbor(Direction::Right), Some(b));
}

#[test]
fn swap_views_exchanges_places() {
    let (mut wm, a, b, c) = three_windows();
    wm.swap_views(a, c);
    assert_eq!(rect_of(&wm, c), Rect { x: 0, y: 0, w: 400, h: 600 });
    assert_eq!(rect_of(&wm, a), Rect { x: 400, y: 300, w: 400, h: 300 });
    assert_eq!(rect_of(&wm, b), Rect { x: 400, y: 0, w: 400, h: 300 });
    assert_eq!(order(&wm), vec![a, b, c]);
    wm.swap_views(a, b);
    assert_eq!(rect_of(&wm, a), Rect { x: 400, y: 0, w: 400, h: 300 });
    assert_eq!(rect_of(&wm, b), Rect { x: 400, y: 300, w: 400, h: 300 });
}

#[test]
fn swap_of_the_only_window_changes_nothing() {
    let mut wm = WindowManager::new();
    let a = wm.add_view(surface);
    wm.swap_views(a, a);
    assert_eq!(rect_of(&wm, a), Rect { x: 0, y: 0, w: 800, h: 600 });
}

#[test]
fn update_view_replaces_the_surface() {
    let (mut wm, a, b, _c) = three_windows();
    wm.update_view(b, |s| Surface { id: s.id, resized: s.resized + 1 });
    assert_eq!(wm.find_view(b).unwrap().content_and_rect().0.resized, 1);
    assert_eq!(wm.find_view(a).unwrap().content_and_rect().0.resized, 0);
    assert_eq!(rect_of(&wm, b), Rect { x: 400, y: 0, w: 400, h: 300 });
}

fn output(id: u8, w: u32, h: u32) -> OutputInfo {
    OutputInfo { id, rect: Rect { x: 0, y: 0, w, h } }
}

fn workspaces(wm: &WindowManager<Surface>) -> Vec<(Option<u8>, u32, u32)> {
    (0..wm.workspace_count())
        .map(|i| (wm.workspace_output(i), wm.workspace_rect(i).w, wm.workspace_rect(i).h))
        .collect()
}

#[test]
fn update_outputs_gives_a_new_output_a_workspace_of_its_own() {
    let mut wm = WindowManager::new();
    let a = wm.add_view(surface);
    wm.update_outputs(vec![output(1, 1920, 1080)]);
    assert_eq!(workspaces(&wm), vec![(None, 800, 600), (Some(1), 1920, 1080)]);
    assert_eq!(order(&wm), vec![a]);
    assert_eq!(rect_of(&wm, a), Rect { x: 0, y: 0, w: 800, h: 600 });
}

#[test]
fn update_outputs_keeps_the_first_workspace() {
    let (mut wm, a, b, c) = three_windows();
    wm.update_outputs(vec![
        OutputInfo { id: 1, rect: Rect { x: 0, y: 0, w: 1920, h: 1080 } },
        OutputInfo { id: 2, rect: Rect { x: 1920, y: 0, w: 1280, h: 1024 } },
    ]);
    assert_eq!(wm.workspace_count(), 3);
    assert_eq!(wm.workspace_output(0), None);
    assert_eq!(wm.workspace_rect(0), Rect { x: 0, y: 0, w: 800, h: 600 });
    assert_eq!(wm.workspace_output(1), Some(1));
    assert_eq!(wm.workspace_rect(1), Rect { x: 0, y: 0, w: 1920, h: 1080 });
    assert_eq!(wm.workspace_output(2), Some(2));
    assert_eq!(wm.workspace_rect(2), Rect { x: 1920, y: 0, w: 1280, h: 1024 });
    assert_eq!(order(&wm), vec![a, b, c]);
    assert_eq!(rect_of(&wm, a), Rect { x: 0, y: 0, w: 400, h: 600 });

    wm.update_outputs(vec![output(2, 640, 480)]);
    assert_eq!(workspaces(&wm), vec![(None, 800, 600), (Some(2), 640, 480)]);

    wm.update_outputs(vec![]);
    assert_eq!(workspaces(&wm), vec![(None, 800, 600)]);
    assert_eq!(order(&wm), vec![a, b, c]);
    assert_eq!(rect_of(&wm, a), Rect { x: 0, y: 0, w: 400, h: 600 });
    assert_eq!(rect_of(&wm, c), Rect { x: 400, y: 300, w: 400, h: 300 });
}

#[test]
fn update_outputs_gives_each_output_a_workspace() {
    let mut wm: WindowManager<Surface> = WindowManager::new();
    wm.update_outputs(vec![output(5, 10, 20), output(5, 30, 40), output(7, 50, 60)]);
    assert_eq!(
        workspaces(&wm),
        vec![(None, 800, 600), (Some(5), 10, 20), (Some(5), 30, 40), (Some(7), 50, 60)]
    );
    // known outputs in another order, with new geometry
    wm.update_outputs(vec![output(7, 51, 61), output(9, 1, 1), output(5, 31, 41)]);
    assert_eq!(
        workspaces(&wm),
        vec![(None, 800, 600), (Some(7), 51, 61), (Some(9), 1, 1), (Some(5), 31, 41)]
    );
}

#[test]
fn claim_output_binds_the_first_workspace_to_the_first_output() {
    let mut wm = WindowManager::new();
    let outputs = vec![output(1, 1920, 1080), output(2, 1280, 1024)];
    wm.update_outputs(outputs.clone());
    assert!(wm.claim_output(&outputs));
    assert_eq!(workspaces(&wm), vec![(Some(1), 1920, 1080), (Some(2), 1280, 1024)]);
    let a = wm.add_view(surface);
    assert_eq!(rect_of(&wm, a), Rect { x: 0, y: 0, w: 1920, h: 1080 });
    let b = wm.add_view(surface);
    assert_eq!(rect_of(&wm, a), Rect { x: 0, y: 0, w: 960, h: 1080 });
    assert_eq!(rect_of(&wm, b), Rect { x: 960, y: 0, w: 960, h: 1080 });
    // its output is there: nothing to claim
    assert!(!wm.claim_output(&outputs));
    assert_eq!(workspaces(&wm), vec![(Some(1), 1920, 1080), (Some(2), 1280, 1024)]);
}

#[test]
fn update_outputs_updates_the_first_workspace_where_its_output_is_reported() {
    let mut wm = WindowManager::new();
    let first = vec![output(1, 1920, 1080)];
    wm.update_outputs(first.clone());
    wm.claim_output(&first);
    let a = wm.add_view(surface);
    let b = wm.add_view(surface);
    // the outputs in another order, the first with new geometry
    wm.update_outputs(vec![output(2, 1280, 1024), output(1, 1000, 500)]);
    assert_eq!(workspaces(&wm), vec![(Some(1), 1000, 500), (Some(2), 1280, 1024)]);
    assert_eq!(order(&wm), vec![a, b]);
    assert_eq!(rect_of(&wm, a), Rect { x: 0, y: 0, w: 500, h: 500 });
    assert_eq!(rect_of(&wm, b), Rect { x: 500, y: 0, w: 500, h: 500 });
    // its output named twice: the second gets a workspace of its own
    wm.update_outputs(vec![output(1, 800, 400), output(1, 10, 10)]);
    assert_eq!(workspaces(&wm), vec![(Some(1), 800, 400), (Some(1), 10, 10)]);
}

#[test]
fn the_first_workspace_outlives_its_output() {
    let mut wm = WindowManager::new();
    let first = vec![output(1, 1920, 1080)];
    wm.update_outputs(first.clone());
    wm.claim_output(&first);
    let a = wm.add_view(surface);
    // output 1 is gone, output 2 is there
    let second = vec![output(2, 640, 480)];
    wm.update_outputs(second.clone());
    assert_eq!(workspaces(&wm), vec![(Some(1), 1920, 1080), (Some(2), 640, 480)]);
    assert_eq!(rect_of(&wm, a), Rect { x: 0, y: 0, w: 1920, h: 1080 });
    assert!(wm.claim_output(&second));
    assert_eq!(workspaces(&wm), vec![(Some(2), 640, 480)]);
    assert_eq!(order(&wm), vec![a]);
    assert_eq!(rect_of(&wm, a), Rect { x: 0, y: 0, w: 640, h: 480 });
    // no output is left: the windows stay where they are
    wm.update_outputs(vec![]);
    assert!(!wm.claim_output(&vec![]));
    assert_eq!(workspaces(&wm), vec![(Some(2), 640, 480)]);
    assert_eq!(rect_of(&wm, a), Rect { x: 0, y: 0, w: 640, h: 480 });
}

#[test]
fn a_new_window_has_positive_extents_where_its_target_has() {
    let mut wm = WindowManager::new();
    let outputs = vec![output(1, 1, 1)];
    wm.update_outputs(outputs.clone());
    wm.claim_output(&outputs);
    let a = wm.add_view(surface);
    assert_eq!(rect_of(&wm, a), Rect { x: 0, y: 0, w: 1, h: 1 });
    let b = wm.add_view(surface);
    assert_eq!(rect_of(&wm, a), Rect { x: 0, y: 0, w: 0, h: 1 });
    assert_eq!(rect_of(&wm, b), Rect { x: 0, y: 0, w: 1, h: 1 });
    let c = wm.add_view(surface);
    assert_eq!(rect_of(&wm, b), Rect { x: 0, y: 0, w: 0, h: 1 });
    assert_eq!(rect_of(&wm, c), Rect { x: 0, y: 0, w: 1, h: 1 });
    // a has no width left, so a window added to it has none either
    wm.touch_node(a);
    let d = wm.add_view(surface);
    assert_eq!(rect_of(&wm, d).w, 0);
    assert_eq!(rect_of(&wm, d).h, 1);
}

#[test]
fn remove_id_takes_the_last_occurrence() {
    let mut ids: Vec<NodeId> = vec![4, 9, 4, 7];
    remove_id(&mut ids, 4);
    assert_eq!(ids, vec![4, 9, 7]);
    remove_id(&mut ids, 7);
    assert_eq!(ids, vec![4, 9]);
    remove_id(&mut ids, 4);
    assert_eq!(ids, vec![9]);
    remove_id(&mut ids, 9);
    assert!(ids.is_empty());
}

#[test]
fn id_gen_counts_up() {
    let mut next: NodeId = 1;
    assert_eq!(id_gen(&mut next), 1);
    assert_eq!(id_gen(&mut next), 2);
    assert_eq!(next, 3);
}

#[test]
fn rect_validity() {
    assert!(Rect { x: 0, y: 0, w: 800, h: 600 }.is_valid());
    assert!(Rect { x: -5, y: -5, w: 0, h: 0 }.is_valid());
    assert!(Rect { x: i32::MAX, y: 0, w: 0, h: 0 }.is_valid());
    assert!(!Rect { x: i32::MAX, y: 0, w: 1, h: 0 }.is_valid());
    assert!(!Rect { x: 0, y: 1, w: 0, h: i32::MAX as u32 }.is_valid());
    assert!(Rect { x: i32::MIN, y: 0, w: u32::MAX, h: 0 }.is_valid());
    assert_eq!(Rect::default(), Rect { x: 0, y: 0, w: 0, h: 0 });
}

#[test]
fn new_output_id_is_the_smallest_free_one() {
    assert_eq!(new_output_id(&vec![]), Some(1));
    assert_eq!(new_output_id(&vec![0]), Some(1));
    assert_eq!(new_output_id(&vec![1, 2, 4]), Some(3));
    assert_eq!(new_output_id(&vec![3, 1, 2]), Some(4));
    let all: Vec<u8> = (1..255).collect();
    assert_eq!(new_output_id(&all), None);
    let most: Vec<u8> = (1..254).collect();
    assert_eq!(new_output_id(&most), Some(254));
    let with_255: Vec<u8> = (1..=255).filter(|x| *x != 254).collect();
    assert_eq!(new_output_id(&with_255), Some(254));
}

#[test]
fn touching_edges_count_as_beside() {
    let mut wm = WindowManager::new();
    let a = wm.add_view(surface);
    let b = wm.add_view(surface);
    wm.touch_node(a);
    let c = wm.add_view(surface);
    wm.touch_node(b);
    let d = wm.add_view(surface);
    // left column: a above c; right column: b above d
    assert_eq!(rect_of(&wm, a), Rect { x: 0, y: 0, w: 400, h: 300 });
    assert_eq!(rect_of(&wm, c), Rect { x: 0, y: 300, w: 400, h: 300 });
    assert_eq!(rect_of(&wm, b), Rect { x: 400, y: 0, w: 400, h: 300 });
    assert_eq!(rect_of(&wm, d), Rect { x: 400, y: 300, w: 400, h: 300 });
    wm.touch_node(b);
    wm.touch_node(c);
    // from c, looking right: d lies beside c, and b touches c at a corner
    assert_eq!(wm.neighbor(Direction::Right), Some(b));
    wm.touch_node(d);
    wm.touch_node(c);
    assert_eq!(wm.neighbor(Direction::Right), Some(d));
    assert_eq!(wm.neighbor(Direction::Up), Some(a));
    assert_eq!(wm.neighbor(Direction::Down), None);
    assert_eq!(wm.neighbor(Direction::Left), None);
}

#[test]
fn configure_with_hands_each_window_its_rectangle() {
    let (mut wm, a, b, c) = three_windows();
    wm.configure_with(|s, rect| Surface { id: s.id, resized: rect.w * 1000 + rect.h });
    assert_eq!(wm.find_view(a).unwrap().content_and_rect().0.resized, 400_600);
    assert_eq!(wm.find_view(b).unwrap().content_and_rect().0.resized, 400_300);
    assert_eq!(wm.find_view(c).unwrap().content_and_rect().0.resized, 400_300);
    assert_eq!(order(&wm), vec![a, b, c]);
    assert_eq!(rect_of(&wm, a), Rect { x: 0, y: 0, w: 400, h: 600 });
}

#[test]
fn is_reported_finds_the_output() {
    let outputs = vec![output(1, 1, 1), output(3, 1, 1)];
    assert!(compositor::outputs::is_reported(&outputs, Some(3)));
    assert!(compositor::outputs::is_reported(&outputs, Some(1)));
    assert!(!compositor::outputs::is_reported(&outputs, Some(2)));
    assert!(!compositor::outputs::is_reported(&outputs, None));
    assert!(!compositor::outputs::is_reported(&vec![], Some(1)));
}
