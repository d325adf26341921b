use vendiwm::geometry::Rect;
use vendiwm::layout::{Direction, LayoutMode, Tree, RATIO_HALF, RATIO_ONE};

fn tree_of(ws: &[u32]) -> Tree {
    let mut t = Tree::new();
    for w in ws {
        t.insert(*w);
    }
    t
}

#[test]
fn new_tree_is_empty() {
    let t = Tree::new();
    assert!(t.is_empty());
    assert_eq!(t.windows(), Vec::<u32>::new());
    assert_eq!(t.focused(), None);
}

#[test]
fn inserts_follow_the_focused_leaf() {
    let t = tree_of(&[1, 2, 3]);
    assert_eq!(t.windows(), vec![1, 2, 3]);
    assert_eq!(t.focused(), Some(3));
    assert!(t.contains(2));
    assert!(!t.contains(7));
}

#[test]
fn insert_goes_right_after_the_focused_window() {
    let mut t = tree_of(&[1, 2, 3]);
    assert!(t.focus_window(1));
    t.insert(4);
    assert_eq!(t.windows(), vec![1, 4, 2, 3]);
    assert_eq!(t.focused(), Some(4));
}

#[test]
fn focus_cycles_and_wraps() {
    let mut t = tree_of(&[1, 2, 3]);
    t.focus_next();
    assert_eq!(t.focused(), Some(1));
    t.focus_prev();
    assert_eq!(t.focused(), Some(3));
    t.focus_prev();
    assert_eq!(t.focused(), Some(2));
}

#[test]
fn focus_prev_undoes_focus_next() {
    let mut t = tree_of(&[5, 6, 7, 8]);
    assert!(t.focus_window(6));
    t.focus_next();
    t.focus_prev();
    assert_eq!(t.focused(), Some(6));
}

#[test]
fn remove_drops_the_window_and_refocuses() {
    let mut t = tree_of(&[1, 2, 3]);
    t.remove(2);
    assert_eq!(t.windows(), vec![1, 3]);
    assert!(t.focused().is_some());
    t.remove(42);
    assert_eq!(t.windows(), vec![1, 3]);
}

#[test]
fn remove_undoes_insert() {
    let mut t = tree_of(&[1, 2, 3]);
    assert!(t.focus_window(2));
    t.insert(9);
    assert_eq!(t.windows(), vec![1, 2, 9, 3]);
    t.remove(9);
    assert_eq!(t.windows(), vec![1, 2, 3]);
}

#[test]
fn remove_last_window_empties_tree() {
    let mut t = tree_of(&[4]);
    t.remove(4);
    assert!(t.is_empty());
    assert_eq!(t.focused(), None);
}

#[test]
fn swap_twice_restores() {
    let mut t = tree_of(&[1, 2, 3]);
    t.swap_windows(1, 3);
    assert_eq!(t.windows(), vec![3, 2, 1]);
    t.swap_windows(1, 3);
    assert_eq!(t.windows(), vec![1, 2, 3]);
}

#[test]
fn replace_window_keeps_the_slot() {
    let mut t = tree_of(&[1, 2, 3]);
    let vp = Rect::new(0, 0, 900, 600);
    let before = t.layout(vp);
    t.replace_window(2, 8);
    assert_eq!(t.windows(), vec![1, 8, 3]);
    let after = t.layout(vp);
    assert_eq!(before[1].1, after[1].1);
    assert_eq!(after[1].0, 8);
    t.replace_window(8, 2);
    assert_eq!(t.windows(), vec![1, 2, 3]);
}

#[test]
fn prune_dead_keeps_live_windows() {
    let mut t = tree_of(&[1, 2, 3, 4]);
    t.prune_dead(&vec![2, 4]);
    assert_eq!(t.windows(), vec![2, 4]);
}

#[test]
fn two_windows_split_side_by_side() {
    let t = tree_of(&[1, 2]);
    let l = t.layout(Rect::new(0, 0, 1000, 500));
    assert_eq!(l, vec![(1, Rect::new(0, 0, 500, 500)), (2, Rect::new(500, 0, 500, 500))]);
}

#[test]
fn third_window_splits_perpendicular_to_its_parent() {
    let t = tree_of(&[1, 2, 3]);
    let l = t.layout(Rect::new(0, 0, 1000, 500));
    assert_eq!(
        l,
        vec![
            (1, Rect::new(0, 0, 500, 500)),
            (2, Rect::new(500, 0, 500, 250)),
            (3, Rect::new(500, 250, 500, 250)),
        ]
    );
}

#[test]
fn split_override_applies_to_the_next_insert_only() {
    let mut t = tree_of(&[1]);
    t.set_next_split(Some(Direction::Vertical));
    t.insert(2);
    let l = t.layout(Rect::new(0, 0, 1000, 500));
    assert_eq!(l, vec![(1, Rect::new(0, 0, 1000, 250)), (2, Rect::new(0, 250, 1000, 250))]);
    assert_eq!(t.next_split_override, None);
}

#[test]
fn odd_sizes_leave_no_gap() {
    let t = tree_of(&[1, 2]);
    let l = t.layout(Rect::new(10, 20, 1001, 300));
    // 1001 * 0.5 rounds to 501; the second child takes the remaining 500
    assert_eq!(l, vec![(1, Rect::new(10, 20, 501, 300)), (2, Rect::new(511, 20, 500, 300))]);
}

#[test]
fn resize_trades_share_with_the_sibling() {
    let mut t = tree_of(&[1, 2]);
    assert!(t.focus_window(1));
    t.resize_focused(Direction::Horizontal, 400);
    let l = t.layout(Rect::new(0, 0, 1000, 500));
    assert_eq!(l, vec![(1, Rect::new(0, 0, 540, 500)), (2, Rect::new(540, 0, 460, 500))]);
    // along the other axis nothing changes
    t.resize_focused(Direction::Vertical, 400);
    assert_eq!(t.layout(Rect::new(0, 0, 1000, 500)), l);
}

#[test]
fn resize_stops_at_a_tenth() {
    let mut t = tree_of(&[1, 2]);
    assert!(t.focus_window(1));
    t.resize_focused(Direction::Horizontal, -9000);
    let l = t.layout(Rect::new(0, 0, 1000, 500));
    assert_eq!(l[0].1, Rect::new(0, 0, 100, 500));
    assert_eq!(l[1].1, Rect::new(100, 0, 900, 500));
}

#[test]
fn tiles_cover_the_viewport() {
    let t = tree_of(&[1, 2, 3, 4, 5]);
    let vp = Rect::new(3, 7, 1280, 719);
    let l = t.layout(vp);
    let area: i64 = l.iter().map(|(_, r)| r.w as i64 * r.h as i64).sum();
    assert_eq!(area, 1280 * 719);
}

#[test]
fn monocle_gives_everyone_the_viewport() {
    let t = tree_of(&[1, 2, 3]);
    let vp = Rect::new(0, 0, 800, 600);
    let p = t.placements(vp, LayoutMode::Monocle);
    assert_eq!(p, vec![(1, vp), (2, vp), (3, vp)]);
}

#[test]
fn master_stack_layout() {
    let t = tree_of(&[1, 2, 3]);
    let p = t.placements(Rect::new(0, 0, 1000, 601), LayoutMode::Master);
    assert_eq!(
        p,
        vec![
            (1, Rect::new(0, 0, 600, 601)),
            (2, Rect::new(600, 0, 400, 300)),
            (3, Rect::new(600, 300, 400, 301)),
        ]
    );
}

#[test]
fn single_window_master_fills() {
    let t = tree_of(&[1]);
    let vp = Rect::new(0, 0, 1000, 600);
    assert_eq!(t.placements(vp, LayoutMode::Master), vec![(1, vp)]);
}

#[test]
fn dwindle_halves_alternating() {
    let t = tree_of(&[1, 2, 3]);
    let p = t.placements(Rect::new(0, 0, 1000, 600), LayoutMode::Dwindle);
    assert_eq!(
        p,
        vec![
            (1, Rect::new(0, 0, 500, 600)),
            (2, Rect::new(500, 0, 500, 300)),
            (3, Rect::new(500, 300, 500, 300)),
        ]
    );
}

#[test]
fn tiling_placements_match_layout() {
    let t = tree_of(&[1, 2, 3]);
    let vp = Rect::new(0, 0, 1000, 600);
    assert_eq!(t.placements(vp, LayoutMode::Tiling), t.layout(vp));
}

#[test]
fn layout_mode_cycles_through_five() {
    let m = LayoutMode::Tiling;
    assert_eq!(m.next(), LayoutMode::Master);
    assert_eq!(m.next().next(), LayoutMode::Monocle);
    assert_eq!(m.next().next().next(), LayoutMode::Dwindle);
    assert_eq!(m.next().next().next().next(), LayoutMode::Spiral);
    assert_eq!(m.next().next().next().next().next(), LayoutMode::Tiling);
}

#[test]
fn layout_mode_labels() {
    assert_eq!(LayoutMode::Tiling.label(), "Tiling");
    assert_eq!(LayoutMode::Master.label(), "Master-stack");
    assert_eq!(LayoutMode::Monocle.label(), "Monocle");
    assert_eq!(LayoutMode::Dwindle.label(), "Dwindle");
    assert_eq!(LayoutMode::Spiral.label(), "Spiral");
}

#[test]
fn perpendicular_is_an_involution() {
    assert_eq!(Direction::Horizontal.perpendicular(), Direction::Vertical);
    assert_eq!(Direction::Vertical.perpendicular(), Direction::Horizontal);
    assert_eq!(Direction::Vertical.perpendicular().perpendicular(), Direction::Vertical);
}

#[test]
fn ratio_constants() {
    assert_eq!(RATIO_HALF * 2, RATIO_ONE);
}

fn apart(a: &Rect, b: &Rect) -> bool {
    a.x + a.w <= b.x || b.x + b.w <= a.x || a.y + a.h <= b.y || b.y + b.h <= a.y
}

#[test]
fn dwindle_and_spiral_tile_the_viewport() {
    let vp = Rect::new(0, 0, 1001, 603);
    for mode in [LayoutMode::Dwindle, LayoutMode::Spiral] {
        let t = tree_of(&[1, 2, 3, 4, 5]);
        let p = t.placements(vp, mode);
        assert_eq!(p.len(), 5);
        for i in 0..p.len() {
            for j in i + 1..p.len() {
                assert!(apart(&p[i].1, &p[j].1), "{:?} overlaps", mode);
            }
        }
        let area: i64 = p.iter().map(|(_, r)| r.w as i64 * r.h as i64).sum();
        assert_eq!(area, 1001 * 603);
    }
}
