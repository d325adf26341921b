use vendiwm::chrome::tab_info;
use vendiwm::workspaces::{Stack, Workspace};

fn desk(ws: &[u32]) -> Workspace {
    let mut d = Workspace::new(1, "DP-1".to_string());
    for w in ws {
        d.insert_tiled(*w);
    }
    d
}

#[test]
fn dropping_a_tile_on_another_groups_them() {
    let mut d = desk(&[1, 2]);
    let gone = d.join_group(1, 2, &vec![1, 2]);
    assert_eq!(gone, Some(1));
    assert_eq!(d.tree.windows(), vec![2]);
    assert_eq!(d.stacks.len(), 1);
    assert_eq!(d.stacks[0].members, vec![1, 2]);
    assert_eq!(d.stacks[0].active, 1);
    assert_eq!(d.tree.focused(), Some(2));
    assert!(d.contains(1));
}

#[test]
fn joining_an_existing_group() {
    let mut d = desk(&[1, 2, 3]);
    d.join_group(1, 2, &vec![1, 2, 3]);
    let gone = d.join_group(2, 3, &vec![1, 2, 3]);
    assert_eq!(gone, Some(2));
    assert_eq!(d.stacks[0].members, vec![1, 2, 3]);
    assert_eq!(d.stacks[0].active, 2);
    assert_eq!(d.tree.windows(), vec![3]);
}

#[test]
fn grouping_a_window_with_itself_does_nothing() {
    let mut d = desk(&[1, 2]);
    assert_eq!(d.join_group(1, 1, &vec![1, 2]), None);
    assert_eq!(d.tree.windows(), vec![1, 2]);
    assert!(d.stacks.is_empty());
}

#[test]
fn activating_a_tab_swaps_the_tile_occupant() {
    let mut d = desk(&[1, 2]);
    d.join_group(1, 2, &vec![1, 2]);
    let gone = d.activate_tab(1);
    assert_eq!(gone, Some(2));
    assert_eq!(d.tree.windows(), vec![1]);
    assert_eq!(d.stacks[0].active, 0);
    assert_eq!(d.tree.focused(), Some(1));
    // activating the shown tab again changes nothing
    assert_eq!(d.activate_tab(1), None);
    assert_eq!(d.activate_tab(9), None);
}

#[test]
fn detaching_the_shown_tab_hands_the_tile_on() {
    let mut d = desk(&[1, 2]);
    d.join_group(1, 2, &vec![1, 2]);
    assert!(d.detach_group_member(2, &vec![1, 2]));
    assert_eq!(d.tree.windows(), vec![1]);
    // a one-member group is just a window
    assert!(d.stacks.is_empty());
    assert!(!d.detach_group_member(2, &vec![1, 2]));
}

#[test]
fn detaching_a_hidden_tab_keeps_the_group() {
    let mut d = desk(&[1, 2, 3]);
    d.join_group(1, 2, &vec![1, 2, 3]);
    d.join_group(2, 3, &vec![1, 2, 3]);
    assert!(d.detach_group_member(1, &vec![1, 2, 3]));
    assert_eq!(d.stacks[0].members, vec![2, 3]);
    assert_eq!(d.stacks[0].active, 1);
    assert_eq!(d.tree.windows(), vec![3]);
}

#[test]
fn tab_strip_info() {
    let s = Stack { members: vec![4, 5], active: 1 };
    let t = tab_info(&s, vec!["a".to_string(), "b".to_string()], Some(0), true);
    assert_eq!(t.active, 1);
    assert_eq!(t.titles, vec!["a".to_string(), "b".to_string()]);
    assert_eq!(t.hover, Some(0));
    assert!(t.focused);
}
