use lapce_app::geometry::{
    drop_action, drop_zone, tab_drop_index, DragState, DropAction, DropZone, SplitDirection,
    SplitMoveDirection,
};
use lapce_app::split::{LayoutError, SplitContent, SplitTree};
use lapce_app::tabs::{ChildItem, EditorTabGroup, TabCloseKind, TabEntry};

fn items(group: &EditorTabGroup) -> Vec<ChildItem> {
    group.children.iter().map(|e| e.item).collect()
}

fn group_of(ids: &[u64]) -> EditorTabGroup {
    let mut g = EditorTabGroup::new(7);
    for id in ids {
        g.open(ChildItem::Editor(*id), true);
    }
    g
}

fn weights(tree: &SplitTree, s: usize) -> Vec<u64> {
    tree.children_of(s).iter().map(|c| c.weight).collect()
}

#[test]
fn quadrant_thresholds() {
    assert_eq!(drop_zone(400, 300, 50, 150), DropZone::Left);
    assert_eq!(drop_zone(400, 300, 390, 150), DropZone::Right);
    assert_eq!(drop_zone(400, 300, 200, 10), DropZone::Top);
    assert_eq!(drop_zone(400, 300, 200, 290), DropZone::Bottom);
    assert_eq!(drop_zone(400, 300, 200, 150), DropZone::Middle);
}

#[test]
fn quadrant_boundaries_are_exclusive() {
    assert_eq!(drop_zone(400, 300, 100, 150), DropZone::Middle);
    assert_eq!(drop_zone(400, 300, 300, 150), DropZone::Middle);
    assert_eq!(drop_zone(400, 300, 99, 150), DropZone::Left);
    assert_eq!(drop_zone(400, 300, 301, 150), DropZone::Right);
}

#[test]
fn tab_drop_index_by_half() {
    assert_eq!(tab_drop_index(3, 10, 100), 3);
    assert_eq!(tab_drop_index(3, 50, 100), 4);
    assert_eq!(tab_drop_index(0, 99, 100), 1);
}

#[test]
fn drop_actions_by_zone() {
    assert_eq!(drop_action(DropZone::Top, 0), DropAction::NewSplit(SplitMoveDirection::Up));
    assert_eq!(drop_action(DropZone::Bottom, 0), DropAction::NewSplit(SplitMoveDirection::Down));
    assert_eq!(drop_action(DropZone::Left, 0), DropAction::NewSplit(SplitMoveDirection::Left));
    assert_eq!(drop_action(DropZone::Right, 0), DropAction::NewSplit(SplitMoveDirection::Right));
    assert_eq!(drop_action(DropZone::Middle, 2), DropAction::IntoGroup(3));
    assert_eq!(SplitMoveDirection::Up.direction(), SplitDirection::Horizontal);
    assert_eq!(SplitMoveDirection::Right.direction(), SplitDirection::Vertical);
    assert!(SplitMoveDirection::Left.before());
    assert!(!SplitMoveDirection::Down.before());
}

#[test]
fn drag_state_resets() {
    let mut d = DragState::Tab { index: 2, group: 5 };
    assert!(d.is_active());
    d.end();
    assert_eq!(d, DragState::Idle);
    assert!(!d.is_active());
}

#[test]
fn reorder_to_own_position_keeps_order() {
    for i in 0..4usize {
        for to in [i, i + 1] {
            let mut g = group_of(&[1, 2, 3, 4]);
            let before = items(&g);
            g.reorder(i, to);
            assert_eq!(items(&g), before);
            assert_eq!(g.active, i);
        }
    }
}

#[test]
fn reorder_moves_tabs() {
    let mut g = group_of(&[1, 2, 3, 4]);
    g.reorder(0, 3);
    assert_eq!(
        items(&g),
        vec![ChildItem::Editor(2), ChildItem::Editor(3), ChildItem::Editor(1), ChildItem::Editor(4)]
    );
    assert_eq!(g.active, 2);
    g.reorder(3, 0);
    assert_eq!(
        items(&g),
        vec![ChildItem::Editor(4), ChildItem::Editor(2), ChildItem::Editor(3), ChildItem::Editor(1)]
    );
    assert_eq!(g.active, 0);
}

#[test]
fn close_other_leaves_only_reference() {
    let mut g = group_of(&[1, 2, 3, 4, 5]);
    assert!(g.close_by_kind(ChildItem::Editor(3), TabCloseKind::CloseOther));
    assert_eq!(items(&g), vec![ChildItem::Editor(3)]);
    assert_eq!(g.active, 0);
}

#[test]
fn close_to_left_and_right_split_at_reference() {
    let mut left = group_of(&[1, 2, 3, 4, 5]);
    assert!(left.close_by_kind(ChildItem::Editor(3), TabCloseKind::CloseToLeft));
    assert_eq!(
        items(&left),
        vec![ChildItem::Editor(3), ChildItem::Editor(4), ChildItem::Editor(5)]
    );
    assert_eq!(left.active, 2);
    let mut right = group_of(&[1, 2, 3, 4, 5]);
    assert!(right.close_by_kind(ChildItem::Editor(3), TabCloseKind::CloseToRight));
    assert_eq!(
        items(&right),
        vec![ChildItem::Editor(1), ChildItem::Editor(2), ChildItem::Editor(3)]
    );
    assert_eq!(right.active, 2);
}

#[test]
fn close_by_kind_unknown_reference_changes_nothing() {
    let mut g = group_of(&[1, 2]);
    assert!(!g.close_by_kind(ChildItem::Settings, TabCloseKind::CloseOther));
    assert_eq!(items(&g), vec![ChildItem::Editor(1), ChildItem::Editor(2)]);
}

#[test]
fn open_makes_active_and_preview_replaces() {
    let mut g = EditorTabGroup::new(1);
    g.open(ChildItem::Editor(1), false);
    assert_eq!(g.active, 0);
    // a second preview replaces the unpinned one
    g.open(ChildItem::Editor(2), false);
    assert_eq!(items(&g), vec![ChildItem::Editor(2)]);
    // pinning it keeps it against the next preview
    g.confirm(0);
    assert!(g.children[0].confirmed);
    g.open(ChildItem::Keymap, false);
    assert_eq!(items(&g), vec![ChildItem::Editor(2), ChildItem::Keymap]);
    assert_eq!(g.active, 1);
    // opening an open item activates it
    g.open(ChildItem::Editor(2), true);
    assert_eq!(g.active, 0);
    assert_eq!(g.len(), 2);
    assert_eq!(g.find(ChildItem::Keymap), Some(1));
}

#[test]
fn remove_at_clamps_active() {
    let mut g = group_of(&[1, 2, 3]);
    assert_eq!(g.active, 2);
    let e = g.remove_at(2);
    assert_eq!(e, TabEntry { item: ChildItem::Editor(3), confirmed: true });
    assert_eq!(g.active, 1);
}

#[test]
fn split_beside_in_same_direction_takes_equal_share() {
    let mut t = SplitTree::new();
    let g1 = t.split_group(0, SplitDirection::Vertical, false);
    assert_eq!(g1, 1);
    assert_eq!(weights(&t, 0), vec![1, 1]);
    let g2 = t.split_group(1, SplitDirection::Vertical, false);
    assert_eq!(g2, 2);
    assert_eq!(weights(&t, 0), vec![1, 1, 1]);
    let contents: Vec<SplitContent> = t.children_of(0).iter().map(|c| c.content).collect();
    assert_eq!(
        contents,
        vec![SplitContent::TabGroup(0), SplitContent::TabGroup(1), SplitContent::TabGroup(2)]
    );
}

#[test]
fn split_before_inserts_first() {
    let mut t = SplitTree::new();
    t.split_group(0, SplitDirection::Vertical, true);
    let contents: Vec<SplitContent> = t.children_of(0).iter().map(|c| c.content).collect();
    assert_eq!(contents, vec![SplitContent::TabGroup(1), SplitContent::TabGroup(0)]);
}

#[test]
fn split_across_nests_a_node() {
    let mut t = SplitTree::new();
    let g = t.split_group(0, SplitDirection::Horizontal, false);
    assert_eq!(g, 1);
    assert_eq!(t.children_of(0)[0].content, SplitContent::Split(1));
    assert_eq!(weights(&t, 1), vec![1, 1]);
    assert_eq!(t.parent_of_group(0), 1);
    assert_eq!(t.parent_of_group(1), 1);
}

#[test]
fn shares_stay_proportional_when_a_sibling_leaves() {
    let mut t = SplitTree::new();
    t.split_group(0, SplitDirection::Vertical, false);
    t.split_group(1, SplitDirection::Vertical, false);
    t.resize(0, 1, 50, &vec![100, 100, 200]).unwrap();
    assert_eq!(weights(&t, 0), vec![150, 50, 200]);
    let gone = t.remove_group(1).unwrap();
    assert_eq!(gone, vec![SplitContent::TabGroup(1)]);
    assert_eq!(weights(&t, 0), vec![150, 200]);
    assert!(!t.is_group_alive(1));
}

#[test]
fn resize_trades_pixels_across_the_border() {
    let mut t = SplitTree::new();
    t.split_group(0, SplitDirection::Vertical, false);
    t.resize(0, 1, -30, &vec![100, 300]).unwrap();
    assert_eq!(weights(&t, 0), vec![70, 330]);
    assert_eq!(t.resize(0, 1, 70, &vec![70, 330]), Ok(()));
    assert_eq!(weights(&t, 0), vec![140, 260]);
}

#[test]
fn resize_past_a_pane_is_refused() {
    let mut t = SplitTree::new();
    t.split_group(0, SplitDirection::Vertical, false);
    assert_eq!(t.resize(0, 1, 300, &vec![100, 300]), Err(LayoutError::OutOfRange));
    assert_eq!(t.resize(0, 1, -100, &vec![100, 300]), Err(LayoutError::OutOfRange));
    assert_eq!(weights(&t, 0), vec![1, 1]);
    assert_eq!(
        t.resize(0, 1, 0, &vec![u64::MAX, 1]),
        Err(LayoutError::WeightOverflow)
    );
}

#[test]
fn removing_from_a_pair_splices_the_node() {
    let mut t = SplitTree::new();
    t.split_group(0, SplitDirection::Horizontal, false);
    assert_eq!(t.children_of(0)[0].content, SplitContent::Split(1));
    let gone = t.remove_group(1).unwrap();
    assert_eq!(gone, vec![SplitContent::TabGroup(1), SplitContent::Split(1)]);
    assert_eq!(t.children_of(0).len(), 1);
    assert_eq!(t.children_of(0)[0].content, SplitContent::TabGroup(0));
    assert_eq!(t.children_of(0)[0].weight, 1);
    assert_eq!(t.parent_of_group(0), 0);
}

#[test]
fn last_group_cannot_be_removed() {
    let mut t = SplitTree::new();
    assert_eq!(t.remove_group(0), Err(LayoutError::LastGroup));
    assert!(t.is_group_alive(0));
}

#[test]
fn weights_too_large_to_join_nest_instead() {
    let mut t = SplitTree::new();
    t.split_group(0, SplitDirection::Vertical, false);
    t.resize(0, 1, 0, &vec![u64::MAX / 2, u64::MAX / 2]).unwrap();
    let g = t.split_group(0, SplitDirection::Vertical, false);
    // the root keeps its two slots and weights; group 0's slot now holds a
    // nested node with the two groups at equal shares
    assert_eq!(weights(&t, 0), vec![u64::MAX / 2, u64::MAX / 2]);
    assert_eq!(t.children_of(0)[0].content, SplitContent::Split(1));
    let nested: Vec<SplitContent> = t.children_of(1).iter().map(|c| c.content).collect();
    assert_eq!(nested, vec![SplitContent::TabGroup(0), SplitContent::TabGroup(g)]);
    assert_eq!(weights(&t, 1), vec![1, 1]);
}

#[test]
fn moving_the_last_tab_out_removes_its_group() {
    let mut t = SplitTree::new();
    let g1 = t.split_group(0, SplitDirection::Vertical, false);
    t.open_in_group(0, ChildItem::Editor(1), true);
    t.open_in_group(g1, ChildItem::Editor(2), true);
    t.open_in_group(g1, ChildItem::Editor(3), true);
    let gone = t.move_tab(0, 0, g1, 1).unwrap();
    assert_eq!(gone, vec![SplitContent::TabGroup(0)]);
    assert!(!t.is_group_alive(0));
    assert_eq!(
        tab_items(&t, g1),
        vec![ChildItem::Editor(2), ChildItem::Editor(1), ChildItem::Editor(3)]
    );
    assert_eq!(t.group(g1).active, 1);
    assert_eq!(t.children_of(0).len(), 1);
    assert_eq!(t.children_of(0)[0].content, SplitContent::TabGroup(g1));
}

#[test]
fn moving_a_tab_into_a_group_that_has_it_is_refused() {
    let mut t = SplitTree::new();
    let g1 = t.split_group(0, SplitDirection::Vertical, false);
    t.open_in_group(0, ChildItem::Settings, true);
    t.open_in_group(g1, ChildItem::Settings, true);
    assert_eq!(t.move_tab(0, 0, g1, 0), Err(LayoutError::AlreadyOpen));
    assert_eq!(tab_items(&t, 0), vec![ChildItem::Settings]);
}

#[test]
fn moving_a_tab_to_a_new_split_below() {
    let mut t = SplitTree::new();
    t.open_in_group(0, ChildItem::Editor(1), true);
    t.open_in_group(0, ChildItem::Editor(2), true);
    let (g, gone) = t.move_tab_to_new_split(0, 1, 0, SplitMoveDirection::Down).unwrap();
    assert_eq!(g, 1);
    assert!(gone.is_empty());
    assert_eq!(tab_items(&t, 0), vec![ChildItem::Editor(1)]);
    assert_eq!(tab_items(&t, g), vec![ChildItem::Editor(2)]);
    // the root runs vertically, so the two groups are nested in a new
    // horizontal node, the moved tab below
    assert_eq!(t.children_of(0)[0].content, SplitContent::Split(1));
    let nested: Vec<SplitContent> = t.children_of(1).iter().map(|c| c.content).collect();
    assert_eq!(nested, vec![SplitContent::TabGroup(0), SplitContent::TabGroup(1)]);
}

#[test]
fn moving_a_sole_tab_beside_itself_is_refused() {
    let mut t = SplitTree::new();
    t.open_in_group(0, ChildItem::Editor(1), true);
    assert_eq!(
        t.move_tab_to_new_split(0, 0, 0, SplitMoveDirection::Left),
        Err(LayoutError::SoleTab)
    );
}

#[test]
fn moving_a_sole_tab_to_a_new_split_elsewhere_drops_its_group() {
    let mut t = SplitTree::new();
    let g1 = t.split_group(0, SplitDirection::Vertical, false);
    t.open_in_group(0, ChildItem::Editor(1), true);
    t.open_in_group(g1, ChildItem::Editor(2), true);
    let (g, gone) = t.move_tab_to_new_split(0, 0, g1, SplitMoveDirection::Left).unwrap();
    assert_eq!(gone, vec![SplitContent::TabGroup(0)]);
    assert_eq!(tab_items(&t, g), vec![ChildItem::Editor(1)]);
    let top: Vec<SplitContent> = t.children_of(0).iter().map(|c| c.content).collect();
    assert_eq!(top, vec![SplitContent::TabGroup(g), SplitContent::TabGroup(g1)]);
    // the emptied group leaves first, so the new group halves the root
    assert_eq!(weights(&t, 0), vec![1, 1]);
}

fn check_shares(t: &SplitTree, s: usize) {
    let w = weights(t, s);
    assert!(!w.is_empty());
    assert!(w.iter().all(|x| *x > 0));
    let total: u64 = w.iter().sum();
    let sum: f64 = w.iter().map(|x| *x as f64 / total as f64).sum();
    assert!((sum - 1.0).abs() < 1e-9);
}

#[test]
fn ratio_invariant_after_operations() {
    let mut t = SplitTree::new();
    t.open_in_group(0, ChildItem::Editor(1), true);
    t.open_in_group(0, ChildItem::Editor(2), true);
    t.open_in_group(0, ChildItem::Editor(3), true);
    let g1 = t.split_group(0, SplitDirection::Vertical, false);
    let g2 = t.split_group(g1, SplitDirection::Vertical, true);
    check_shares(&t, 0);
    t.resize(0, 2, 40, &vec![300, 300, 300]).unwrap();
    check_shares(&t, 0);
    let (g3, _) = t.move_tab_to_new_split(0, 0, g2, SplitMoveDirection::Up).unwrap();
    check_shares(&t, 0);
    check_shares(&t, t.parent_of_group(g3));
    t.remove_group(g1).unwrap();
    check_shares(&t, 0);
    assert_eq!(weights(&t, 0), vec![300, 340]);
}

#[test]
fn close_in_tree_group() {
    let mut t = SplitTree::new();
    for id in 1..=4u64 {
        t.open_in_group(0, ChildItem::Editor(id), true);
    }
    assert!(t.close_in_group(0, ChildItem::Editor(2), TabCloseKind::CloseToRight));
    assert_eq!(tab_items(&t, 0), vec![ChildItem::Editor(1), ChildItem::Editor(2)]);
    assert_eq!(t.group(0).active, 1);
    assert!(!t.close_in_group(0, ChildItem::Editor(9), TabCloseKind::CloseOther));
    assert!(t.close_in_group(0, ChildItem::Editor(2), TabCloseKind::CloseOther));
    assert_eq!(tab_items(&t, 0), vec![ChildItem::Editor(2)]);
}

#[test]
fn drops_carry_out_the_zone_decision() {
    let mut t = SplitTree::new();
    let g1 = t.split_group(0, SplitDirection::Vertical, false);
    t.open_in_group(0, ChildItem::Editor(1), true);
    t.open_in_group(0, ChildItem::Editor(2), true);
    t.open_in_group(g1, ChildItem::Editor(3), true);
    // a drop in the middle of g1 lands after its active tab
    let zone = drop_zone(400, 300, 200, 150);
    let action = drop_action(zone, t.group(g1).active);
    let (holder, gone) = t.drop_tab(0, 0, g1, action).unwrap();
    assert_eq!(holder, g1);
    assert!(gone.is_empty());
    assert_eq!(tab_items(&t, g1), vec![ChildItem::Editor(3), ChildItem::Editor(1)]);
    // a drop on the right edge of g1 opens a split to its right
    let action = drop_action(drop_zone(400, 300, 390, 150), 0);
    let (holder, gone) = t.drop_tab(0, 0, g1, action).unwrap();
    assert_eq!(gone, vec![SplitContent::TabGroup(0)]);
    assert_eq!(tab_items(&t, holder), vec![ChildItem::Editor(2)]);
    let top: Vec<SplitContent> = t.children_of(0).iter().map(|c| c.content).collect();
    assert_eq!(top, vec![SplitContent::TabGroup(g1), SplitContent::TabGroup(holder)]);
}

#[test]
fn moving_a_sole_tab_follows_removal_then_insertion() {
    // shares [2, 1, 1]: moving the first group's only tab to the right of
    // the second leaves the second, the new group and the third a third each
    let mut t = SplitTree::new();
    let b = t.split_group(0, SplitDirection::Vertical, false);
    let c = t.split_group(b, SplitDirection::Vertical, false);
    t.resize(0, 1, 0, &vec![2, 1, 1]).unwrap();
    t.open_in_group(0, ChildItem::Editor(1), true);
    t.open_in_group(b, ChildItem::Editor(2), true);
    let (g, gone) = t.move_tab_to_new_split(0, 0, b, SplitMoveDirection::Right).unwrap();
    assert_eq!(gone, vec![SplitContent::TabGroup(0)]);
    let top: Vec<SplitContent> = t.children_of(0).iter().map(|x| x.content).collect();
    assert_eq!(
        top,
        vec![SplitContent::TabGroup(b), SplitContent::TabGroup(g), SplitContent::TabGroup(c)]
    );
    let w = weights(&t, 0);
    assert_eq!(w[0], w[1]);
    assert_eq!(w[1], w[2]);
}

fn tab_items(t: &SplitTree, g: usize) -> Vec<ChildItem> {
    items(t.group(g))
}

#[test]
fn joining_scales_weights_when_the_count_does_not_divide_them() {
    let mut t = SplitTree::new();
    t.split_group(0, SplitDirection::Vertical, false);
    t.resize(0, 1, 0, &vec![1, 2]).unwrap();
    let g = t.split_group(0, SplitDirection::Vertical, false);
    // total 3 over 2 slots: the old weights double and the new slot takes 3
    assert_eq!(weights(&t, 0), vec![2, 3, 4]);
    assert_eq!(t.children_of(0)[1].content, SplitContent::TabGroup(g));
}
