//! Sets of selections, and menus.

use gpui_base::editing::{CursorId, CursorSelection, Selections};
use gpui_base::sidebar::{SidebarMenu, SidebarMenuItem};

#[test]
fn cursor_offset_respects_selection_direction() {
    let mut selection = CursorSelection::new(CursorId::new(0), 5, 10);
    assert_eq!(selection.cursor_offset(), 10);
    selection.reversed = true;
    assert_eq!(selection.cursor_offset(), 5);
}

#[test]
fn place_at_collapses_and_resets_direction() {
    let mut selection = CursorSelection::new(CursorId::new(0), 5, 10);
    selection.reversed = true;
    selection.place_at(7, Some((12f32.to_bits(), 3)));
    assert_eq!(selection.start, 7);
    assert_eq!(selection.end, 7);
    assert!(selection.is_collapsed());
    assert!(!selection.reversed);
    assert_eq!(selection.column_anchor, Some((12f32.to_bits(), 3)));
}

#[test]
fn selection_set_is_never_empty() {
    let selections = Selections::new();
    assert_eq!(selections.len(), 1);
    assert_eq!(selections.active().id, CursorId::new(0));

    let default = Selections::default();
    assert_eq!(default.len(), 1);
}

#[test]
fn active_selection_is_mutable() {
    let mut selections = Selections::new();
    selections.active_mut().place_at(4, None);
    assert_eq!(selections.active().cursor_offset(), 4);
}

#[test]
fn overlapping_selections_merge_and_keep_active_identity() {
    let mut selections = Selections::new();
    let active_id = selections.generate_id();
    let overlapping_id = selections.generate_id();
    let separate_id = selections.generate_id();

    selections.replace_all(vec![
        CursorSelection::new(active_id, 0, 10),
        CursorSelection::new(overlapping_id, 5, 15),
        CursorSelection::new(separate_id, 20, 30),
    ]);
    selections.merge_overlapping();

    assert_eq!(selections.len(), 2);
    assert_eq!(selections.active().id, active_id);
    assert_eq!(
        (selections.active().start, selections.active().end),
        (0, 15)
    );
    let ranges: Vec<_> = selections
        .as_slice()
        .iter()
        .map(|selection| (selection.start, selection.end))
        .collect();
    assert!(ranges.contains(&(0, 15)));
    assert!(ranges.contains(&(20, 30)));
}

#[test]
fn merging_keeps_active_selection_direction() {
    let mut selections = Selections::new();
    let active_id = selections.generate_id();
    let other_id = selections.generate_id();
    let mut active = CursorSelection::new(active_id, 5, 15);
    active.reversed = true;
    let other = CursorSelection::new(other_id, 0, 10);
    selections.replace_all(vec![active, other]);

    selections.merge_overlapping();

    assert_eq!(selections.active().id, active_id);
    assert!(selections.active().reversed);
}

#[test]
fn merged_selections_are_apart_and_select_the_same() {
    let mut selections = Selections::new();
    let given = [(8, 9), (0, 3), (3, 5), (20, 22), (1, 2)];
    let mut all = Vec::new();
    for (start, end) in given {
        let id = selections.generate_id();
        all.push(CursorSelection::new(id, start, end));
    }
    selections.replace_all(all);
    selections.merge_overlapping();
    let mut ranges: Vec<_> = selections
        .as_slice()
        .iter()
        .map(|selection| (selection.start, selection.end))
        .collect();
    assert_eq!(ranges[0], (8, 9));
    ranges.sort();
    assert_eq!(ranges, vec![(0, 5), (8, 9), (20, 22)]);
    for offset in 0..25 {
        let before = given.iter().any(|(start, end)| *start <= offset && offset < *end);
        let after = selections
            .as_slice()
            .iter()
            .any(|selection| selection.contains(offset));
        assert_eq!(before, after);
    }
}

#[test]
fn equal_selections_merge_and_keep_their_column() {
    let mut selections = Selections::new();
    let mut first = CursorSelection::new(selections.generate_id(), 4, 4);
    first.column_anchor = Some((7, 2));
    let mut second = CursorSelection::new(selections.generate_id(), 4, 4);
    second.column_anchor = Some((9, 5));
    selections.replace_all(vec![first, second]);
    selections.merge_overlapping();
    assert!(selections.is_single());
    assert_eq!(selections.active().column_anchor, Some((7, 2)));
}

#[test]
fn an_empty_list_does_not_replace_the_selections() {
    let mut selections = Selections::new();
    selections.add(CursorSelection::from(2..6));
    selections.replace_all(vec![]);
    assert_eq!(selections.len(), 2);
    selections.remove_all_but_active();
    assert!(selections.is_single());
    assert_eq!(selections.active().start, 0);
    let mut selection = CursorSelection::from(2..6);
    assert_eq!(selection.len(), 4);
    assert_eq!(std::ops::Range::from(selection), 2..6);
    selection.clear();
    assert!(selection.is_empty());
}

#[test]
fn collapsed_icon_item_uses_label_as_tooltip() {
    let item = SidebarMenuItem::new("Projects")
        .icon("folder")
        .collapsed(true);

    assert_eq!(item.collapsed_tooltip().as_deref(), Some("Projects"));
}

#[test]
fn expanded_or_iconless_item_has_no_collapsed_tooltip() {
    let expanded = SidebarMenuItem::new("Projects").icon("folder");
    let iconless = SidebarMenuItem::new("Projects").collapsed(true);

    assert!(expanded.collapsed_tooltip().is_none());
    assert!(iconless.collapsed_tooltip().is_none());
}

#[test]
fn clicks_open_or_toggle_a_submenu() {
    let submenu = || SidebarMenuItem::new("More").children(vec![SidebarMenuItem::new("Sent")]);
    assert!(submenu().is_submenu());
    assert_eq!(submenu().click(Some(true)), Some(true));
    assert_eq!(submenu().click(Some(false)), Some(false));
    let opening = submenu().click_to_open(true).click_to_toggle(true);
    assert_eq!(opening.click(Some(true)), Some(true));
    assert_eq!(opening.click(Some(false)), Some(true));
    let toggling = submenu().click_to_toggle(true);
    assert_eq!(toggling.click(Some(true)), Some(false));
    assert_eq!(toggling.click(toggling.click(Some(true))), Some(true));
    assert_eq!(toggling.click(None), None);
    assert_eq!(opening.disable(true).click(Some(false)), Some(false));
}

#[test]
fn disabled_items_take_no_focus_and_light_up_for_nothing() {
    let row = SidebarMenuItem::new("Archive").disable(true).row(None, true);
    assert!(!row.is_focusable);
    assert!(!row.is_tab_stop);
    assert!(!row.is_clickable);
    assert!(!row.is_hoverable);
    assert!(row.shows_focus_ring);
    let row = SidebarMenuItem::new("Drafts").tab_stop(false).row(None, false);
    assert!(row.is_focusable);
    assert!(!row.is_tab_stop);
    assert!(!row.shows_focus_ring);
}

#[test]
fn a_collapsed_menu_collapses_its_items() {
    let menu = SidebarMenu::new()
        .child(SidebarMenuItem::new("Inbox").icon("inbox"))
        .child(SidebarMenuItem::new("Sent"))
        .collapsed(true);
    let items = menu.into_items();
    assert!(items.iter().all(|item| item.is_collapsed()));
    assert_eq!(items[0].label(), "Inbox");
    let row = items[0].row(Some(true), false);
    assert!(!row.is_open);
    assert!(row.shows_tooltip);
    assert!(!row.shows_caret);
}

#[test]
fn a_submenu_gives_its_items_out_in_order() {
    let item = SidebarMenuItem::new("Mail").children(vec![
        SidebarMenuItem::new("Inbox"),
        SidebarMenuItem::new("Sent"),
    ]);
    let labels: Vec<String> = item
        .into_children()
        .iter()
        .map(|child| child.label().to_string())
        .collect();
    assert_eq!(labels, vec!["Inbox", "Sent"]);
}
