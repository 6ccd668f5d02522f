//! Keys, the clipboard, pointers and platform input.

use gpui_base::document::{
    Affinity, DocumentBlock, DocumentEffect, DocumentEvent, DocumentPosition, DocumentProjection,
    DocumentRegion, DocumentSnapshot, DocumentState, DocumentStyles, EditPolicy, ProjectionSpan,
};
use gpui_base::text::SourceText;
use gpui_base::words::{find_word_before, find_word_behind};

fn history() -> DocumentState<&'static str> {
    DocumentState::new(
        "history",
        vec![
            DocumentRegion::new("history", 0..7, EditPolicy::Readonly),
            DocumentRegion::new("draft", 7..7, EditPolicy::Editable),
        ],
    )
    .unwrap()
}

fn draft(text: &str) -> DocumentState<&'static str> {
    DocumentState::new(
        text,
        vec![DocumentRegion::new(
            "draft",
            0..text.len(),
            EditPolicy::Editable,
        )],
    )
    .unwrap()
}

#[test]
fn document_element_handles_document_and_selection_navigation() {
    let mut document = history();
    document.move_to_end();
    document.select_left();
    document.select_to_start();
    assert_eq!(document.selected_range(), 0..7);
    assert_eq!(document.model().selection_offsets(), (7, 0));
}

#[test]
fn document_boundary_navigation_reaches_empty_text_regions() {
    for (key, (target, extend, expected)) in [
        ("after", false, "historyx"),
        ("after", true, "history"),
        ("before", false, "xhistory"),
        ("before", true, "history"),
    ]
    .into_iter()
    .enumerate()
    {
        let initial = || DocumentPosition::new("history", 3, Affinity::After);
        let mut document = history();
        document
            .reset(
                DocumentSnapshot::new(
                    "history",
                    vec![
                        DocumentRegion::new("before", 0..0, EditPolicy::Editable),
                        DocumentRegion::new("history", 0..7, EditPolicy::Readonly),
                        DocumentRegion::new("after", 7..7, EditPolicy::Editable),
                    ],
                    DocumentProjection::identity(7),
                    Vec::new(),
                    DocumentStyles::default(),
                )
                .selection(initial()),
            )
            .unwrap();
        match key {
            0 => document.move_to_end(),
            1 => document.select_to_end(),
            2 => document.move_to_start(),
            _ => document.select_to_start(),
        }
        let (anchor, head) = document.selected_positions().unwrap();
        assert_eq!(head.node_id(), &target, "{key}");
        assert_eq!(head.offset(), 0, "{key}");
        assert_eq!(anchor, if extend { initial() } else { head }, "{key}");
        document.replace_text_in_range(None, "x");
        assert_eq!(document.text(), expected, "{key}");
    }
}

#[test]
fn arrows_step_over_characters_and_collapse_selections() {
    let mut document = draft("a中🙂z");
    document.set_selection(0..0, false);
    for expected in [1, 4, 8, 9, 9] {
        document.move_right();
        assert_eq!(document.selected_range(), expected..expected);
    }
    for expected in [8, 4, 1, 0, 0] {
        document.move_left();
        assert_eq!(document.selected_range(), expected..expected);
    }
    document.set_selection(1..8, false);
    document.move_left();
    assert_eq!(document.selected_range(), 1..1);
    document.set_selection(1..8, true);
    document.move_right();
    assert_eq!(document.selected_range(), 8..8);
    document.select_right();
    document.select_left();
    document.select_left();
    assert_eq!(document.model().selection_offsets(), (8, 4));
}

#[test]
fn moving_tells_the_view_and_reveals_the_caret() {
    let mut document = draft("ab");
    document.take_effects();
    document.move_left();
    assert!(document.is_caret_reveal_pending());
    assert_eq!(
        document.take_effects(),
        vec![
            DocumentEffect::ForgetColumn,
            DocumentEffect::Notify,
            DocumentEffect::Emit(DocumentEvent::SelectionChanged),
            DocumentEffect::Notify
        ]
    );
    document.caret_shown();
    assert!(!document.is_caret_reveal_pending());
}

#[test]
fn lines_end_before_their_breaks() {
    let text = "one\r\ntwo\n\nlast";
    let source = SourceText::new(text);
    for (offset, start, end) in [
        (0, 0, 3),
        (3, 0, 3),
        (4, 0, 3),
        (5, 5, 8),
        (8, 5, 8),
        (9, 9, 9),
        (10, 10, 14),
        (14, 10, 14),
    ] {
        assert_eq!(source.start_of_line(offset), start, "{offset}");
        assert_eq!(source.end_of_line(offset), end, "{offset}");
    }
    let mut document = draft(text);
    document.set_selection(7..7, false);
    document.move_home();
    assert_eq!(document.selected_range(), 5..5);
    document.move_end();
    assert_eq!(document.selected_range(), 8..8);
    document.select_to_start_of_line();
    assert_eq!(document.model().selection_offsets(), (8, 5));
    document.select_to_end_of_line();
    assert_eq!(document.selected_range(), 8..8);
    document.move_to_start_of_line();
    document.move_to_end_of_line();
    assert_eq!(document.selected_range(), 8..8);
}

#[test]
fn words_end_behind_their_whitespace() {
    let text = "one  two\u{3000}三四\nx";
    let source = SourceText::new(text);
    assert_eq!(source.next_word_boundary(0), 5);
    assert_eq!(source.next_word_boundary(5), 11);
    assert_eq!(source.next_word_boundary(11), 18);
    assert_eq!(source.next_word_boundary(18), 19);
    assert_eq!(source.next_word_boundary(19), 19);
    assert_eq!(source.previous_word_boundary(19), 18);
    assert_eq!(source.previous_word_boundary(18), 11);
    assert_eq!(source.previous_word_boundary(11), 5);
    assert_eq!(source.previous_word_boundary(7), 5);
    assert_eq!(source.previous_word_boundary(5), 0);
    assert_eq!(source.previous_word_boundary(0), 0);
    let mut document = draft(text);
    document.set_selection(0..0, false);
    document.move_to_next_word();
    document.select_to_next_word();
    assert_eq!(document.selected_range(), 5..11);
    document.select_to_previous_word();
    document.move_to_previous_word();
    assert_eq!(document.selected_range(), 0..0);
}

#[test]
fn words_are_found_among_flags() {
    let spaces = vec![true, false, false, true, true, false];
    assert_eq!(find_word_before(&spaces, 6), 5);
    assert_eq!(find_word_before(&spaces, 5), 1);
    assert_eq!(find_word_before(&spaces, 1), 0);
    assert_eq!(find_word_behind(&spaces, 1), 5);
    assert_eq!(find_word_behind(&spaces, 0), 1);
    assert_eq!(find_word_behind(&spaces, 5), 6);
}

#[test]
fn keys_delete_characters_words_and_lines() {
    let mut document = draft("one two\nthree");
    document.set_selection(7..7, false);
    document.backspace();
    assert_eq!(document.text(), "one tw\nthree");
    document.delete();
    assert_eq!(document.text(), "one twthree");
    document.delete_previous_word();
    assert_eq!(document.text(), "one three");
    document.delete_next_word();
    assert_eq!(document.text(), "one ");
    document.delete_to_start_of_line();
    assert_eq!(document.text(), "");
    document.backspace();
    document.delete();
    assert_eq!(document.text(), "");
    document.enter();
    assert_eq!(document.text(), "\n");
    let mut document = draft("one\ntwo");
    document.set_selection(1..1, false);
    document.delete_to_end_of_line();
    assert_eq!(document.text(), "o\ntwo");
    document.set_selection(0..4, false);
    document.delete();
    assert_eq!(document.text(), "o");
}

#[test]
fn the_clipboard_gets_only_what_could_be_cut() {
    let mut document = history();
    assert_eq!(document.copy(), None);
    assert_eq!(document.cut(), None);
    document.select_all();
    assert_eq!(document.copy().as_deref(), Some("history"));
    assert_eq!(document.cut(), None);
    assert_eq!(document.text(), "history");
    document.move_to_end();
    document.paste("draft");
    document.set_selection(7..9, false);
    assert_eq!(document.cut().as_deref(), Some("dr"));
    assert_eq!(document.text(), "historyaft");
    document.undo();
    document.undo();
    assert_eq!(document.text(), "history");
}

#[test]
fn presses_and_drags_select_what_they_hit() {
    let mut document = draft("one two");
    let at = |offset: usize| Some(DocumentPosition::new("draft", offset, Affinity::After));
    document.press(at(4), false);
    assert_eq!(document.selected_range(), 4..4);
    document.press(at(1), true);
    assert_eq!(document.model().selection_offsets(), (4, 1));
    document.take_effects();
    document.extend_pointer_selection(at(1));
    assert!(document.take_effects().is_empty());
    document.extend_pointer_selection(at(6));
    assert_eq!(document.selected_range(), 4..6);
    document.extend_pointer_selection(None);
    document.press(None, false);
    assert_eq!(document.selected_range(), 4..6);
    document.press_block();
    assert_eq!(document.selected_range(), 4..6);
    assert_eq!(document.offset_for_position(at(2).as_ref()), 2);
    assert_eq!(document.offset_for_position(None), 6);
    assert_eq!(document.vertical_start(true), document.caret_position());
    assert_eq!(document.vertical_start(false), at(4));
}

#[test]
fn platform_ranges_count_code_units() {
    let mut document = draft("a🙂中z");
    assert_eq!(document.text_length_utf16(), 5);
    document.set_selected_text_range(1..3);
    assert_eq!(document.selected_range(), 1..5);
    assert_eq!(document.selected_text_range(), (1..3, false));
    assert_eq!(
        document.text_for_range(0..4),
        ("a🙂中".to_string(), 0..4)
    );
    // A range that ends inside a character ends before it.
    assert_eq!(document.text_for_range(0..2), ("a".to_string(), 0..1));
    assert_eq!(
        document.character_index_for_position(Some(&DocumentPosition::new(
            "draft",
            5,
            Affinity::After
        ))),
        3
    );
    document.replace_and_mark_text_in_range(Some(3..4), "🙂ni", None);
    assert_eq!(document.text(), "a🙂🙂niz");
    assert_eq!(document.marked_text_range(), Some(3..7));
    assert_eq!(document.selected_text_range(), (7..7, false));
    document.unmark_text();
    assert_eq!(document.marked_text_range(), None);
    document.replace_selection("!");
    assert_eq!(document.text(), "a🙂🙂ni!z");
    assert_eq!(document.text_input_editable_range(), Some(0..9));
}

#[test]
fn input_geometry_is_asked_for_where_the_text_is_shown() {
    let mut document = history();
    document.replace_text_in_range(None, "ab");
    let bounds = document.bounds_for_range(7..9).unwrap();
    assert_eq!(bounds.source, 7..9);
    assert_eq!(bounds.start_affinity, Affinity::Before);
    assert_eq!((bounds.start_display, bounds.end_display), (7, 9));
    assert_eq!(
        bounds.start,
        Some(DocumentPosition::new("draft", 0, Affinity::Before))
    );
    assert_eq!(
        bounds.end,
        Some(DocumentPosition::new("draft", 2, Affinity::After))
    );
    assert_eq!((bounds.start_item, bounds.end_item), (0, 0));
}

#[test]
fn rows_own_their_positions() {
    let mut document = history();
    document.set_block_renderer();
    document
        .reset(DocumentSnapshot::new(
            "\u{fffc}\u{fffc}tail",
            vec![
                DocumentRegion::new("left", 0..0, EditPolicy::Editable),
                DocumentRegion::new("first", 0..3, EditPolicy::Atomic),
                DocumentRegion::new("middle", 3..3, EditPolicy::Editable),
                DocumentRegion::new("second", 3..6, EditPolicy::Atomic),
                DocumentRegion::new("right", 6..10, EditPolicy::Editable),
            ],
            DocumentProjection::new(
                10,
                vec![ProjectionSpan::hidden(0..3), ProjectionSpan::hidden(3..6)],
            )
            .unwrap(),
            vec![
                DocumentBlock::new("first", 0..3),
                DocumentBlock::new("second", 3..6),
            ],
            DocumentStyles::default(),
        ))
        .unwrap();
    let row = |document: &DocumentState<&'static str>, node: &'static str, offset: usize| {
        document
            .text_item_for_position(&DocumentPosition::new(node, offset, Affinity::After))
            .unwrap()
    };
    let owner = |document: &DocumentState<&'static str>, item: usize| {
        document.text_context(item).map(|context| *context.node_id())
    };
    for node in ["left", "middle", "right"] {
        let item = row(&document, node, 0);
        assert_eq!(owner(&document, item), Some(node));
    }
    document
        .set_selection_positions(
            DocumentPosition::new("middle", 0, Affinity::After),
            DocumentPosition::new("middle", 0, Affinity::After),
        )
        .unwrap();
    let item = row(&document, "middle", 0);
    assert_eq!(document.segment_paint_snapshot(item, &(0..0)).1, Some(0));
    assert_eq!(
        document.text_position_in_row(item, &(0..0), 0),
        Some(DocumentPosition::new("middle", 0, Affinity::After))
    );
    let last = row(&document, "right", 2);
    assert!(document.text_context(last).unwrap().is_first_line());
    assert_eq!(
        document.position_beside(&(3..6), true),
        document.position_for_offset(3, Affinity::After).ok()
    );
    document.select_all();
    assert_eq!(
        document.segment_paint_snapshot(last, &(0..4)).0,
        Some(0..4)
    );
    assert_eq!(document.text_item_for_display(2, Affinity::After), Some(last));
    document
        .set_selection_positions(
            DocumentPosition::new("middle", 0, Affinity::After),
            DocumentPosition::new("middle", 0, Affinity::After),
        )
        .unwrap();
    document.replace_text_in_range(None, "x");
    document.replace_text_in_range(None, "y");
    assert_eq!(document.region_text(&"middle").as_deref(), Some("xy"));
    document.backspace();
    document.backspace();
    assert_eq!(document.region_text(&"middle").as_deref(), Some(""));
    assert_eq!(
        document.selected_positions().unwrap().1.node_id(),
        &"middle"
    );
}

#[test]
fn the_view_keeps_a_place_until_it_is_restored() {
    let mut document = history();
    let top = DocumentPosition::new("history", 2, Affinity::After);
    document.capture_viewport_anchor(Some(&top));
    assert_eq!(document.viewport_position(), Some(top));
    document.viewport_restored();
    assert_eq!(document.viewport_position(), None);
    document.reveal_caret();
    document.capture_viewport_anchor(Some(&DocumentPosition::new(
        "history",
        2,
        Affinity::After,
    )));
    assert_eq!(document.viewport_position(), None);
}
