//! What measurements decide, and what holds of every document, on concrete
//! values.

use gpui_base::document::{
    adjacent_row, block_at_offset, closest_caret_index, nearest_row, Affinity, CaretMeasure,
    CaretStep, CaretStop, DocumentBlock, DocumentEditRejection, DocumentEffect, DocumentEvent,
    DocumentLayoutItem, DocumentModel, DocumentPosition, DocumentProjection, DocumentRegion, DocumentState,
    EditOrigin, EditPolicy, EditTransaction, HostTransactionError, PinMeasure, PinStep,
    PointerHit, ProjectionSpan, RoutingOutcome, RowDistance, TextEdit,
};
use gpui_base::text::SourceText;

fn stop(index: usize, distance: f32) -> CaretStop {
    CaretStop {
        index,
        distance: distance.to_bits(),
    }
}

fn conversation() -> DocumentState<&'static str> {
    DocumentState::new(
        "one\ntwo\ndraft",
        vec![
            DocumentRegion::new("history", 0..8, EditPolicy::Readonly),
            DocumentRegion::new("draft", 8..13, EditPolicy::Editable),
        ],
    )
    .unwrap()
}

#[test]
fn the_closest_caret_is_the_first_of_its_row() {
    let glyphs = [
        stop(0, 9.0),
        stop(1, 1.5),
        stop(2, 1.5),
        stop(3, 0.25),
        stop(4, 0.0),
    ];
    assert_eq!(closest_caret_index(stop(0, 9.0), &glyphs, stop(3, 4.0)), 1);
    assert_eq!(closest_caret_index(stop(0, 1.5), &glyphs, stop(3, 4.0)), 0);
    assert_eq!(closest_caret_index(stop(0, 9.0), &glyphs, stop(3, 1.0)), 3);
    assert_eq!(closest_caret_index(stop(3, 8.0), &glyphs, stop(5, 7.0)), 4);
    assert_eq!(closest_caret_index(stop(2, 8.0), &[], stop(2, 8.0)), 2);
}

#[test]
fn the_nearest_row_is_the_first_of_the_closest() {
    let row = |distance: i32, item: usize| RowDistance { distance, item };
    assert_eq!(nearest_row(&[]), None);
    assert_eq!(nearest_row(&[row(3, 0), row(1, 4), row(1, 2)]), Some(2));
    assert_eq!(nearest_row(&[row(0, 7), row(0, 7)]), Some(0));
    assert_eq!(nearest_row(&[row(-1, 9), row(0, 0)]), Some(0));
}

#[test]
fn affinity_tells_which_block_a_place_stands_at() {
    let blocks = [0..3, 3..6];
    assert_eq!(block_at_offset(&blocks, 3, Affinity::Before), Some(0));
    assert_eq!(block_at_offset(&blocks, 3, Affinity::After), Some(1));
    assert_eq!(block_at_offset(&blocks, 0, Affinity::Before), None);
    assert_eq!(block_at_offset(&blocks, 6, Affinity::After), None);
}

#[test]
fn the_adjacent_row_skips_what_is_not_laid_out() {
    assert_eq!(adjacent_row(&[2, 5, 9], 5, true), Some(2));
    assert_eq!(adjacent_row(&[2, 5, 9], 5, false), Some(0));
    assert_eq!(adjacent_row(&[2, 5, 9], 9, true), None);
    assert_eq!(adjacent_row(&[2, 5, 9], 2, false), None);
    assert_eq!(adjacent_row(&[2, 5, 9], 20, false), Some(2));
}

#[test]
fn points_hit_text_blocks_and_the_space_behind() {
    let document = conversation();
    let at = |hit: PointerHit| document.position_for_hit(&hit);
    assert_eq!(
        at(PointerHit::Trailer),
        Some(DocumentPosition::new("draft", 5, Affinity::After))
    );
    assert_eq!(
        at(PointerHit::Text {
            item: 1,
            display: 4..7,
            local: 1
        }),
        Some(DocumentPosition::new("history", 5, Affinity::After))
    );
    assert_eq!(
        at(PointerHit::Text {
            item: 1,
            display: 4..7,
            local: 3
        }),
        Some(DocumentPosition::new("history", 7, Affinity::Before))
    );
    assert_eq!(
        at(PointerHit::Block {
            source: 0..8,
            upper: true
        }),
        Some(DocumentPosition::new("history", 0, Affinity::After))
    );
    assert_eq!(
        at(PointerHit::Block {
            source: 0..8,
            upper: false
        }),
        Some(DocumentPosition::new("history", 8, Affinity::Before))
    );
    assert_eq!(at(PointerHit::Nothing), document.caret_position());
    assert_eq!(
        document.text_place(&DocumentPosition::new("history", 5, Affinity::After)),
        Some((1, 5))
    );
    assert_eq!(
        document.text_place(&DocumentPosition::new("gone", 0, Affinity::After)),
        None
    );
}

#[test]
fn a_pin_scrolls_unless_the_view_is_at_an_end() {
    let mut document = conversation();
    let measure = |laid_out: bool, top_item: usize, above: bool, at_top: bool, at_end: bool| {
        PinMeasure {
            laid_out,
            top_item,
            open: true,
            close: false,
            above,
            below: !above,
            at_top,
            at_end,
        }
    };
    assert_eq!(
        document.scroll_pin_step(&measure(true, 0, true, false, false)),
        PinStep::Stay
    );
    let place = DocumentPosition::new("history", 5, Affinity::After);
    document
        .pin_scroll("turn", &place, 0.5f32.to_bits())
        .unwrap();
    assert_eq!(
        document.scroll_pin_step(&measure(false, 0, true, false, false)),
        PinStep::ToItem(1)
    );
    assert_eq!(
        document.scroll_pin_step(&measure(false, 1, true, false, false)),
        PinStep::Stay
    );
    assert_eq!(
        document.scroll_pin_step(&measure(true, 0, true, false, true)),
        PinStep::Scroll
    );
    assert_eq!(
        document.scroll_pin_step(&measure(true, 0, true, true, false)),
        PinStep::Stay
    );
    assert_eq!(
        document.scroll_pin_step(&measure(true, 0, false, true, false)),
        PinStep::Scroll
    );
    assert_eq!(
        document.scroll_pin_step(&measure(true, 0, false, false, true)),
        PinStep::Stay
    );
    assert_eq!(
        document.scroll_pin_step(&PinMeasure {
            close: true,
            ..measure(true, 0, false, false, false)
        }),
        PinStep::Stay
    );
    assert_eq!(
        document.scroll_pin_step(&PinMeasure {
            open: false,
            ..measure(true, 0, false, false, false)
        }),
        PinStep::Stay
    );
}

#[test]
fn the_caret_is_revealed_once_it_is_laid_out() {
    let mut document = conversation();
    let measure = |laid_out: bool, row_laid_out: bool, open: bool, outside: bool| CaretMeasure {
        laid_out,
        row_laid_out,
        open,
        outside,
    };
    assert_eq!(document.caret_row(), Some(2));
    assert_eq!(
        document.caret_reveal_step(&measure(false, false, true, true)),
        CaretStep::Stay
    );
    document.reveal_caret();
    document.take_effects();
    assert_eq!(
        document.caret_reveal_step(&measure(false, false, true, true)),
        CaretStep::ToItem(2)
    );
    assert_eq!(
        document.caret_reveal_step(&measure(false, true, true, true)),
        CaretStep::RevealItem(2)
    );
    assert_eq!(
        document.take_effects(),
        vec![DocumentEffect::Notify, DocumentEffect::Notify]
    );
    assert_eq!(
        document.caret_reveal_step(&measure(true, true, false, true)),
        CaretStep::Stay
    );
    assert!(document.is_caret_reveal_pending());
    assert_eq!(
        document.caret_reveal_step(&measure(true, true, true, true)),
        CaretStep::Scroll
    );
    assert!(!document.is_caret_reveal_pending());
    document.reveal_caret();
    document.take_effects();
    assert_eq!(
        document.caret_reveal_step(&measure(true, true, true, false)),
        CaretStep::Stay
    );
    assert!(!document.is_caret_reveal_pending());
    assert_eq!(document.take_effects(), vec![]);
}

#[test]
fn a_new_layout_keeps_the_place_and_measures_what_has_changed() {
    let mut document = conversation();
    let top = DocumentPosition::new("history", 4, Affinity::After);
    document.prepare_layout(false, false, true, Some(&top));
    assert_eq!(document.take_effects(), vec![]);
    assert_eq!(document.viewport_position(), None);
    document.set_dynamic_trailer(true);
    document.take_effects();
    let rows = document.layout_items().len();
    document.prepare_layout(true, false, true, Some(&top));
    assert_eq!(
        document.take_effects(),
        vec![
            DocumentEffect::ForgetColumn,
            DocumentEffect::RemeasureItems { from: 0, to: rows },
            DocumentEffect::RemeasureItems {
                from: rows - 1,
                to: rows
            },
        ]
    );
    assert_eq!(document.viewport_position(), Some(top));
}

#[test]
fn a_long_document_has_a_row_for_each_line() {
    let mut history = String::new();
    for index in 0..1000 {
        history.push_str(&format!("row {index:04}\n"));
    }
    let len = history.len();
    let document = DocumentState::new(
        &history,
        vec![
            DocumentRegion::new("history", 0..len, EditPolicy::Readonly),
            DocumentRegion::new("draft", len..len, EditPolicy::Editable),
        ],
    )
    .unwrap();
    assert_eq!(document.layout_items().len(), 1001);
}

#[test]
fn text_rows_are_the_lines_of_the_display() {
    let mut document = conversation();
    document
        .set_projection(
            DocumentProjection::new(13, vec![ProjectionSpan::replace(0..3, "first\nline")])
                .unwrap(),
        )
        .unwrap();
    let lines: Vec<String> = document
        .layout_items()
        .iter()
        .map(|item| match item {
            DocumentLayoutItem::Text { text, .. } => text.clone(),
            _ => panic!("only text"),
        })
        .collect();
    assert_eq!(lines, vec!["first", "line", "two", "draft"]);
    assert_eq!(lines.join("\n"), document.display_text());
}

#[test]
fn revealing_a_position_ends_following() {
    let mut document = conversation();
    let place = DocumentPosition::new("history", 5, Affinity::After);
    document
        .pin_scroll("turn", &place, 0.5f32.to_bits())
        .unwrap();
    document.take_effects();
    document.reveal_position(&place).unwrap();
    assert_eq!(
        document.take_effects(),
        vec![
            DocumentEffect::Emit(DocumentEvent::StopFollowingRequested { pin_id: "turn" }),
            DocumentEffect::Notify,
            DocumentEffect::RevealItem(1),
            DocumentEffect::Notify,
        ]
    );
    assert_eq!(place.into_node_id(), "history");
    assert!(document
        .reveal_position(&DocumentPosition::new("gone", 0, Affinity::After))
        .is_err());
    assert_eq!(document.take_effects(), vec![]);
}

#[test]
fn utf16_offsets_come_back() {
    let text = SourceText::new("a中🙂b");
    for offset in [0, 1, 4, 8, 9] {
        assert_eq!(text.offset_utf16_to_offset(text.offset_to_offset_utf16(offset)), offset);
    }
    assert_eq!(text.offset_to_offset_utf16(8), 4);
    assert_eq!(text.offset_utf16_to_offset(3), 4);
}

#[test]
fn undo_takes_a_merged_record_back_at_once() {
    let mut document = conversation();
    document.set_selection(13..13, false);
    document.take_effects();
    for text in ["a", "b", "c"] {
        document.replace_text_in_range(None, text);
    }
    assert_eq!(document.text(), "one\ntwo\ndraftabc");
    assert_eq!(document.undo_manager().undo_records().len(), 1);
    document.undo();
    assert_eq!(document.undo_manager().redo_records().len(), 1);
    assert_eq!(document.text(), "one\ntwo\ndraft");
    assert_eq!(document.regions()[1].range(), 8..13);
    document.redo();
    assert_eq!(document.text(), "one\ntwo\ndraftabc");
    assert_eq!(document.selected_range(), 16..16);
    document.backspace();
    document.backspace();
    assert_eq!(document.undo_manager().undo_records().len(), 2);
    document.undo();
    assert_eq!(document.text(), "one\ntwo\ndraftabc");
}

#[test]
fn undo_follows_its_region_through_a_host_update() {
    let mut document = conversation();
    document.set_selection(8..13, false);
    document.replace_text_in_range(None, "reply");
    let host = EditTransaction::new(
        document.revision(),
        EditOrigin::Host,
        vec![TextEdit::new(0..4, "")],
        document.text().len(),
    )
    .unwrap();
    document
        .apply_host_transaction(
            host,
            vec![
                DocumentRegion::new("history", 0..4, EditPolicy::Readonly),
                DocumentRegion::new("draft", 4..9, EditPolicy::Editable),
            ],
            None,
        )
        .unwrap();
    assert_eq!(document.text(), "two\nreply");
    document.undo();
    assert_eq!(document.text(), "two\ndraft");
    document.redo();
    assert_eq!(document.text(), "two\nreply");
}

#[test]
fn changes_make_older_transactions_stale() {
    let mut document = conversation();
    let older = |document: &DocumentState<&'static str>, origin: EditOrigin| {
        EditTransaction::new(
            document.revision(),
            origin,
            vec![TextEdit::new(8..8, "x")],
            document.text().len(),
        )
        .unwrap()
    };
    let user = older(&document, EditOrigin::User);
    let host = older(&document, EditOrigin::Host);
    document.set_selection(8..8, false);
    document.replace_text_in_range(None, "y");
    document.take_effects();
    let _ = document.apply_transaction(user);
    assert_eq!(
        document.take_effects(),
        vec![DocumentEffect::Emit(DocumentEvent::Rejected(
            DocumentEditRejection::StaleRevision
        ))]
    );
    let regions = vec![
        DocumentRegion::new("history", 0..8, EditPolicy::Readonly),
        DocumentRegion::new("draft", 8..14, EditPolicy::Editable),
    ];
    assert_eq!(
        document.apply_host_transaction(host, regions, None),
        Err(HostTransactionError::StaleRevision)
    );
    assert_eq!(document.text(), "one\ntwo\nydraft");
}

#[test]
fn blocks_beside_edited_text_keep_their_source() {
    let mut model = DocumentModel::new(
        "\u{fffc}ab\u{fffc}",
        vec![
            DocumentRegion::new("first", 0..3, EditPolicy::Atomic),
            DocumentRegion::new("draft", 3..5, EditPolicy::Editable),
            DocumentRegion::new("second", 5..8, EditPolicy::Atomic),
        ],
    )
    .unwrap();
    model
        .set_presentation(
            DocumentProjection::new(
                8,
                vec![ProjectionSpan::hidden(0..3), ProjectionSpan::hidden(5..8)],
            )
            .unwrap(),
            vec![
                DocumentBlock::new("first", 0..3),
                DocumentBlock::new("second", 5..8),
            ],
        )
        .unwrap();
    let transaction = EditTransaction::new(
        model.revision(),
        EditOrigin::User,
        vec![TextEdit::new(3..3, "<"), TextEdit::new(5..5, ">")],
        8,
    )
    .unwrap();
    assert_eq!(
        model.route_and_apply(&transaction, Some(&"draft")),
        RoutingOutcome::Applied
    );
    assert_eq!(model.text(), "\u{fffc}<ab>\u{fffc}");
    assert_eq!(model.blocks()[0].source(), 0..3);
    assert_eq!(model.blocks()[1].source(), 7..10);
    assert_eq!(model.regions()[1].range(), 3..7);
}

#[test]
fn a_block_is_selected_with_all_of_its_source() {
    let mut document = conversation();
    document.set_selection(4..8, false);
    assert!(document.is_selected_source(&(4..8)));
    assert!(document.is_selected_source(&(5..6)));
    assert!(!document.is_selected_source(&(3..8)));
    assert!(!document.is_selected_source(&(4..9)));
    assert_eq!(document.text_len(), 13);
}
