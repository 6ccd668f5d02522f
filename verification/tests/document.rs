//! Editing a document: routing, input, undo and host transactions.

use gpui_base::document::{
    Affinity, AnchoredBlock, AnchoredBlockError, BlockError, DocumentBlock, DocumentEditRejection,
    DocumentEffect, DocumentEvent, DocumentInlineStyle, DocumentLayoutItem, DocumentModel,
    DocumentParagraphStyle, DocumentPosition, DocumentProjection, DocumentRegion,
    DocumentRevision, DocumentSnapshot, DocumentState, DocumentStyleError, DocumentStyles,
    DocumentUndoManager, EditDecision, EditOrigin, EditPolicy, EditTransaction, HighlightStyle,
    HostTransactionError, PositionError, PresentationError, ProjectionError, ProjectionSpan,
    RegionError, RoutingOutcome, ScrollPinError, TextEdit, TextStyleRefinement, UndoChange,
    UndoRecord,
};

fn model() -> DocumentModel<&'static str> {
    DocumentModel::new(
        "history",
        vec![
            DocumentRegion::new("history", 0..7, EditPolicy::Readonly),
            DocumentRegion::new("draft", 7..7, EditPolicy::Editable),
        ],
    )
    .unwrap()
}

fn document_view() -> DocumentState<&'static str> {
    DocumentState::new(
        "history",
        vec![
            DocumentRegion::new("history", 0..7, EditPolicy::Readonly),
            DocumentRegion::new("draft", 7..7, EditPolicy::Editable),
        ],
    )
    .unwrap()
}

#[test]
fn insertion_expands_only_the_trailing_editable_region() {
    let mut model = model();
    let transaction = EditTransaction::new(
        model.revision(),
        EditOrigin::User,
        vec![TextEdit::new(7..7, " draft")],
        7,
    )
    .unwrap();

    assert!(matches!(
        model.route_and_apply(&transaction, None),
        RoutingOutcome::Applied
    ));
    assert_eq!(model.text(), "history draft");
    assert_eq!(model.regions()[0].range(), 0..7);
    assert_eq!(model.regions()[1].range(), 7..13);
    assert_eq!(model.revision().value(), 1);
}

#[test]
fn history_edit_is_rejected_without_mutation() {
    let mut model = model();
    let transaction = EditTransaction::new(
        model.revision(),
        EditOrigin::User,
        vec![TextEdit::new(0..1, "H")],
        7,
    )
    .unwrap();

    assert!(matches!(
        model.route_and_apply(&transaction, None),
        RoutingOutcome::Rejected(DocumentEditRejection::Readonly)
    ));
    assert_eq!(model.text(), "history");
    assert_eq!(model.revision(), DocumentRevision::initial());
}

#[test]
fn routed_region_returns_domain_id_without_mutation() {
    let mut model = DocumentModel::new(
        "old user",
        vec![DocumentRegion::new("resend", 0..8, EditPolicy::Routed)],
    )
    .unwrap();
    let transaction = EditTransaction::new(
        model.revision(),
        EditOrigin::User,
        vec![TextEdit::new(3..4, "X")],
        8,
    )
    .unwrap();

    assert!(matches!(
        model.route_and_apply(&transaction, None),
        RoutingOutcome::Routed("resend")
    ));
    assert_eq!(model.text(), "old user");
}

#[test]
fn each_rejection_has_an_edit() {
    let mut model = DocumentModel::new(
        "a\u{fffc}中d",
        vec![
            DocumentRegion::new("history", 0..1, EditPolicy::Readonly),
            DocumentRegion::new("object", 1..4, EditPolicy::Atomic),
            DocumentRegion::new("draft", 4..8, EditPolicy::Editable),
        ],
    )
    .unwrap();
    let stale = EditTransaction::new(
        model.revision(),
        EditOrigin::User,
        vec![TextEdit::new(7..8, "x")],
        8,
    )
    .unwrap();
    assert_eq!(
        model.route_and_apply(&stale, None),
        RoutingOutcome::Applied
    );
    assert_eq!(
        model.route_and_apply(&stale, None),
        RoutingOutcome::Rejected(DocumentEditRejection::StaleRevision)
    );
    let mut reject = |edits: Vec<TextEdit>| {
        let transaction =
            EditTransaction::new(model.revision(), EditOrigin::User, edits, 8).unwrap();
        match model.route_and_apply(&transaction, None) {
            RoutingOutcome::Rejected(reason) => reason,
            outcome => panic!("{outcome:?}"),
        }
    };
    assert_eq!(
        reject(vec![TextEdit::new(0..1, "x")]),
        DocumentEditRejection::Readonly
    );
    assert_eq!(
        reject(vec![TextEdit::new(1..4, "x")]),
        DocumentEditRejection::Atomic
    );
    assert_eq!(
        reject(vec![TextEdit::new(5..7, "x")]),
        DocumentEditRejection::InvalidBoundary
    );
    assert_eq!(
        reject(vec![TextEdit::new(0..1, "x"), TextEdit::new(7..8, "y")]),
        DocumentEditRejection::CrossesRegions
    );
    assert_eq!(
        reject(vec![TextEdit::new(0..4, "x")]),
        DocumentEditRejection::OutsideRegion
    );
}

#[test]
fn empty_middle_text_keeps_its_identity_through_input_host_updates_and_undo() {
    let mut document = document_view();
    document.set_block_renderer();
    document
        .reset(DocumentSnapshot::new(
            "h\n中\u{fffc}tail",
            vec![
                DocumentRegion::new("history", 0..2, EditPolicy::Readonly),
                DocumentRegion::new("before", 2..5, EditPolicy::Editable),
                DocumentRegion::new("object", 5..8, EditPolicy::Atomic),
                DocumentRegion::new("after", 8..12, EditPolicy::Editable),
            ],
            DocumentProjection::new(12, vec![ProjectionSpan::hidden(5..8)]).unwrap(),
            vec![DocumentBlock::new("object", 5..8)],
            DocumentStyles::default(),
        ))
        .unwrap();
    document.set_selection(2..5, false);
    document.replace_text_in_range(None, "");
    assert_eq!(document.region(&"before").unwrap().range(), 2..2);
    assert_eq!(
        document.selected_positions().unwrap().1.node_id(),
        &"before"
    );

    let host = EditTransaction::new(
        document.revision(),
        EditOrigin::Host,
        vec![TextEdit::new(0..0, "x\n")],
        document.text().len(),
    )
    .unwrap();
    document
        .apply_host_transaction_with_presentation(
            host,
            vec![
                DocumentRegion::new("history", 0..4, EditPolicy::Readonly),
                DocumentRegion::new("before", 4..4, EditPolicy::Editable),
                DocumentRegion::new("object", 4..7, EditPolicy::Atomic),
                DocumentRegion::new("after", 7..11, EditPolicy::Editable),
            ],
            DocumentProjection::new(11, vec![ProjectionSpan::hidden(4..7)]).unwrap(),
            vec![DocumentBlock::new("object", 4..7)],
            None,
        )
        .unwrap();
    assert_eq!(document.selected_range(), 4..4);
    assert_eq!(
        document.selected_positions().unwrap().1.node_id(),
        &"before"
    );
    document.replace_and_mark_text_in_range(None, "n", Some(1..1));
    document.replace_and_mark_text_in_range(None, "ni", Some(2..2));
    document.replace_text_in_range(None, "你");
    assert_eq!(document.text(), "x\nh\n你\u{fffc}tail");
    assert_eq!(document.model().blocks()[0].source(), 7..10);
    document.undo();
    assert_eq!(document.region_text(&"before").as_deref(), Some(""));
    document.undo();
    assert_eq!(document.region_text(&"before").as_deref(), Some("中"));
    document.redo();
    assert_eq!(document.region_text(&"before").as_deref(), Some(""));
    document.redo();
    assert_eq!(document.region_text(&"before").as_deref(), Some("你"));
    assert_eq!(document.region_text(&"after").as_deref(), Some("tail"));
}

#[test]
fn platform_input_edits_only_the_editable_region() {
    let mut document = document_view();
    document.replace_text_in_range(None, " draft");
    assert_eq!(document.text(), "history draft");
    assert_eq!(document.regions()[0].range(), 0..7);
    assert_eq!(document.regions()[1].range(), 7..13);

    document.set_selection(0..0, false);
    document.replace_text_in_range(None, "X");
    assert_eq!(document.text(), "history draft");
}

#[test]
fn an_edit_crossing_readonly_and_editable_regions_is_atomic() {
    let mut document = document_view();
    document.replace_text_in_range(None, "draft");
    document.set_selection(6..8, false);
    document.replace_text_in_range(None, "X");
    assert_eq!(document.text(), "historydraft");
    assert_eq!(document.selected_range(), 6..8);
}

#[test]
fn rejected_and_routed_ime_edits_preserve_composition_and_undo() {
    let mut document = document_view();
    for policy in [EditPolicy::Readonly, EditPolicy::Routed] {
        for refining in [false, true] {
            document
                .reset(DocumentSnapshot::new(
                    "history",
                    vec![
                        DocumentRegion::new("history", 0..7, policy),
                        DocumentRegion::new("draft", 7..7, EditPolicy::Editable),
                    ],
                    DocumentProjection::identity(7),
                    vec![],
                    DocumentStyles::default(),
                ))
                .unwrap();
            document.replace_and_mark_text_in_range(None, "ni", Some(2..2));
            let revision = document.revision();
            let selection = document.selected_positions().unwrap();
            if refining {
                document.replace_and_mark_text_in_range(Some(0..1), "x", Some(1..1));
            } else {
                document.replace_text_in_range(Some(0..1), "x");
            }
            assert_eq!(document.revision(), revision);
            assert_eq!(document.selected_positions().unwrap(), selection);
            assert_eq!(document.marked_text_range(), Some(7..9));
            document.replace_text_in_range(None, "你");
            assert_eq!(document.text(), "history你");
            document.undo();
            assert_eq!(document.text(), "history");
            document.redo();
            assert_eq!(document.text(), "history你");
        }
    }
}

#[test]
fn public_user_transactions_record_undo_and_reject_internal_origins() {
    let mut document = document_view();
    document.replace_text_in_range(None, "abcdef");
    // Public transactions also work when the selection is in another node.
    document.set_selection(0..2, false);
    let selection = document.selected_positions().unwrap();
    let transaction = EditTransaction::new(
        document.revision(),
        EditOrigin::User,
        vec![TextEdit::new(8..9, "中"), TextEdit::new(11..12, "🙂")],
        document.text().len(),
    )
    .unwrap();
    assert_eq!(
        document.apply_transaction(transaction),
        EditDecision::Apply
    );
    assert_eq!(document.text(), "historya中cd🙂f");
    assert_eq!(document.selected_range(), 17..17);
    assert!(document.is_caret_reveal_pending());
    document.undo();
    assert_eq!(document.text(), "historyabcdef");
    assert_eq!(document.selected_positions().unwrap(), selection);
    document.redo();
    assert_eq!(document.text(), "historya中cd🙂f");
    for origin in [EditOrigin::Host, EditOrigin::Undo, EditOrigin::Redo] {
        let revision = document.revision();
        let transaction = EditTransaction::new(
            revision,
            origin,
            vec![TextEdit::new(7..8, "x")],
            document.text().len(),
        )
        .unwrap();
        assert_eq!(
            document.apply_transaction(transaction),
            EditDecision::Reject
        );
        assert_eq!(document.revision(), revision);
        assert_eq!(document.text(), "historya中cd🙂f");
    }
    document.undo();
    document.undo();
    assert_eq!(document.text(), "history");
}

#[test]
fn reset_drops_old_pins_and_rejects_old_transactions() {
    let mut document = document_view();
    let stale = EditTransaction::new(
        document.revision(),
        EditOrigin::User,
        vec![TextEdit::new(0..3, "STALE")],
        document.text().len(),
    )
    .unwrap();
    document
        .pin_scroll(
            "pin",
            &DocumentPosition::new("draft", 0, Affinity::After),
            0.5f32.to_bits(),
        )
        .unwrap();
    document
        .reset(
            DocumentSnapshot::new(
                "new",
                vec![DocumentRegion::new("new", 0..3, EditPolicy::Editable)],
                DocumentProjection::identity(3),
                vec![],
                DocumentStyles::default(),
            )
            .selection(DocumentPosition::new("new", 2, Affinity::After)),
        )
        .unwrap();
    assert!(!document.unpin_scroll(&"pin"));
    assert_eq!(document.selected_range(), 2..2);
    document
        .pin_scroll(
            "new-pin",
            &DocumentPosition::new("new", 1, Affinity::After),
            0.5f32.to_bits(),
        )
        .unwrap();
    assert_eq!(document.selected_range(), 2..2);
    assert_eq!(document.pinned_scroll_id(), Some(&"new-pin"));
    assert_eq!(document.apply_transaction(stale), EditDecision::Reject);
    assert_eq!(document.text(), "new");
}

#[test]
fn undo_retains_only_changes_in_a_large_draft() {
    let mut document = document_view();
    let initial = 1024 * 1024;
    document
        .reset(DocumentSnapshot::new(
            &"a".repeat(initial),
            vec![DocumentRegion::new(
                "draft",
                0..initial,
                EditPolicy::Editable,
            )],
            DocumentProjection::identity(initial),
            vec![],
            DocumentStyles::default(),
        ))
        .unwrap();
    document.set_selection(initial..initial, false);
    for _ in 0..500 {
        document.replace_text_in_range(None, "x");
    }
    assert_eq!(document.undo_manager().undo_records().len(), 1);
    assert_eq!(document.undo_manager().undo_records()[0].bytes(), 500);
    document.undo();
    assert_eq!(document.text().len(), initial);
    assert_eq!(document.selected_range(), initial..initial);
    document.redo();
    assert_eq!(document.text().len(), initial + 500);

    // An explicit selection boundary and a deletion burst stay separate.
    document.set_selection(initial + 500..initial + 500, false);
    document.backspace();
    document.backspace();
    document.undo();
    assert_eq!(document.text().len(), initial + 500);
    document.undo();
    assert_eq!(document.text().len(), initial);
}

#[test]
fn composition_range_changes_undo_as_one_atomic_record() {
    let mut document = document_view();
    document.replace_text_in_range(None, "ab");
    document.set_selection(8..8, false);
    document.replace_and_mark_text_in_range(None, "ni", Some(2..2));
    document.replace_and_mark_text_in_range(Some(7..10), "hao", Some(3..3));
    document.replace_text_in_range(None, "好");
    assert_eq!(document.text(), "history好b");
    document.undo();
    assert_eq!(document.text(), "historyab");
    assert_eq!(document.selected_range(), 8..8);
    document.redo();
    assert_eq!(document.text(), "history好b");
    document.undo();
    document.undo();
    assert_eq!(document.text(), "history");
}

#[test]
fn undo_budget_evicts_oldest_records_and_keeps_recent_edits() {
    let mut history = DocumentUndoManager::new();
    for text in ["a", "bb", "ccc", "dddd"] {
        history.break_coalescing();
        history.record(
            UndoRecord::new(
                "draft",
                vec![UndoChange::new(0..0, String::new(), text.into())],
                None,
                None,
            ),
            EditOrigin::Paste,
        );
    }
    history.trim(3, 7);
    assert_eq!(
        history
            .undo_records()
            .iter()
            .map(UndoRecord::bytes)
            .collect::<Vec<_>>(),
        vec![3, 4]
    );
    history.trim(1, 7);
    assert_eq!(history.undo_records()[0].changes()[0].inserted(), "dddd");
    history.trim(1, 3);
    assert!(history.undo_records().is_empty());
    let mut reserved = String::with_capacity(1024);
    reserved.push('x');
    history.record(
        UndoRecord::new(
            "draft",
            vec![UndoChange::new(0..0, String::new(), reserved)],
            None,
            None,
        ),
        EditOrigin::Paste,
    );
    history.trim(1, 16);
    assert!(
        history.undo_records().is_empty(),
        "the budget must include reserved string capacity"
    );
}

#[test]
fn invalid_utf8_ranges_are_rejected_without_changing_document_state() {
    let mut document = document_view();
    let regions = || {
        vec![
            DocumentRegion::new("history", 0..3, EditPolicy::Readonly),
            DocumentRegion::new("draft", 3..7, EditPolicy::Editable),
        ]
    };
    document
        .reset(DocumentSnapshot::new(
            "中🙂",
            regions(),
            DocumentProjection::identity(7),
            vec![],
            DocumentStyles::default(),
        ))
        .unwrap();
    let revision = document.revision();
    let selection = document.selected_positions().unwrap();
    assert!(matches!(
        document.set_projection(
            DocumentProjection::new(7, vec![ProjectionSpan::hidden(1..2)]).unwrap(),
        ),
        Err(ProjectionError::InvalidBoundary(_))
    ));
    let invalid = || DocumentPosition::new("draft", 1, Affinity::After);
    assert!(matches!(
        document.set_selection_positions(invalid(), invalid()),
        Err(PositionError::InvalidBoundary { .. })
    ));
    assert!(matches!(
        document.position_for_offset(1, Affinity::After),
        Err(PositionError::InvalidBoundary { .. })
    ));
    let user = EditTransaction::new(
        revision,
        EditOrigin::User,
        vec![TextEdit::new(4..5, "x")],
        7,
    )
    .unwrap();
    assert_eq!(document.apply_transaction(user), EditDecision::Reject);
    let host = EditTransaction::new(
        revision,
        EditOrigin::Host,
        vec![TextEdit::new(0..1, "x")],
        7,
    )
    .unwrap();
    assert!(matches!(
        document.apply_host_transaction(host, regions(), None),
        Err(HostTransactionError::InvalidEditRange(_))
    ));
    let host = EditTransaction::new(
        revision,
        EditOrigin::Host,
        vec![TextEdit::new(0..0, "!")],
        7,
    )
    .unwrap();
    assert!(matches!(
        document.apply_host_transaction(
            host,
            vec![
                DocumentRegion::new("history", 0..5, EditPolicy::Readonly),
                DocumentRegion::new("draft", 5..8, EditPolicy::Editable)
            ],
            None
        ),
        Err(HostTransactionError::InvalidRegions(
            RegionError::InvalidBoundary { .. }
        ))
    ));
    assert!(matches!(
        DocumentModel::new(
            "中",
            vec![DocumentRegion::new("bad", 1..3, EditPolicy::Editable)]
        ),
        Err(RegionError::InvalidBoundary { .. })
    ));
    assert_eq!(document.revision(), revision);
    assert_eq!(document.text(), "中🙂");
    assert_eq!(document.selected_positions().unwrap(), selection);
    assert!(document.undo_manager().undo_records().is_empty());
}

#[test]
fn styles_follow_edits_and_undo_before_readonly_text() {
    let mut document = document_view();
    document
        .reset(DocumentSnapshot::new(
            "x\nHead\n",
            vec![
                DocumentRegion::new("draft", 0..2, EditPolicy::Editable),
                DocumentRegion::new("history", 2..7, EditPolicy::Readonly),
            ],
            DocumentProjection::identity(7),
            vec![],
            DocumentStyles::new(
                vec![DocumentParagraphStyle::new(
                    2..7,
                    TextStyleRefinement { handle: 0 },
                )],
                vec![DocumentInlineStyle::new(
                    2..6,
                    HighlightStyle { handle: 1 },
                )],
            ),
        ))
        .unwrap();
    document.replace_text_in_range(None, "zz\n");
    assert_eq!(document.model().styles().inline()[0].source(), 5..9);
    assert_eq!(
        document.model().resolved_styles().inline()[0].display(),
        5..9
    );
    assert_eq!(document.model().styles().paragraphs()[0].source(), 5..10);
    document.undo();
    assert_eq!(document.text(), "x\nHead\n");
    assert_eq!(document.model().styles().inline()[0].source(), 2..6);
    document.redo();
    assert_eq!(document.model().styles().inline()[0].source(), 5..9);
    let revision = document.revision();
    // Removing the paragraph boundary cannot leave partially updated styles.
    document.replace_text_in_range(Some(4..5), "");
    assert_eq!(document.text(), "zz\nx\nHead\n");
    assert_eq!(document.revision(), revision);
    assert_eq!(document.model().styles().inline()[0].source(), 5..9);
}

#[test]
fn ime_refinement_replaces_one_marked_range() {
    let mut document = document_view();
    document.replace_and_mark_text_in_range(None, "n", Some(1..1));
    document.replace_and_mark_text_in_range(None, "ni", Some(2..2));
    document.replace_text_in_range(None, "你");

    assert_eq!(document.text(), "history你");
    assert_eq!(document.marked_text_range(), None);
    assert_eq!(document.selected_range(), 10..10);
    assert_eq!(document.text_input_editable_range(), Some(7..8));
}

#[test]
fn host_insertion_preserves_draft_selection_and_user_undo() {
    let mut document = document_view();
    document.replace_text_in_range(None, "draft");
    let host = EditTransaction::new(
        document.revision(),
        EditOrigin::Host,
        vec![TextEdit::new(7..7, "stream ")],
        document.text().len(),
    )
    .unwrap();
    document
        .apply_host_transaction(
            host,
            vec![
                DocumentRegion::new("history", 0..14, EditPolicy::Readonly),
                DocumentRegion::new("draft", 14..19, EditPolicy::Editable),
            ],
            None,
        )
        .unwrap();

    assert_eq!(document.text(), "historystream draft");
    assert_eq!(document.selected_range(), 19..19);
    document.undo();
    assert_eq!(document.text(), "historystream ");
    assert_eq!(document.regions()[1].range(), 14..14);
    assert_eq!(document.selected_range(), 14..14);
    document.redo();
    assert_eq!(document.text(), "historystream draft");
    assert_eq!(document.selected_range(), 19..19);
}

#[test]
fn host_insertion_preserves_an_active_ime_range() {
    let mut document = document_view();
    document.replace_and_mark_text_in_range(None, "ni", Some(2..2));
    let host = EditTransaction::new(
        document.revision(),
        EditOrigin::Host,
        vec![TextEdit::new(7..7, "stream ")],
        document.text().len(),
    )
    .unwrap();
    document
        .apply_host_transaction(
            host,
            vec![
                DocumentRegion::new("history", 0..14, EditPolicy::Readonly),
                DocumentRegion::new("draft", 14..16, EditPolicy::Editable),
            ],
            None,
        )
        .unwrap();

    assert_eq!(document.marked_text_range(), Some(14..16));
    document.replace_text_in_range(None, "你");
    assert_eq!(document.text(), "historystream 你");
    document.undo();
    assert_eq!(document.text(), "historystream ");
}

#[test]
fn host_transaction_cannot_touch_editable_content() {
    let mut document = document_view();
    document.replace_text_in_range(None, "draft");
    let host = EditTransaction::new(
        document.revision(),
        EditOrigin::Host,
        vec![TextEdit::new(7..8, "D")],
        document.text().len(),
    )
    .unwrap();
    assert_eq!(
        document.apply_host_transaction(
            host,
            vec![
                DocumentRegion::new("history", 0..7, EditPolicy::Readonly),
                DocumentRegion::new("draft", 7..12, EditPolicy::Editable),
            ],
            None,
        ),
        Err(HostTransactionError::TouchesEditableRegion)
    );
    assert_eq!(document.text(), "historydraft");
}

#[test]
fn stale_host_transaction_is_rejected() {
    let mut document = document_view();
    let stale = EditTransaction::new(
        document.revision(),
        EditOrigin::Host,
        vec![TextEdit::new(0..0, "old")],
        document.text().len(),
    )
    .unwrap();
    document.replace_text_in_range(None, "draft");
    assert_eq!(
        document.apply_host_transaction(
            stale,
            vec![
                DocumentRegion::new("history", 0..10, EditPolicy::Readonly),
                DocumentRegion::new("draft", 10..15, EditPolicy::Editable),
            ],
            None,
        ),
        Err(HostTransactionError::StaleRevision)
    );
}

#[test]
fn host_transactions_name_each_other_fault() {
    let mut document = document_view();
    document.replace_text_in_range(None, "draft");
    let edit = |document: &DocumentState<&'static str>, origin: EditOrigin| {
        EditTransaction::new(
            document.revision(),
            origin,
            vec![TextEdit::new(0..1, "H")],
            document.text().len(),
        )
        .unwrap()
    };
    let history = |end: usize| DocumentRegion::new("history", 0..end, EditPolicy::Readonly);
    let user = edit(&document, EditOrigin::User);
    let draft = |range: std::ops::Range<usize>| DocumentRegion::new("draft", range, EditPolicy::Editable);
    assert_eq!(
        document.apply_host_transaction(user, vec![history(7), draft(7..12)], None),
        Err(HostTransactionError::InvalidOrigin)
    );
    let host = edit(&document, EditOrigin::Host);
    assert_eq!(
        document.apply_host_transaction(host, vec![history(8), draft(7..12)], None),
        Err(HostTransactionError::InvalidRegions(RegionError::Overlap {
            left: 0,
            right: 1
        }))
    );
    let host = edit(&document, EditOrigin::Host);
    assert_eq!(
        document.apply_host_transaction(host, vec![history(6), draft(6..11)], None),
        Err(HostTransactionError::EditableRegionsChanged)
    );
    let host = edit(&document, EditOrigin::Host);
    assert_eq!(
        document.apply_host_transaction_with_projection(
            host,
            vec![history(7), draft(7..12)],
            DocumentProjection::new(12, vec![ProjectionSpan::hidden(8..9)]).unwrap(),
            None
        ),
        Err(HostTransactionError::InvalidProjection(
            ProjectionError::EditableOverlap(8..9)
        ))
    );
    let host = edit(&document, EditOrigin::Host);
    assert_eq!(
        document.apply_host_transaction_with_presentation(
            host,
            vec![history(7), draft(7..12)],
            DocumentProjection::identity(12),
            vec![DocumentBlock::new("history", 0..7)],
            None
        ),
        Err(HostTransactionError::InvalidBlocks(
            BlockError::MissingRenderer
        ))
    );
    let host = edit(&document, EditOrigin::Host);
    assert_eq!(
        document.apply_host_transaction_with_rich_presentation(
            host,
            vec![history(7), draft(7..12)],
            DocumentProjection::identity(12),
            vec![],
            DocumentStyles::new(
                vec![],
                vec![DocumentInlineStyle::new(
                    7..9,
                    HighlightStyle { handle: 1 }
                )]
            ),
            None
        ),
        Err(HostTransactionError::InvalidStyles(
            DocumentStyleError::EditableRange(7..9)
        ))
    );
    assert_eq!(document.text(), "historydraft");
}

#[test]
fn projection_maps_pointer_selection_and_draft_edits() {
    let mut document = document_view();
    document
        .set_projection(
            DocumentProjection::new(document.text().len(), vec![ProjectionSpan::hidden(0..3)])
                .unwrap(),
        )
        .unwrap();
    assert_eq!(document.display_text(), "tory");
    let hit = document.text_position_in_row(0, &(0..4), 1);
    assert_eq!(document.offset_for_position(hit.as_ref()), 4);
    assert_eq!(
        document.position_for_offset(7, Affinity::Before).unwrap(),
        DocumentPosition::new("history", 7, Affinity::Before)
    );
    assert_eq!(
        document.position_for_offset(7, Affinity::After).unwrap(),
        DocumentPosition::new("draft", 0, Affinity::After)
    );

    document.replace_text_in_range(None, "x");
    assert_eq!(document.text(), "historyx");
    assert_eq!(document.display_text(), "toryx");
    assert_eq!(document.segment_paint_snapshot(0, &(0..5)).1, Some(5));
}

#[test]
fn rich_presentation_maps_paragraph_and_inline_styles_through_projection() {
    const SOURCE: &str = "# Head\nplain **bold**\n";
    let source_len = SOURCE.len();
    let mut document = DocumentState::new(
        SOURCE,
        vec![
            DocumentRegion::new("history", 0..source_len, EditPolicy::Readonly),
            DocumentRegion::new("draft", source_len..source_len, EditPolicy::Editable),
        ],
    )
    .unwrap();
    document
        .set_rich_presentation(
            DocumentProjection::new(
                source_len,
                vec![
                    ProjectionSpan::hidden(0..2),
                    ProjectionSpan::hidden(13..15),
                    ProjectionSpan::hidden(19..21),
                ],
            )
            .unwrap(),
            Vec::new(),
            DocumentStyles::new(
                vec![DocumentParagraphStyle::new(
                    0..7,
                    TextStyleRefinement { handle: 24 },
                )],
                vec![DocumentInlineStyle::new(
                    15..19,
                    HighlightStyle { handle: 7 },
                )],
            ),
        )
        .unwrap();
    assert_eq!(document.display_text(), "Head\nplain bold\n");
    let DocumentLayoutItem::Text { presentation, .. } = &document.layout_items()[0] else {
        panic!("first item must be text");
    };
    assert_eq!(
        presentation.text_style,
        Some(TextStyleRefinement { handle: 24 })
    );
    let DocumentLayoutItem::Text { presentation, .. } = &document.layout_items()[1] else {
        panic!("second item must be text");
    };
    assert_eq!(presentation.highlights.len(), 1);
    assert_eq!(presentation.highlights[0].0, 6..10);
    assert_eq!(presentation.highlights[0].1, HighlightStyle { handle: 7 });
}

#[test]
fn styled_host_updates_require_the_next_style_descriptors() {
    let mut document = document_view();
    document
        .set_rich_presentation(
            DocumentProjection::identity(7),
            Vec::new(),
            DocumentStyles::new(
                vec![DocumentParagraphStyle::new(
                    0..7,
                    TextStyleRefinement { handle: 0 },
                )],
                Vec::new(),
            ),
        )
        .unwrap();
    let transaction = |document: &DocumentState<&'static str>| {
        EditTransaction::new(
            document.revision(),
            EditOrigin::Host,
            vec![TextEdit::new(0..0, "x")],
            document.text().len(),
        )
        .unwrap()
    };
    let regions = || {
        vec![
            DocumentRegion::new("history", 0..8, EditPolicy::Readonly),
            DocumentRegion::new("draft", 8..8, EditPolicy::Editable),
        ]
    };
    let host = transaction(&document);
    assert_eq!(
        document.apply_host_transaction(host, regions(), None),
        Err(HostTransactionError::StylesRequired)
    );
    let host = transaction(&document);
    document
        .apply_host_transaction_with_rich_presentation(
            host,
            regions(),
            DocumentProjection::identity(8),
            Vec::new(),
            DocumentStyles::new(
                vec![DocumentParagraphStyle::new(
                    0..8,
                    TextStyleRefinement { handle: 0 },
                )],
                Vec::new(),
            ),
            None,
        )
        .unwrap();
    assert_eq!(document.text(), "xhistory");
}

#[test]
fn projection_cannot_replace_editable_source() {
    let mut document = document_view();
    document.replace_text_in_range(None, "x");
    assert_eq!(
        document.set_projection(
            DocumentProjection::new(document.text().len(), vec![ProjectionSpan::hidden(7..8)])
                .unwrap(),
        ),
        Err(ProjectionError::EditableOverlap(7..8))
    );
    assert_eq!(document.display_text(), "historyx");
}

#[test]
fn projected_host_update_requires_the_next_projection() {
    let mut document = document_view();
    document
        .set_projection(
            DocumentProjection::new(document.text().len(), vec![ProjectionSpan::hidden(0..3)])
                .unwrap(),
        )
        .unwrap();
    let revision = document.revision();
    let source_len = document.text().len();
    let host = || {
        EditTransaction::new(
            revision,
            EditOrigin::Host,
            vec![TextEdit::new(0..0, "new")],
            source_len,
        )
        .unwrap()
    };
    let regions = || {
        vec![
            DocumentRegion::new("history", 0..10, EditPolicy::Readonly),
            DocumentRegion::new("draft", 10..10, EditPolicy::Editable),
        ]
    };

    assert_eq!(
        document.apply_host_transaction(host(), regions(), None),
        Err(HostTransactionError::ProjectionRequired)
    );
    document
        .apply_host_transaction_with_projection(
            host(),
            regions(),
            DocumentProjection::new(10, vec![ProjectionSpan::hidden(3..6)]).unwrap(),
            None,
        )
        .unwrap();
    assert_eq!(document.text(), "newhistory");
    assert_eq!(document.display_text(), "newtory");
}

#[test]
fn inline_blocks_require_a_renderer_and_hidden_atomic_source() {
    let mut document = DocumentState::new(
        "abc",
        vec![DocumentRegion::new("tool", 0..3, EditPolicy::Atomic)],
    )
    .unwrap();
    let projection = || DocumentProjection::new(3, vec![ProjectionSpan::hidden(0..3)]).unwrap();
    assert_eq!(
        document.set_presentation(projection(), vec![DocumentBlock::new("tool", 0..3)]),
        Err(PresentationError::Blocks(BlockError::MissingRenderer))
    );
    document.set_block_renderer();
    assert_eq!(
        document.set_presentation(
            DocumentProjection::identity(3),
            vec![DocumentBlock::new("tool", 0..3)],
        ),
        Err(PresentationError::Blocks(BlockError::VisibleSource(0..3)))
    );
    document
        .set_presentation(projection(), vec![DocumentBlock::new("tool", 0..3)])
        .unwrap();
    assert_eq!(
        document.set_projection(DocumentProjection::identity(3)),
        Err(ProjectionError::BlocksRequirePresentation)
    );
}

#[test]
fn host_updates_with_blocks_require_and_install_the_next_presentation() {
    let mut document = DocumentState::new(
        "A\u{fffc}draft",
        vec![
            DocumentRegion::new("history", 0..1, EditPolicy::Readonly),
            DocumentRegion::new("tool", 1..4, EditPolicy::Atomic),
            DocumentRegion::new("draft", 4..9, EditPolicy::Editable),
        ],
    )
    .unwrap();
    document.set_block_renderer();
    document
        .set_presentation(
            DocumentProjection::new(9, vec![ProjectionSpan::hidden(1..4)]).unwrap(),
            vec![DocumentBlock::new("tool", 1..4)],
        )
        .unwrap();
    let transaction = |document: &DocumentState<&'static str>| {
        EditTransaction::new(
            document.revision(),
            EditOrigin::Host,
            vec![TextEdit::new(0..0, "Z")],
            document.text().len(),
        )
        .unwrap()
    };
    let regions = || {
        vec![
            DocumentRegion::new("history", 0..2, EditPolicy::Readonly),
            DocumentRegion::new("tool", 2..5, EditPolicy::Atomic),
            DocumentRegion::new("draft", 5..10, EditPolicy::Editable),
        ]
    };
    let host = transaction(&document);
    assert_eq!(
        document.apply_host_transaction(host, regions(), None),
        Err(HostTransactionError::ProjectionRequired)
    );
    let host = transaction(&document);
    assert_eq!(
        document.apply_host_transaction_with_projection(
            host,
            regions(),
            DocumentProjection::new(10, vec![ProjectionSpan::hidden(2..5)]).unwrap(),
            None
        ),
        Err(HostTransactionError::BlocksRequired)
    );
    let host = transaction(&document);
    document
        .apply_host_transaction_with_presentation(
            host,
            regions(),
            DocumentProjection::new(10, vec![ProjectionSpan::hidden(2..5)]).unwrap(),
            vec![DocumentBlock::new("tool", 2..5)],
            None,
        )
        .unwrap();
    assert_eq!(document.text(), "ZA\u{fffc}draft");
    assert_eq!(document.display_text(), "ZAdraft");
    assert_eq!(document.model().blocks()[0].source(), 2..5);
}

#[test]
fn scroll_pins_check_their_position_and_fraction() {
    let mut document = document_view();
    let place = DocumentPosition::new("history", 3, Affinity::After);
    assert_eq!(
        document.pin_scroll("turn", &place, 1.5f32.to_bits()),
        Err(ScrollPinError::InvalidViewportFraction)
    );
    assert_eq!(
        document.pin_scroll("turn", &place, f32::NAN.to_bits()),
        Err(ScrollPinError::InvalidViewportFraction)
    );
    assert_eq!(
        document.pin_scroll(
            "turn",
            &DocumentPosition::new("gone", 0, Affinity::After),
            0.5f32.to_bits()
        ),
        Err(ScrollPinError::InvalidPosition(PositionError::NodeNotFound))
    );
    document.pin_scroll("turn", &place, 0.5f32.to_bits()).unwrap();
    assert_eq!(document.pinned_place(), Some((3, 3, 0)));
    assert_eq!(
        document.pinned_fraction(),
        Some((Affinity::After, 0.5f32.to_bits()))
    );
    assert!(!document.unpin_scroll(&"other"));
    document.take_effects();
    document.scrolled();
    assert_eq!(document.pinned_scroll_id(), None);
    assert_eq!(
        document.take_effects(),
        vec![
            DocumentEffect::Emit(DocumentEvent::StopFollowingRequested { pin_id: "turn" }),
            DocumentEffect::Notify
        ]
    );
}

#[test]
fn a_pinned_place_moves_with_what_the_host_inserts() {
    let mut document = document_view();
    let place = DocumentPosition::new("history", 3, Affinity::After);
    document.pin_scroll("turn", &place, 0f32.to_bits()).unwrap();
    let host = EditTransaction::new(
        document.revision(),
        EditOrigin::Host,
        vec![TextEdit::new(0..0, "old ")],
        document.text().len(),
    )
    .unwrap();
    document
        .apply_host_transaction(
            host,
            vec![
                DocumentRegion::new("history", 0..11, EditPolicy::Readonly),
                DocumentRegion::new("draft", 11..11, EditPolicy::Editable),
            ],
            None,
        )
        .unwrap();
    assert_eq!(document.pinned_place(), Some((7, 7, 0)));
}

fn transcript() -> DocumentState<&'static str> {
    let mut document = DocumentState::new(
        "one\ntwo\nthree\ndraft",
        vec![
            DocumentRegion::new("one", 0..4, EditPolicy::Readonly),
            DocumentRegion::new("two", 4..8, EditPolicy::Readonly),
            DocumentRegion::new("three", 8..14, EditPolicy::Routed),
            DocumentRegion::new("draft", 14..19, EditPolicy::Editable),
        ],
    )
    .unwrap();
    document.set_selection(16..18, false);
    document
}

fn fragment(text: &str, regions: Vec<DocumentRegion<&'static str>>) -> DocumentSnapshot<&'static str> {
    DocumentSnapshot::new(
        text,
        regions,
        DocumentProjection::identity(text.len()),
        vec![],
        DocumentStyles::default(),
    )
}

#[test]
fn a_splice_replaces_nodes_and_keeps_the_draft() {
    let mut document = transcript();
    document.set_selection(19..19, false);
    document.replace_text_in_range(None, "!");
    document.set_selection(16..18, false);
    document.take_effects();
    document
        .apply_host_splice(
            document.revision(),
            Some(&"two"),
            Some(&"three"),
            fragment(
                "2\n2.5\n",
                vec![
                    DocumentRegion::new("two", 0..2, EditPolicy::Readonly),
                    DocumentRegion::new("half", 2..6, EditPolicy::Readonly),
                ],
            ),
            None,
        )
        .unwrap();
    assert_eq!(document.text(), "one\n2\n2.5\nthree\ndraft!");
    assert_eq!(document.display_text(), document.text());
    assert_eq!(document.region(&"half").unwrap().range(), 6..10);
    assert_eq!(document.region(&"draft").unwrap().range(), 16..22);
    assert_eq!(document.selected_range(), 18..20);
    let rows: Vec<_> = document
        .layout_items()
        .iter()
        .map(|item| match item {
            DocumentLayoutItem::Text { text, .. } => text.as_str(),
            _ => "",
        })
        .collect();
    assert_eq!(rows, vec!["one", "2", "2.5", "three", "draft!"]);
    assert!(document
        .take_effects()
        .contains(&DocumentEffect::SpliceItems {
            from: 1,
            to: 2,
            count: 2
        }));
    document.undo();
    assert_eq!(document.text(), "one\n2\n2.5\nthree\ndraft");
}

#[test]
fn a_splice_inserts_at_equal_boundaries_and_deletes_without_text() {
    let mut document = transcript();
    document
        .apply_host_splice(
            document.revision(),
            Some(&"one"),
            Some(&"one"),
            fragment(
                "zero\n",
                vec![DocumentRegion::new("zero", 0..5, EditPolicy::Readonly)],
            ),
            None,
        )
        .unwrap();
    assert_eq!(document.text(), "zero\none\ntwo\nthree\ndraft");
    document
        .apply_host_splice(
            document.revision(),
            Some(&"one"),
            Some(&"draft"),
            fragment("", vec![]),
            None,
        )
        .unwrap();
    assert_eq!(document.text(), "zero\ndraft");
    assert_eq!(document.selected_range(), 7..9);
}

#[test]
fn a_splice_that_does_not_fit_changes_nothing() {
    let mut document = transcript();
    let stale = document.revision();
    document.set_selection(19..19, false);
    document.replace_text_in_range(None, "!");
    let text = document.text();
    let node = || {
        fragment(
            "2\n",
            vec![DocumentRegion::new("two", 0..2, EditPolicy::Readonly)],
        )
    };
    assert_eq!(
        document.apply_host_splice(stale, Some(&"two"), Some(&"three"), node(), None),
        Err(HostTransactionError::StaleRevision)
    );
    let revision = document.revision();
    assert_eq!(
        document.apply_host_splice(revision, Some(&"gone"), Some(&"three"), node(), None),
        Err(HostTransactionError::FragmentBoundary)
    );
    assert_eq!(
        document.apply_host_splice(revision, Some(&"three"), Some(&"two"), node(), None),
        Err(HostTransactionError::FragmentBoundary)
    );
    assert_eq!(
        document.apply_host_splice(revision, Some(&"two"), None, node(), None),
        Err(HostTransactionError::FragmentBoundary)
    );
    assert_eq!(
        document.apply_host_splice(
            revision,
            Some(&"two"),
            Some(&"three"),
            fragment(
                "2\n",
                vec![DocumentRegion::new("two", 0..2, EditPolicy::Editable)]
            ),
            None
        ),
        Err(HostTransactionError::FragmentBoundary)
    );
    assert_eq!(
        document.apply_host_splice(
            revision,
            Some(&"two"),
            Some(&"three"),
            fragment(
                "2",
                vec![DocumentRegion::new("two", 0..1, EditPolicy::Readonly)]
            ),
            None
        ),
        Err(HostTransactionError::FragmentBoundary)
    );
    assert_eq!(
        document.apply_host_splice(
            revision,
            Some(&"two"),
            Some(&"three"),
            fragment(
                "2\n",
                vec![DocumentRegion::new("one", 0..2, EditPolicy::Readonly)]
            ),
            None
        ),
        Err(HostTransactionError::InvalidFragment(
            PresentationError::Regions(RegionError::DuplicateId { index: 1 })
        ))
    );
    assert_eq!(
        document.apply_host_splice(
            revision,
            Some(&"two"),
            Some(&"three"),
            fragment(
                "2\n",
                vec![DocumentRegion::new("two", 0..9, EditPolicy::Readonly)]
            ),
            None
        ),
        Err(HostTransactionError::InvalidFragment(
            PresentationError::Regions(RegionError::OutOfBounds {
                index: 0,
                source_len: 2
            })
        ))
    );
    assert_eq!(document.text(), text);
    assert_eq!(document.revision(), revision);
}

#[test]
fn anchored_rows_stand_behind_lines_and_follow_a_splice() {
    let mut document = transcript();
    let row = |id: &'static str, node: &'static str, offset: usize| {
        AnchoredBlock::new(id, DocumentPosition::new(node, offset, Affinity::Before))
    };
    let show = |document: &mut DocumentState<&'static str>, rows: Vec<AnchoredBlock<&'static str>>| {
        document.set_rich_presentation_with_anchors(
            DocumentProjection::identity(19),
            vec![],
            rows,
            DocumentStyles::default(),
        )
    };
    let fault = |error: AnchoredBlockError| Err(PresentationError::AnchoredBlocks(error));
    assert_eq!(
        show(&mut document, vec![row("tool", "two", 4)]),
        fault(AnchoredBlockError::MissingRenderer)
    );
    document.set_block_renderer();
    assert_eq!(
        show(&mut document, vec![row("one", "two", 4)]),
        fault(AnchoredBlockError::DuplicateId)
    );
    assert_eq!(
        show(&mut document, vec![row("tool", "two", 2)]),
        fault(AnchoredBlockError::NotLineBoundary)
    );
    assert_eq!(
        show(&mut document, vec![row("tool", "draft", 0)]),
        fault(AnchoredBlockError::EditableRegion)
    );
    assert_eq!(
        show(&mut document, vec![row("tool", "gone", 0)]),
        fault(AnchoredBlockError::InvalidPosition(
            PositionError::NodeNotFound
        ))
    );
    show(&mut document, vec![row("tool", "three", 6)]).unwrap();
    let at = |document: &DocumentState<&'static str>| {
        document
            .layout_items()
            .iter()
            .position(|item| matches!(item, DocumentLayoutItem::AnchoredBlock { .. }))
    };
    assert_eq!(at(&document), Some(3));
    document
        .apply_host_splice(
            document.revision(),
            Some(&"one"),
            Some(&"two"),
            fragment("", vec![]),
            None,
        )
        .unwrap();
    assert_eq!(at(&document), Some(2));
    assert_eq!(document.model().anchored_blocks().len(), 1);
}

#[test]
fn a_dynamic_trailer_is_the_last_row() {
    let mut document = document_view();
    assert_eq!(document.trailer_row(), None);
    document.set_dynamic_trailer(true);
    assert!(document.has_dynamic_trailer());
    assert_eq!(document.trailer_row(), Some(document.layout_items().len() - 1));
    assert_eq!(
        document.end_position(),
        Some(DocumentPosition::new("draft", 0, Affinity::After))
    );
    document.set_dynamic_trailer(false);
    assert_eq!(document.trailer_row(), None);
}
