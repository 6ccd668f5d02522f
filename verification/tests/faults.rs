//! What is refused, and what the view and the host are told.

use gpui_base::document::{
    Affinity, DocumentEditRejection, DocumentEffect, DocumentEvent, DocumentInlineStyle,
    DocumentParagraphStyle, DocumentPosition, DocumentProjection, DocumentRegion,
    DocumentSnapshot, DocumentState, DocumentStyleError, DocumentStyles, EditDecision, EditOrigin,
    EditPolicy, EditTransaction, HighlightStyle, PositionError, PresentationError,
    ProjectionError, ProjectionSpan, TextEdit, TextStyleRefinement,
};

fn mixed() -> DocumentState<&'static str> {
    DocumentState::new(
        "中ab\u{fffc}old\ndraft",
        vec![
            DocumentRegion::new("history", 0..5, EditPolicy::Readonly),
            DocumentRegion::new("object", 5..8, EditPolicy::Atomic),
            DocumentRegion::new("turn", 8..12, EditPolicy::Routed),
            DocumentRegion::new("draft", 12..17, EditPolicy::Editable),
        ],
    )
    .unwrap()
}

fn inline(ranges: &[std::ops::Range<usize>]) -> DocumentStyles {
    DocumentStyles::new(
        vec![],
        ranges
            .iter()
            .map(|range| DocumentInlineStyle::new(range.clone(), HighlightStyle { handle: 0 }))
            .collect(),
    )
}

fn show(
    document: &mut DocumentState<&'static str>,
    styles: DocumentStyles,
) -> Result<(), PresentationError> {
    let projection = DocumentProjection::identity(document.text().len());
    document.set_rich_presentation(projection, vec![], styles)
}

#[test]
fn styles_name_each_fault() {
    let mut document = mixed();
    let mut fault = |ranges: &[std::ops::Range<usize>]| match show(&mut document, inline(ranges)) {
        Err(PresentationError::Styles(error)) => Some(error),
        Err(error) => panic!("{error:?}"),
        Ok(()) => None,
    };
    assert_eq!(
        fault(&[3..18]),
        Some(DocumentStyleError::OutOfBounds {
            range: 3..18,
            source_len: 17
        })
    );
    assert_eq!(fault(&[1..4]), Some(DocumentStyleError::InvalidBoundary(1..4)));
    assert_eq!(
        fault(&[3..5, 0..4]),
        Some(DocumentStyleError::Overlap(3..5))
    );
    assert_eq!(fault(&[4..8]), Some(DocumentStyleError::AtomicRange(4..8)));
    assert_eq!(
        fault(&[8..13]),
        Some(DocumentStyleError::EditableRange(8..13))
    );
    assert_eq!(fault(&[3..5, 0..3, 8..12]), None);
    let paragraph = DocumentStyles::new(
        vec![DocumentParagraphStyle::new(
            3..5,
            TextStyleRefinement { handle: 0 },
        )],
        vec![],
    );
    assert_eq!(
        show(&mut document, paragraph),
        Err(PresentationError::Styles(
            DocumentStyleError::ParagraphBoundary(3..5)
        ))
    );
}

#[test]
fn snapshots_name_each_part_that_does_not_fit() {
    let mut document = mixed();
    let snapshot = |projection: DocumentProjection| {
        DocumentSnapshot::new(
            "new",
            vec![DocumentRegion::new("new", 0..3, EditPolicy::Editable)],
            projection,
            vec![],
            DocumentStyles::default(),
        )
    };
    assert_eq!(
        document.reset(snapshot(DocumentProjection::identity(4))),
        Err(PresentationError::Projection(
            ProjectionError::SourceLength {
                expected: 3,
                actual: 4
            }
        ))
    );
    assert_eq!(
        document.reset(
            snapshot(DocumentProjection::identity(3)).selection(DocumentPosition::new(
                "gone",
                0,
                Affinity::After
            ))
        ),
        Err(PresentationError::Position(PositionError::NodeNotFound))
    );
    assert_eq!(document.text(), "中ab\u{fffc}old\ndraft");
    document.take_effects();
    document
        .reset(snapshot(DocumentProjection::identity(3)))
        .unwrap();
    assert_eq!(
        document.take_effects(),
        vec![
            DocumentEffect::StopAutoScroll,
            DocumentEffect::ForgetColumn,
            DocumentEffect::ResetItems(1),
            DocumentEffect::Emit(DocumentEvent::PresentationChanged),
            DocumentEffect::Emit(DocumentEvent::SelectionChanged),
            DocumentEffect::Notify,
        ]
    );
}

#[test]
fn positions_outside_the_text_have_no_place() {
    let document = mixed();
    assert_eq!(
        document.position_for_offset(18, Affinity::After),
        Err(PositionError::SourceOffsetOutOfBounds {
            offset: 18,
            source_len: 17
        })
    );
    assert_eq!(
        document.position_for_offset(1, Affinity::After),
        Err(PositionError::InvalidBoundary { offset: 1 })
    );
    assert_eq!(
        document.resolve_position(&DocumentPosition::new("draft", 6, Affinity::After)),
        Err(PositionError::NodeOffsetOutOfBounds {
            offset: 6,
            node_len: 5
        })
    );
}

#[test]
fn the_host_is_told_what_became_of_an_edit() {
    let mut document = mixed();
    let transaction = |document: &DocumentState<&'static str>,
                       origin: EditOrigin,
                       range: std::ops::Range<usize>| {
        EditTransaction::new(
            document.revision(),
            origin,
            vec![TextEdit::new(range, "x")],
            document.text().len(),
        )
        .unwrap()
    };
    let host = transaction(&document, EditOrigin::Host, 12..12);
    assert_eq!(document.apply_transaction(host), EditDecision::Reject);
    assert_eq!(
        document.take_effects(),
        vec![DocumentEffect::Emit(DocumentEvent::Rejected(
            DocumentEditRejection::InvalidOrigin
        ))]
    );
    let routed = transaction(&document, EditOrigin::User, 9..10);
    assert_eq!(
        document.apply_transaction(routed),
        EditDecision::Route("turn")
    );
    match document.take_effects().as_slice() {
        [DocumentEffect::Emit(DocumentEvent::Routed(edit))] => {
            assert_eq!(edit.region_id(), &"turn");
            assert_eq!(edit.transaction().edits()[0].range(), 9..10);
        }
        other => panic!("{other:?}"),
    }
    assert_eq!(document.text(), "中ab\u{fffc}old\ndraft");
    let user = transaction(&document, EditOrigin::User, 12..17);
    assert_eq!(document.apply_transaction(user), EditDecision::Apply);
    assert_eq!(document.text(), "中ab\u{fffc}old\nx");
    let changed = DocumentEvent::Changed {
        revision: document.revision(),
        origin: EditOrigin::User,
    };
    assert!(document
        .take_effects()
        .contains(&DocumentEffect::Emit(changed)));
}

#[test]
fn an_edit_that_would_leave_a_paragraph_without_its_lines_is_refused() {
    let mut document = DocumentState::new(
        "x\nHead\n",
        vec![
            DocumentRegion::new("draft", 0..2, EditPolicy::Editable),
            DocumentRegion::new("history", 2..7, EditPolicy::Readonly),
        ],
    )
    .unwrap();
    let paragraph = DocumentStyles::new(
        vec![DocumentParagraphStyle::new(
            2..7,
            TextStyleRefinement { handle: 0 },
        )],
        vec![],
    );
    show(&mut document, paragraph).unwrap();
    document.take_effects();
    document.replace_text_in_range(Some(1..2), "");
    assert_eq!(
        document.take_effects(),
        vec![DocumentEffect::Emit(DocumentEvent::Rejected(
            DocumentEditRejection::InvalidPresentation
        ))]
    );
    assert_eq!(document.text(), "x\nHead\n");
}

#[test]
fn a_new_projection_and_a_lost_trailer_are_told() {
    let mut document = mixed();
    document
        .set_projection(
            DocumentProjection::new(17, vec![ProjectionSpan::hidden(3..5)]).unwrap(),
        )
        .unwrap();
    assert!(document
        .take_effects()
        .contains(&DocumentEffect::Emit(DocumentEvent::ProjectionChanged)));
    document.set_dynamic_trailer(true);
    document.take_effects();
    document.set_dynamic_trailer(false);
    assert!(document
        .take_effects()
        .contains(&DocumentEffect::ForgetTrailer));
}
