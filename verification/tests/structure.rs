//! Regions, transactions, projections and blocks.

use gpui_base::actions::Confirm;
use gpui_base::document::{
    transform_offset, validate_blocks, Affinity, AnchorBias, AnchoredBlockError, BlockError,
    DocumentBlock, DocumentProjection, DocumentRegion, DocumentRegions, DocumentRevision,
    DocumentStyleError, EditOrigin, EditPolicy, EditTransaction, HostTransactionError,
    PositionError, PresentationError, ProjectionError, ProjectionMap, ProjectionMapping,
    ProjectionSpan, RegionError, ScrollPinError, TextEdit, TransactionError,
};
use gpui_base::text::SourceText;

#[test]
fn confirm_keeps_its_secondary_payload() {
    assert!(Confirm { secondary: true }.secondary);
    assert!(!Confirm { secondary: false }.secondary);
}

#[test]
fn regions_are_sorted_and_allow_a_trailing_empty_draft() {
    let regions = DocumentRegions::new(
        vec![
            DocumentRegion::new("draft", 8..8, EditPolicy::Editable),
            DocumentRegion::new("history", 0..8, EditPolicy::Readonly),
        ],
        8,
    )
    .unwrap();

    assert_eq!(regions.as_slice()[0].id(), &"history");
    assert_eq!(regions.as_slice()[1].id(), &"draft");
}

#[test]
fn readonly_zero_width_anchor_is_allowed_between_regions() {
    let regions = DocumentRegions::new(
        vec![
            DocumentRegion::new("before", 0..4, EditPolicy::Readonly),
            DocumentRegion::new("empty", 4..4, EditPolicy::Readonly),
            DocumentRegion::new("after", 4..8, EditPolicy::Readonly),
            DocumentRegion::new("draft", 8..8, EditPolicy::Editable),
        ],
        8,
    )
    .unwrap();

    assert_eq!(regions.as_slice()[1].id(), &"empty");
}

#[test]
fn overlapping_regions_are_rejected() {
    let error = DocumentRegions::new(
        vec![
            DocumentRegion::new(1, 0..5, EditPolicy::Readonly),
            DocumentRegion::new(2, 4..8, EditPolicy::Editable),
        ],
        8,
    )
    .unwrap_err();

    assert_eq!(error, RegionError::Overlap { left: 0, right: 1 });
}

#[test]
fn duplicate_ids_are_rejected() {
    let error = DocumentRegions::new(
        vec![
            DocumentRegion::new(1, 0..4, EditPolicy::Readonly),
            DocumentRegion::new(1, 4..8, EditPolicy::Editable),
        ],
        8,
    )
    .unwrap_err();

    assert_eq!(error, RegionError::DuplicateId { index: 1 });
}

#[test]
fn regions_out_of_order_or_bounds_are_rejected() {
    let backwards = std::ops::Range { start: 5, end: 3 };
    let invalid = DocumentRegions::new(
        vec![DocumentRegion::new(1, backwards, EditPolicy::Readonly)],
        8,
    );
    assert_eq!(
        invalid.unwrap_err(),
        RegionError::InvalidRange { index: 0 }
    );
    let outside = DocumentRegions::new(vec![DocumentRegion::new(1, 3..9, EditPolicy::Readonly)], 8);
    assert_eq!(
        outside.unwrap_err(),
        RegionError::OutOfBounds {
            index: 0,
            source_len: 8
        }
    );
}

#[test]
fn transaction_sorts_edits_into_application_order() {
    let transaction = EditTransaction::new(
        DocumentRevision::initial(),
        EditOrigin::User,
        vec![TextEdit::new(1..2, "a"), TextEdit::new(8..9, "b")],
        10,
    )
    .unwrap();

    assert_eq!(transaction.edits()[0].range(), 8..9);
    assert_eq!(transaction.edits()[1].range(), 1..2);
}

#[test]
fn transaction_rejects_overlapping_edits() {
    let error = EditTransaction::new(
        DocumentRevision::initial(),
        EditOrigin::User,
        vec![TextEdit::new(2..6, "a"), TextEdit::new(5..8, "b")],
        10,
    )
    .unwrap_err();

    assert_eq!(
        error,
        TransactionError::Overlap {
            first: 0,
            second: 1
        }
    );
}

#[test]
fn transaction_rejects_duplicate_insertions() {
    let error = EditTransaction::new(
        DocumentRevision::initial(),
        EditOrigin::Paste,
        vec![TextEdit::new(3..3, "a"), TextEdit::new(3..3, "b")],
        3,
    )
    .unwrap_err();

    assert!(matches!(error, TransactionError::Overlap { .. }));
}

#[test]
fn transaction_names_each_other_fault() {
    let revision = DocumentRevision::initial();
    let new = |edits: Vec<TextEdit>| EditTransaction::new(revision, EditOrigin::User, edits, 4);
    assert_eq!(new(vec![]).unwrap_err(), TransactionError::Empty);
    let backwards = std::ops::Range { start: 3, end: 1 };
    assert_eq!(
        new(vec![TextEdit::new(backwards, "")]).unwrap_err(),
        TransactionError::InvalidRange { index: 0 }
    );
    assert_eq!(
        new(vec![TextEdit::new(0..1, ""), TextEdit::new(4..5, "")]).unwrap_err(),
        TransactionError::OutOfBounds {
            index: 1,
            source_len: 4
        }
    );
}

#[test]
fn block_requires_one_hidden_atomic_region_with_the_same_id() {
    let regions = DocumentRegions::new(
        vec![DocumentRegion::new("tool", 0..3, EditPolicy::Atomic)],
        3,
    )
    .unwrap();
    let projection = DocumentProjection::new(3, vec![ProjectionSpan::hidden(0..3)]).unwrap();

    assert_eq!(
        validate_blocks(
            &[DocumentBlock::new("tool", 0..3)],
            &regions,
            &projection,
            3
        ),
        Ok(())
    );
    assert_eq!(
        validate_blocks(
            &[DocumentBlock::new("other", 0..3)],
            &regions,
            &projection,
            3
        ),
        Err(BlockError::RegionIdMismatch(0..3))
    );
}

#[test]
fn blocks_name_each_other_fault() {
    let regions = DocumentRegions::new(
        vec![
            DocumentRegion::new("tool", 0..3, EditPolicy::Atomic),
            DocumentRegion::new("text", 3..6, EditPolicy::Readonly),
        ],
        6,
    )
    .unwrap();
    let hidden = DocumentProjection::new(6, vec![ProjectionSpan::hidden(0..3)]).unwrap();
    let shown = DocumentProjection::identity(6);
    let check = |blocks: Vec<DocumentBlock<&'static str>>, projection: &DocumentProjection| {
        validate_blocks(&blocks, &regions, projection, 6)
    };
    assert_eq!(
        check(vec![DocumentBlock::new("tool", 1..1)], &hidden),
        Err(BlockError::InvalidRange(1..1))
    );
    assert_eq!(
        check(vec![DocumentBlock::new("tool", 5..9)], &hidden),
        Err(BlockError::OutOfBounds {
            range: 5..9,
            source_len: 6
        })
    );
    assert_eq!(
        check(vec![DocumentBlock::new("text", 3..6)], &hidden),
        Err(BlockError::MissingAtomicRegion(3..6))
    );
    assert_eq!(
        check(vec![DocumentBlock::new("tool", 0..3)], &shown),
        Err(BlockError::VisibleSource(0..3))
    );
    assert_eq!(
        check(
            vec![
                DocumentBlock::new("tool", 0..3),
                DocumentBlock::new("tool", 2..5)
            ],
            &hidden
        ),
        Err(BlockError::Overlap(2..5))
    );
}

#[test]
fn anchor_bias_distinguishes_both_sides_of_an_insertion() {
    let range = 4..4;
    assert_eq!(transform_offset(4, AnchorBias::Left, &range, 3), 4);
    assert_eq!(transform_offset(4, AnchorBias::Right, &range, 3), 7);
}

#[test]
fn offsets_keep_their_order_through_an_edit() {
    let range = 2..5;
    let moved: Vec<usize> = (0..8)
        .map(|offset| transform_offset(offset, AnchorBias::Left, &range, 1))
        .collect();
    assert_eq!(moved, vec![0, 1, 2, 2, 2, 3, 4, 5]);
}

#[test]
fn after_affinity_skips_all_hidden_objects_at_a_text_boundary() {
    let source = SourceText::new("\u{fffc}\u{fffc}text");
    let projection = DocumentProjection::new(
        source.len(),
        vec![ProjectionSpan::hidden(0..3), ProjectionSpan::hidden(3..6)],
    )
    .unwrap();
    let map = ProjectionMap::new(&source, &projection);
    assert_eq!(map.display_to_source(0, Affinity::Before), Some(0));
    assert_eq!(map.display_to_source(0, Affinity::After), Some(6));
}

#[test]
fn replacement_maps_source_and_display_edges_with_affinity() {
    let source = SourceText::new("a**bold**z");
    let projection = DocumentProjection::new(
        source.len(),
        vec![ProjectionSpan::hidden(1..3), ProjectionSpan::hidden(7..9)],
    )
    .unwrap();
    let map = ProjectionMap::new(&source, &projection);

    assert_eq!(map.display_text(), "aboldz");
    assert_eq!(map.source_to_display(1, Affinity::Before), Some(1));
    assert_eq!(map.source_to_display(2, Affinity::After), Some(1));
    assert_eq!(map.source_to_display(3, Affinity::After), Some(1));
    assert_eq!(map.display_to_source(1, Affinity::Before), Some(1));
    assert_eq!(map.display_to_source(1, Affinity::After), Some(3));
    assert_eq!(map.display_to_source(5, Affinity::After), Some(9));
}

#[test]
fn replacement_text_maps_interior_offsets_to_source_boundaries() {
    let source = SourceText::new("aXYZz");
    let projection =
        DocumentProjection::new(source.len(), vec![ProjectionSpan::replace(1..4, "block")])
            .unwrap();
    let map = ProjectionMap::new(&source, &projection);

    assert_eq!(map.display_text(), "ablockz");
    assert_eq!(map.display_to_source(3, Affinity::Before), Some(1));
    assert_eq!(map.display_to_source(3, Affinity::After), Some(4));
    assert_eq!(map.source_to_display(2, Affinity::Before), Some(1));
    assert_eq!(map.source_to_display(2, Affinity::After), Some(6));
}

#[test]
fn spans_follow_an_edit_before_them() {
    let projection = DocumentProjection::new(6, vec![ProjectionSpan::replace(4..5, "X")]).unwrap();
    let transformed = projection.transformed(&[TextEdit::new(1..1, "++")], 8);
    assert_eq!(transformed.spans()[0].source(), 6..7);
}

#[test]
fn projection_boundaries_exclude_adjacent_edits() {
    for span in [
        ProjectionSpan::hidden(2..4),
        ProjectionSpan::replace(2..4, "Q"),
        ProjectionSpan::mapped(2..4, "Q", vec![ProjectionMapping::new(0..1, 2..4)]),
    ] {
        let projection = DocumentProjection::new(6, vec![span]).unwrap();
        for (edit, source, expected) in [
            (TextEdit::new(2..2, "x"), "abxCDyz", 3..5),
            (TextEdit::new(4..4, "x"), "abCDxyz", 2..4),
            (TextEdit::new(0..2, "x"), "xCDyz", 1..3),
            (TextEdit::new(4..6, "x"), "abCDx", 2..4),
        ] {
            let transformed = projection.transformed(&[edit], source.len());
            let span = &transformed.spans()[0];
            assert_eq!(span.source(), expected);
            if let Some(mapping) = span.mapping() {
                assert_eq!(mapping[0].source(), expected);
            }
            assert_eq!(
                ProjectionMap::new(&SourceText::new(source), &transformed).display_text(),
                format!(
                    "{}{}{}",
                    &source[..expected.start],
                    span.replacement(),
                    &source[expected.end..]
                ),
            );
        }
    }
}

#[test]
fn mapped_replacement_preserves_scalar_source_ranges() {
    let source = SourceText::new("**重复 &amp;**");
    let projection = DocumentProjection::new(
        source.len(),
        vec![ProjectionSpan::mapped(
            0..source.len(),
            "重复 &",
            vec![
                ProjectionMapping::new(0..3, 2..5),
                ProjectionMapping::new(3..6, 5..8),
                ProjectionMapping::new(6..7, 8..9),
                ProjectionMapping::new(7..8, 9..14),
            ],
        )],
    )
    .unwrap();
    let map = ProjectionMap::new(&source, &projection);

    assert_eq!(map.display_text(), "重复 &");
    assert_eq!(map.source_to_display(2, Affinity::After), Some(0));
    assert_eq!(map.source_to_display(5, Affinity::After), Some(3));
    assert_eq!(map.display_to_source(3, Affinity::After), Some(5));
    assert_eq!(map.display_to_source(7, Affinity::Before), Some(9));
    assert_eq!(
        map.display_to_source(8, Affinity::After),
        Some(source.len())
    );
}

#[test]
fn invalid_spans_are_rejected() {
    assert_eq!(
        DocumentProjection::new(4, vec![ProjectionSpan::hidden(2..2)]),
        Err(ProjectionError::InvalidRange(2..2))
    );
    assert_eq!(
        DocumentProjection::new(
            4,
            vec![ProjectionSpan::hidden(1..3), ProjectionSpan::hidden(2..4)],
        ),
        Err(ProjectionError::Overlap(2..4))
    );
}

#[test]
fn spans_beyond_the_source_and_bad_mappings_are_rejected() {
    assert_eq!(
        DocumentProjection::new(4, vec![ProjectionSpan::hidden(2..5)]),
        Err(ProjectionError::OutOfBounds {
            range: 2..5,
            source_len: 4
        })
    );
    assert_eq!(
        DocumentProjection::new(
            4,
            vec![ProjectionSpan::mapped(
                0..4,
                "ab",
                vec![ProjectionMapping::new(0..1, 2..6)]
            )]
        ),
        Err(ProjectionError::InvalidMapping(0..4))
    );
}

#[test]
fn visible_source_maps_to_the_display_and_back() {
    let source = SourceText::new("ab**cd**ef");
    let projection = DocumentProjection::new(
        source.len(),
        vec![ProjectionSpan::hidden(2..4), ProjectionSpan::hidden(6..8)],
    )
    .unwrap();
    let map = ProjectionMap::new(&source, &projection);
    for offset in [0, 1, 5, 9, 10] {
        let display = map.source_to_display(offset, Affinity::After).unwrap();
        assert_eq!(
            map.display_to_source(display, Affinity::After),
            Some(offset)
        );
    }
}

#[test]
fn errors_say_what_is_wrong() {
    assert_eq!(
        RegionError::Overlap { left: 0, right: 12 }.message(),
        "regions 0 and 12 overlap"
    );
    assert_eq!(
        TransactionError::OutOfBounds {
            index: 3,
            source_len: 1024
        }
        .message(),
        "edit 3 exceeds source length 1024"
    );
    assert_eq!(
        PositionError::NodeOffsetOutOfBounds {
            offset: 9,
            node_len: 4
        }
        .message(),
        "node offset 9 exceeds node length 4"
    );
    assert_eq!(
        ProjectionError::InvalidBoundary(1..20).message(),
        "projection range 1..20 is not on UTF-8 boundaries"
    );
    assert_eq!(
        BlockError::VisibleSource(0..3).message(),
        "block source 0..3 is not hidden by projection"
    );
    assert_eq!(
        AnchoredBlockError::InvalidPosition(PositionError::NodeNotFound).message(),
        "document node no longer exists"
    );
    assert_eq!(
        DocumentStyleError::ParagraphBoundary(2..5).message(),
        "paragraph style range 2..5 must map to complete display lines"
    );
    assert_eq!(
        PresentationError::Blocks(BlockError::MissingRenderer).message(),
        "document block renderer is not set"
    );
    assert_eq!(
        ScrollPinError::InvalidPosition(PositionError::NodeNotFound).message(),
        "invalid scroll pin: document node no longer exists"
    );
    assert_eq!(
        HostTransactionError::InvalidRegions(RegionError::DuplicateId { index: 1 }).message(),
        "invalid host regions: region 1 repeats an id"
    );
}
