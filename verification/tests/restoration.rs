//! What undo and redo bring back, and where rows and styles stand in the way.

use gpui_base::document::undo::reserved_bytes;
use gpui_base::document::{
    Affinity, DocumentEditRejection, DocumentEffect, DocumentEvent, DocumentInlineStyle,
    DocumentParagraphStyle, DocumentProjection, DocumentRegion, DocumentRegions, DocumentRevision,
    DocumentSnapshot, DocumentState, DocumentStyles, EditDecision, EditOrigin, EditPolicy,
    EditTransaction, HighlightStyle, HostTransactionError, ProjectionMap, ProjectionMapping, ProjectionSpan, TextEdit,
    TextStyleRefinement, UndoChange, UndoRecord,
};
use gpui_base::sidebar::{SidebarMenu, SidebarMenuItem};
use gpui_base::text::SourceText;

fn paragraph(source: std::ops::Range<usize>) -> DocumentParagraphStyle {
    DocumentParagraphStyle::new(source, TextStyleRefinement { handle: 0 })
}

fn inline(source: std::ops::Range<usize>) -> DocumentInlineStyle {
    DocumentInlineStyle::new(source, HighlightStyle { handle: 1 })
}

fn styled(draft: &str, behind: &str, styles: DocumentStyles) -> DocumentState<&'static str> {
    let text = format!("{draft}{behind}");
    let mut document = DocumentState::new(
        text.as_str(),
        vec![
            DocumentRegion::new("draft", 0..draft.len(), EditPolicy::Editable),
            DocumentRegion::new("history", draft.len()..text.len(), EditPolicy::Readonly),
        ],
    )
    .unwrap();
    document
        .set_rich_presentation(DocumentProjection::identity(text.len()), vec![], styles)
        .unwrap();
    document
}

fn edit(
    document: &mut DocumentState<&'static str>,
    edits: &[(std::ops::Range<usize>, &str)],
) -> EditDecision<&'static str> {
    let transaction = EditTransaction::new(
        document.revision(),
        EditOrigin::User,
        edits
            .iter()
            .map(|(range, text)| TextEdit::new(range.clone(), text))
            .collect(),
        document.text().len(),
    )
    .unwrap();
    document.apply_transaction(transaction)
}

#[test]
fn undo_of_one_edit_brings_styles_and_selection_back() {
    let styles = DocumentStyles::new(vec![paragraph(3..8)], vec![inline(3..7)]);
    let mut document = styled("ab\n", "Head\n", styles);
    document.set_selection(1..2, true);
    let selection = document.selected_positions().unwrap();
    assert_eq!(edit(&mut document, &[(0..1, "x\ny")]), EditDecision::Apply);
    let after = document.selected_positions().unwrap();
    assert_eq!(document.text(), "x\nyb\nHead\n");
    let revision = document.revision();
    document.undo();
    assert_eq!(document.text(), "ab\nHead\n");
    assert_eq!(document.model().styles().paragraphs()[0].source(), 3..8);
    assert_eq!(document.model().styles().inline()[0].source(), 3..7);
    assert_eq!(document.selected_positions().unwrap(), selection);
    assert_eq!(document.marked_text_range(), None);
    assert!(document.revision() > revision);
    document.redo();
    assert_eq!(document.text(), "x\nyb\nHead\n");
    assert_eq!(document.model().styles().paragraphs()[0].source(), 5..10);
    assert_eq!(document.selected_positions().unwrap(), after);
}

#[test]
fn several_edits_come_back_while_each_leaves_the_paragraph_its_lines() {
    let styles = DocumentStyles::new(vec![paragraph(4..9)], vec![]);
    let mut document = styled("abc\n", "Head\n", styles);
    document.set_selection(3..3, false);
    let selection = document.selected_positions().unwrap();
    assert_eq!(
        edit(&mut document, &[(0..1, ""), (2..3, "zz")]),
        EditDecision::Apply
    );
    assert_eq!(document.text(), "bzz\nHead\n");
    document.undo();
    assert_eq!(document.text(), "abc\nHead\n");
    assert_eq!(document.model().styles().paragraphs()[0].source(), 4..9);
    assert_eq!(document.selected_positions().unwrap(), selection);
    document.redo();
    assert_eq!(document.text(), "bzz\nHead\n");
}

#[test]
fn an_undo_whose_steps_would_break_a_paragraph_is_refused() {
    let styles = DocumentStyles::new(vec![paragraph(3..8)], vec![]);
    let mut document = styled("ab\n", "Head\n", styles);
    assert_eq!(
        edit(&mut document, &[(1..3, ""), (0..1, "\n")]),
        EditDecision::Apply
    );
    assert_eq!(document.text(), "\nHead\n");
    document.undo();
    assert_eq!(document.text(), "\nHead\n");
}

#[test]
fn an_undo_that_would_put_text_around_an_empty_style_is_refused() {
    let mut document = DocumentState::new(
        "h\nab",
        vec![
            DocumentRegion::new("history", 0..2, EditPolicy::Readonly),
            DocumentRegion::new("draft", 2..4, EditPolicy::Editable),
        ],
    )
    .unwrap();
    document
        .set_rich_presentation(
            DocumentProjection::identity(4),
            vec![],
            DocumentStyles::new(vec![], vec![inline(2..2)]),
        )
        .unwrap();
    assert_eq!(edit(&mut document, &[(2..3, "")]), EditDecision::Apply);
    document.undo();
    assert_eq!(document.text(), "h\nb");
    assert_eq!(document.model().styles().inline()[0].source(), 2..2);
}

#[test]
fn a_whole_node_comes_back_where_an_empty_style_lies_at_its_start() {
    let styles = DocumentStyles::new(vec![], vec![inline(0..0)]);
    let mut document = styled("abc", "\nz", styles);
    document.set_selection(1..2, false);
    let selection = document.selected_positions().unwrap();
    assert_eq!(edit(&mut document, &[(0..3, "x")]), EditDecision::Apply);
    let after = document.selected_positions().unwrap();
    assert_eq!(document.text(), "x\nz");
    document.undo();
    assert_eq!(document.text(), "abc\nz");
    assert_eq!(document.selected_positions().unwrap(), selection);
    assert_eq!(document.model().styles().inline()[0].source(), 3..3);
    document.redo();
    assert_eq!(document.text(), "x\nz");
    assert_eq!(document.selected_positions().unwrap(), after);
}

fn unmapped(len: usize, source: std::ops::Range<usize>) -> DocumentProjection {
    DocumentProjection::new(len, vec![ProjectionSpan::mapped(source, "", vec![])]).unwrap()
}

#[test]
fn a_document_with_an_unmapped_span_is_edited_as_any_other() {
    let mut document = DocumentState::new(
        "abc\nnote\ndraft",
        vec![
            DocumentRegion::new("history", 0..9, EditPolicy::Readonly),
            DocumentRegion::new("draft", 9..14, EditPolicy::Editable),
        ],
    )
    .unwrap();
    document.set_projection(unmapped(14, 4..8)).unwrap();
    assert_eq!(document.display_text(), "abc\n\ndraft");
    assert_eq!(document.model().source_to_display(5, Affinity::Before), None);
    assert_eq!(document.model().source_to_display(8, Affinity::Before), Some(4));
    assert_eq!(document.layout_items().len(), 3);
    document.set_selection(14..14, false);
    assert_eq!(edit(&mut document, &[(14..14, "!")]), EditDecision::Apply);
    assert_eq!(document.text(), "abc\nnote\ndraft!");
    assert_eq!(document.display_text(), "abc\n\ndraft!");
    document.undo();
    assert_eq!(document.text(), "abc\nnote\ndraft");
    // A selection that reaches into the span shows from the start of the
    // display.
    document.set_selection(5..11, false);
    assert_eq!(document.model().display_selection_range(), 0..7);
}

#[test]
fn edges_on_an_unmapped_span_stand_where_the_span_stands() {
    let mut document = DocumentState::new(
        "abc\nnote\n",
        vec![
            DocumentRegion::new("history", 0..4, EditPolicy::Readonly),
            DocumentRegion::new("note", 4..8, EditPolicy::Readonly),
            DocumentRegion::new("end", 8..9, EditPolicy::Readonly),
        ],
    )
    .unwrap();
    document
        .set_rich_presentation(
            unmapped(9, 4..8),
            vec![],
            DocumentStyles::new(vec![paragraph(4..9)], vec![inline(0..6)]),
        )
        .unwrap();
    assert_eq!(document.display_text(), "abc\n\n");
    assert_eq!(document.layout_items().len(), 3);
    let revision = document.revision();
    let fragment = DocumentSnapshot::new(
        "new\n",
        vec![DocumentRegion::new("new", 0..4, EditPolicy::Readonly)],
        DocumentProjection::identity(4),
        vec![],
        DocumentStyles::new(vec![], vec![]),
    );
    assert_eq!(
        document.apply_host_splice(revision, Some(&"history"), Some(&"note"), fragment, None),
        Err(HostTransactionError::FragmentBoundary)
    );
    document
        .set_rich_presentation(unmapped(9, 4..8), vec![], DocumentStyles::new(vec![], vec![]))
        .unwrap();
    let fragment = DocumentSnapshot::new(
        "new\n",
        vec![DocumentRegion::new("new", 0..4, EditPolicy::Readonly)],
        DocumentProjection::identity(4),
        vec![],
        DocumentStyles::new(vec![], vec![]),
    );
    let revision = document.revision();
    document
        .apply_host_splice(revision, Some(&"history"), Some(&"note"), fragment, None)
        .unwrap();
    assert_eq!(document.text(), "new\nnote\n");
    assert_eq!(document.display_text(), "new\n\n");
}

#[test]
fn the_length_of_the_display_is_counted_before_a_fragment_is_taken() {
    let snapshot = |projection| {
        DocumentSnapshot::new(
            "a&amp;z",
            vec![DocumentRegion::new("part", 0..7, EditPolicy::Readonly)],
            projection,
            vec![],
            DocumentStyles::new(vec![], vec![]),
        )
    };
    assert_eq!(snapshot(DocumentProjection::identity(7)).display_len(), Some(7));
    let entity = ProjectionSpan::mapped(1..6, "&", vec![ProjectionMapping::new(0..1, 1..6)]);
    let projection = DocumentProjection::new(7, vec![entity, ProjectionSpan::hidden(6..7)]);
    assert_eq!(snapshot(projection.unwrap()).display_len(), Some(2));
}

#[test]
fn a_hidden_paragraph_at_the_start_fits_only_an_empty_display() {
    let mut document = DocumentState::new(
        "d",
        vec![DocumentRegion::new("draft", 0..1, EditPolicy::Editable)],
    )
    .unwrap();
    document
        .apply_host_splice(
            document.revision(),
            Some(&"draft"),
            Some(&"draft"),
            DocumentSnapshot::new(
                "x",
                vec![DocumentRegion::new("note", 0..1, EditPolicy::Readonly)],
                DocumentProjection::new(1, vec![ProjectionSpan::hidden(0..1)]).unwrap(),
                vec![],
                DocumentStyles::new(vec![paragraph(0..1)], vec![]),
            ),
            None,
        )
        .unwrap();
    assert_eq!(document.text(), "xd");
    document.take_effects();
    document.replace_text_in_range(Some(2..2), "e");
    assert_eq!(
        document.take_effects(),
        vec![DocumentEffect::Emit(DocumentEvent::Rejected(
            DocumentEditRejection::InvalidPresentation
        ))]
    );
    assert_eq!(edit(&mut document, &[(1..2, "")]), EditDecision::Apply);
    document.undo();
    assert_eq!(document.text(), "x");
}

#[test]
fn reserved_bytes_are_the_sum_of_capacities() {
    assert_eq!(reserved_bytes(&vec![]), 0);
    assert_eq!(reserved_bytes(&vec![3, 0, 4]), 7);
    assert_eq!(reserved_bytes(&vec![usize::MAX, 1]), usize::MAX);
    let empty: UndoRecord<&str> = UndoRecord::new("draft", vec![], None, None);
    assert_eq!(empty.allocated_bytes(), 0);
    let mut reserved = String::with_capacity(64);
    reserved.push('x');
    let capacity = reserved.capacity();
    let record = UndoRecord::new(
        "draft",
        vec![
            UndoChange::new(0..0, String::new(), reserved),
            UndoChange::new(0..3, String::from("abc"), String::new()),
        ],
        None,
        None,
    );
    let capacities = record.capacities();
    assert_eq!(capacities.len(), 4);
    assert_eq!(capacities[1], capacity);
    assert!(capacities[2] >= 3);
    assert_eq!(record.bytes(), 4);
    assert_eq!(record.allocated_bytes(), reserved_bytes(&capacities));
}

#[test]
fn children_are_added_to_a_menu() {
    let menu = SidebarMenu::new()
        .child(SidebarMenuItem::new("A"))
        .children(vec![SidebarMenuItem::new("B"), SidebarMenuItem::new("C")]);
    let copy = menu.clone();
    let labels = |menu: SidebarMenu| -> Vec<String> {
        menu.into_items()
            .iter()
            .map(|item| item.label().to_string())
            .collect()
    };
    assert_eq!(labels(menu), vec!["A", "B", "C"]);
    assert_eq!(labels(copy), vec!["A", "B", "C"]);
}

#[test]
fn the_caret_toggles_a_submenu_that_a_click_only_opens() {
    let item = SidebarMenuItem::new("More")
        .click_to_open(true)
        .children(vec![SidebarMenuItem::new("Sent")]);
    assert!(!item.caret_click(true));
    assert!(item.caret_click(false));
    let copy = item.clone();
    assert!(copy.is_submenu());
    assert_eq!(copy.click(Some(false)), Some(true));
    assert_eq!(copy.into_children()[0].label(), "Sent");
}

#[test]
fn words_end_at_every_white_space_character() {
    for code in (0..0x3100u32).chain([0xfeff, 0xe0020, 0x1f642]) {
        let Some(c) = char::from_u32(code) else {
            continue;
        };
        let text = format!("a{c}b");
        let source = SourceText::new(text.as_str());
        let behind = 1 + c.len_utf8();
        let expected = match code {
            0x09..=0x0d | 0x20 | 0x85 | 0xa0 | 0x1680 | 0x2000..=0x200a => behind,
            0x2028 | 0x2029 | 0x202f | 0x205f | 0x3000 => behind,
            _ => text.len(),
        };
        assert_eq!(source.next_word_boundary(0), expected, "{code:x}");
    }
}

#[test]
fn a_mapped_span_keeps_the_order_of_its_offsets() {
    let source = SourceText::new("a&amp;&lt;z");
    let projection = DocumentProjection::new(
        source.len(),
        vec![ProjectionSpan::mapped(
            1..10,
            "&<",
            vec![
                ProjectionMapping::new(0..1, 1..6),
                ProjectionMapping::new(1..2, 6..10),
            ],
        )],
    )
    .unwrap();
    let map = ProjectionMap::new(&source, &projection);
    for affinity in [Affinity::Before, Affinity::After] {
        let shown: Vec<usize> = (0..=source.len())
            .map(|offset| map.source_to_display(offset, affinity).unwrap())
            .collect();
        assert!(shown.windows(2).all(|pair| pair[0] <= pair[1]), "{shown:?}");
    }
    // One entry shows both offsets as one piece.
    assert_eq!(map.source_to_display(2, Affinity::After), Some(2));
    assert_eq!(map.source_to_display(4, Affinity::Before), Some(1));
    let end = map.source_to_display(source.len(), Affinity::Before).unwrap();
    assert_eq!(map.display_to_source(end, Affinity::After), Some(source.len()));
}

#[test]
fn copies_and_order_of_plain_values() {
    let transaction = EditTransaction::new(
        DocumentRevision::initial(),
        EditOrigin::Paste,
        vec![TextEdit::new(0..1, "x")],
        4,
    )
    .unwrap();
    assert_eq!(transaction.clone(), transaction);
    let regions = DocumentRegions::new(
        vec![DocumentRegion::new("draft", 0..4, EditPolicy::Editable)],
        4,
    )
    .unwrap();
    assert_eq!(regions.clone(), regions);
    let next = DocumentRevision::initial().next();
    assert_eq!(next.max(DocumentRevision::initial()), next);
}
