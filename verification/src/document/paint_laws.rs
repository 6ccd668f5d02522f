//! What rows paint of the selection and the caret, and which row shows a
//! place.

use crate::document::layout::LayoutView;
use crate::document::measure::PointerHit;
use crate::document::model_edit::{lemma_anchor_position, lemma_offset_position};
use crate::document::model_view::ModelView;
use crate::document::position::{Affinity, DocumentPosition, PositionError};
use crate::document::region::region_index_of;
use crate::document::state_paint::{between, index_by, row_displays, row_owns, row_shows};
use crate::document::state_view::StateView;
use crate::scan::{lemma_first_where, lemma_last_where};
use vstd::prelude::*;

verus! {

/// A row paints a place of the display as selected just if the place lies
/// between where the two ends of the selection are shown.
pub proof fn law_rows_paint_the_selection<I>(
    m: ModelView<I>,
    display: (int, int),
    first: int,
    last: int,
    i: int,
)
    requires
        m.selected().0 < m.selected().1,
        m.projection.source_to_display(m.selected().0, Affinity::Before) == Some(first),
        m.projection.source_to_display(m.selected().1, Affinity::After) == Some(last),
        display.0 <= i < display.1,
    ensures
        first <= i < last <==> (m.selection_in(display) matches Some((start, end)) && start <= i
            - display.0 < end),
        m.selection_in(display) matches Some((start, end)) ==> 0 <= start <= display.1 - display.0
            && 0 <= end <= display.1 - display.0,
{
}

/// Without a selection no row paints one.
pub proof fn law_carets_are_not_painted_as_selections<I>(m: ModelView<I>, display: (int, int))
    requires
        m.selected().0 == m.selected().1,
    ensures
        m.selection_in(display) is None,
        m.display_selection().0 == m.display_selection().1,
{
}

proof fn lemma_index_by<T>(items: Seq<T>, test: spec_fn(T) -> bool, affinity: Affinity)
    ensures
        match index_by(items, test, affinity) {
            Some(at) => {
                &&& 0 <= at < items.len()
                &&& test(items[at])
                &&& affinity == Affinity::Before ==> forall|i: int|
                    0 <= i < at ==> !(#[trigger] test(items[i]))
                &&& affinity != Affinity::Before ==> forall|i: int|
                    at < i < items.len() ==> !(#[trigger] test(items[i]))
            },
            None => forall|i: int| 0 <= i < items.len() ==> !(#[trigger] test(items[i])),
        },
{
    lemma_first_where(items, test, 0);
    lemma_last_where(items, test, items.len() as int);
}

/// A row of text holds an offset of the source.
pub open spec fn row_holds<I>(item: LayoutView<I>, offset: int) -> bool {
    item matches LayoutView::Text { source, .. } && source.start <= offset <= source.end
}

/// The row of a position holds the offset of the position. It belongs to the
/// node of the position where some row of that node holds the offset: the
/// first of them, or the last with the other affinity. A position that
/// some row with source holds has a row.
pub proof fn law_positions_are_shown_in_their_rows<I>(
    s: StateView<I>,
    position: DocumentPosition<I>,
    offset: int,
)
    requires
        s.model.resolve_position(position) == Ok::<usize, PositionError>(offset as usize),
        0 <= offset <= usize::MAX,
    ensures
        s.item_of_position(position) matches Some(at) ==> 0 <= at < s.items.len() && row_holds(
            s.items[at],
            offset,
        ),
        forall|i: int|
            0 <= i < s.items.len() && row_holds(#[trigger] s.items[i], offset) && (
            s.items[i] matches LayoutView::Text { node_id, .. } && node_id == Some(
                position.spec_node_id(),
            )) ==> (s.item_of_position(position) matches Some(at) && (
            s.items[at] matches LayoutView::Text { node_id, .. } && node_id == Some(
                position.spec_node_id(),
            )) && (if position.spec_affinity() == Affinity::Before {
                at <= i
            } else {
                i <= at
            })),
        forall|i: int|
            0 <= i < s.items.len() && row_holds(#[trigger] s.items[i], offset) && (
            s.items[i] matches LayoutView::Text { source, .. } && source.start < source.end)
                ==> s.item_of_position(position) is Some,
{
    let node = position.spec_node_id();
    let owns = |item: LayoutView<I>| row_owns(item, node, offset);
    let shows = |item: LayoutView<I>| row_shows(item, node, offset);
    lemma_index_by(s.items, owns, position.spec_affinity());
    lemma_index_by(s.items, shows, position.spec_affinity());
    assert forall|i: int|
        0 <= i < s.items.len() && row_holds(#[trigger] s.items[i], offset) && (
        s.items[i] matches LayoutView::Text { node_id, .. } && node_id == Some(node)) implies (
    s.item_of_position(position) matches Some(at) && (
    s.items[at] matches LayoutView::Text { node_id, .. } && node_id == Some(node)) && (
    if position.spec_affinity() == Affinity::Before {
        at <= i
    } else {
        i <= at
    })) by {
        assert(owns(s.items[i]));
    }
    assert forall|i: int|
        0 <= i < s.items.len() && row_holds(#[trigger] s.items[i], offset) && (
        s.items[i] matches LayoutView::Text { source, .. } && source.start < source.end) implies
        s.item_of_position(position) is Some by {
        assert(shows(s.items[i]));
    }
}

/// The row of a place of the display reaches the place: the first that does,
/// or the last with the other affinity.
pub proof fn law_places_are_shown_in_their_rows<I>(
    s: StateView<I>,
    offset: int,
    affinity: Affinity,
)
    ensures
        match s.item_of_display(offset, affinity) {
            Some(at) => {
                &&& 0 <= at < s.items.len()
                &&& s.items[at] matches LayoutView::Text { display, .. } && display.start <= offset
                    <= display.end
                &&& forall|i: int|
                    0 <= i < s.items.len() && (
                    #[trigger] s.items[i] matches LayoutView::Text { display, .. } && display.start
                        <= offset <= display.end) ==> if affinity == Affinity::Before {
                        at <= i
                    } else {
                        i <= at
                    }
            },
            None => forall|i: int|
                0 <= i < s.items.len() ==> !(
                #[trigger] s.items[i] matches LayoutView::Text { display, .. } && display.start
                    <= offset <= display.end),
        },
{
    let test = |item: LayoutView<I>| row_displays(item, offset);
    lemma_index_by(s.items, test, affinity);
    assert forall|i: int|
        0 <= i < s.items.len() && (#[trigger] s.items[i] matches LayoutView::Text { display, .. }
            && display.start <= offset <= display.end) implies test(s.items[i]) by {}
}

/// The caret is painted in one row at most. That row holds the caret, and
/// paints it where its offset is shown, within the row.
pub proof fn law_the_caret_is_painted_once<I>(
    s: StateView<I>,
    item: int,
    other: int,
    display: (int, int),
    elsewhere: (int, int),
)
    requires
        s.wf(),
        display.0 <= display.1,
        s.caret_in(item, display) is Some,
    ensures
        s.caret_in(other, elsewhere) is Some ==> other == item,
        0 <= item < s.items.len(),
        row_holds(s.items[item], s.model.cursor()),
        s.model.head_position() matches Ok(head) && (s.model.projection.source_to_display(
            s.model.cursor(),
            head.spec_affinity(),
        ) matches Some(at) && (display.0 <= at <= display.1 ==> s.caret_in(item, display)->0 == at
            - display.0)),
        0 <= s.caret_in(item, display)->0 <= display.1 - display.0,
{
    let head = s.model.head_position()->Ok_0;
    lemma_anchor_position(s.model, s.model.selection.spec_head());
    assert(s.model.is_live(s.model.selection.spec_head()));
    law_positions_are_shown_in_their_rows(s, head, s.model.cursor());
}

// ---------------------------------------------------------------------------
// Points
// ---------------------------------------------------------------------------

/// A row of text that stands for some of the source.
pub open spec fn row_has_source<I>(item: LayoutView<I>) -> bool {
    item matches LayoutView::Text { source, .. } && source.start < source.end
}

/// A position stands for an offset.
pub open(crate) spec fn resolves_to<I>(
    m: ModelView<I>,
    position: DocumentPosition<I>,
    offset: int,
) -> bool {
    m.resolve_position(position) matches Ok(found) && found == offset
}

/// A point on a row of text stands for an offset in the source of the row. A
/// point on the upper half of a block stands for where the block starts, and
/// one on the lower half for where it ends. Below the text it is the end of
/// the document, and where nothing is laid out it is the caret.
pub proof fn law_points_stand_for_what_they_hit<I>(
    s: StateView<I>,
    hit: PointerHit,
    position: DocumentPosition<I>,
)
    requires
        s.wf(),
        s.hit_fits(hit),
        s.position_of_hit(hit) == Some(position),
        hit matches PointerHit::Text { item, .. } ==> (
        s.items[item as int] matches LayoutView::Text { source, .. } ==> source.start
            <= source.end),
    ensures
        match hit {
            PointerHit::Text { item, .. } => {
                &&& s.model.resolve_position(position) matches Ok(offset) ==> row_holds(
                    s.items[item as int],
                    offset as int,
                )
                &&& row_has_source(s.items[item as int]) ==> s.model.resolve_position(
                    position,
                ) is Ok
            },
            PointerHit::Block { source, upper } => resolves_to(
                s.model,
                position,
                if upper {
                    source.start as int
                } else {
                    source.end as int
                },
            ),
            PointerHit::Trailer => resolves_to(s.model, position, s.model.bytes.len() as int),
            PointerHit::Nothing => resolves_to(s.model, position, s.model.cursor()),
        },
{
    let m = s.model;
    match hit {
        PointerHit::Text { item, display, local } => {
            lemma_row_position(
                s,
                item as int,
                (display.start as int, display.end as int),
                local as int,
            );
        },
        PointerHit::Block { source, upper } => {
            if upper {
                lemma_found_position(m, source.start as int, Affinity::After);
            } else {
                lemma_found_position(m, source.end as int, Affinity::Before);
            }
        },
        PointerHit::Trailer => {
            lemma_found_position(m, m.bytes.len() as int, Affinity::After);
        },
        PointerHit::Nothing => {
            assert(m.is_live(m.selection.spec_head()));
            lemma_anchor_position(m, m.selection.spec_head());
        },
    }
}

proof fn lemma_found_position<I>(m: ModelView<I>, offset: int, affinity: Affinity)
    requires
        m.wf(),
        0 <= offset,
        m.any_position(offset, affinity) is Some,
    ensures
        m.resolve_position(m.any_position(offset, affinity)->0) == Ok::<usize, PositionError>(
            offset as usize,
        ),
        offset <= m.bytes.len(),
{
    lemma_offset_position(m, offset, affinity);
}

proof fn lemma_row_position<I>(s: StateView<I>, item: int, display: (int, int), local: int)
    requires
        s.wf(),
        0 <= item < s.items.len(),
        s.position_in_row(item, display, local) is Some,
        s.items[item] matches LayoutView::Text { source, .. } ==> source.start <= source.end,
    ensures
        ({
            let position = s.position_in_row(item, display, local)->0;
            &&& s.model.resolve_position(position) matches Ok(offset) ==> row_holds(
                s.items[item],
                offset as int,
            )
            &&& row_has_source(s.items[item]) ==> s.model.resolve_position(position) is Ok
        }),
{
    let m = s.model;
    if let LayoutView::Text { source, node_id, .. } = s.items[item] {
        if source.start >= source.end && node_id is Some {
            let at = region_index_of(m.regions, node_id->0)->0;
            assert(m.regions[at].start() <= m.regions[at].end() <= m.bytes.len());
        } else {
            let affinity = if local == display.1 - display.0 && local > 0 {
                Affinity::Before
            } else {
                Affinity::After
            };
            let at = m.projection.display_to_source(display.0 + local, affinity)->0;
            let offset = between(at, source.start as int, source.end as int);
            lemma_found_position(
                m,
                offset,
                if offset == m.bytes.len() {
                    Affinity::After
                } else {
                    affinity
                },
            );
        }
    }
}

} // verus!
