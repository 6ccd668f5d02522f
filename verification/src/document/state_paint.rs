//! What the view of a document has to know to paint it, to find what a point
//! hits, and to follow a place.

use crate::document::event::DocumentTextContext;
use crate::document::layout::{layout_views, DocumentLayoutItem, LayoutView};
use crate::document::model::{range_ends, DocumentModel};
use crate::document::model_view::ModelView;
use crate::document::position::{Affinity, DocumentPosition};
use crate::document::projection_map::int_of;
use crate::document::region::region_index_of;
use crate::document::state::DocumentState;
use crate::document::state_view::{item_for_source, StateView};
use crate::identity::{copy_id, lawful_id, same_id};
use crate::scan::{first_where, last_where, lemma_first_where, lemma_last_where};
use crate::text::byte_len;
use std::ops::Range;
use vstd::prelude::*;

verus! {

/// Whether a row is text that a position can be shown in: its source reaches
/// the offset, and a row without source shows only its own node.
pub open spec fn row_shows<I>(item: LayoutView<I>, node: I, offset: int) -> bool {
    match item {
        LayoutView::Text { source, node_id, .. } => {
            &&& source.start <= offset <= source.end
            &&& source.start < source.end || node_id == Some(node)
        },
        _ => false,
    }
}

/// Whether a row is text of a node that a position can be shown in.
pub open spec fn row_owns<I>(item: LayoutView<I>, node: I, offset: int) -> bool {
    row_shows(item, node, offset) && (match item {
        LayoutView::Text { node_id, .. } => node_id == Some(node),
        _ => false,
    })
}

/// Whether a row is text whose display reaches an offset.
pub open spec fn row_displays<I>(item: LayoutView<I>, offset: int) -> bool {
    match item {
        LayoutView::Text { display, .. } => display.start <= offset <= display.end,
        _ => false,
    }
}

/// The first or, with the other affinity, the last index that passes a test.
pub open spec fn index_by<T>(items: Seq<T>, test: spec_fn(T) -> bool, affinity: Affinity) -> Option<
    int,
> {
    let at = if affinity == Affinity::Before {
        first_where(items, test, 0)
    } else {
        last_where(items, test, items.len() as int)
    };
    if 0 <= at < items.len() {
        Some(at)
    } else {
        None
    }
}

/// Where a position with an affinity is looked for, `index_by` finds what a
/// scan has kept.
proof fn lemma_index_by<T>(
    items: Seq<T>,
    test: spec_fn(T) -> bool,
    affinity: Affinity,
    found: Option<int>,
)
    requires
        match found {
            Some(at) => {
                &&& 0 <= at < items.len()
                &&& test(items[at])
                &&& affinity == Affinity::Before ==> forall|i: int|
                    0 <= i < at ==> !(#[trigger] test(items[i]))
                &&& affinity != Affinity::Before ==> forall|i: int|
                    at < i < items.len() ==> !(#[trigger] test(items[i]))
            },
            None => forall|i: int| 0 <= i < items.len() ==> !(#[trigger] test(items[i])),
        },
    ensures
        index_by(items, test, affinity) == found,
{
    lemma_first_where(items, test, 0);
    lemma_last_where(items, test, items.len() as int);
    if let Some(at) = found {
        if affinity == Affinity::Before {
            let first = first_where(items, test, 0);
            assert(first <= at) by {
                if at < first {
                    assert(!test(items[at]));
                }
            }
        } else {
            let last = last_where(items, test, items.len() as int);
            assert(last >= at) by {
                if last < at {
                    assert(!test(items[at]));
                }
            }
        }
    }
}

/// `value` between two bounds.
pub open spec fn between(value: int, low: int, high: int) -> int {
    if value < low {
        low
    } else if value > high {
        high
    } else {
        value
    }
}

fn put_between(value: usize, low: usize, high: usize) -> (inside: usize)
    requires
        low <= high,
    ensures
        inside == between(value as int, low as int, high as int),
{
    if value < low {
        low
    } else if value > high {
        high
    } else {
        value
    }
}

impl<I> ModelView<I> {
    /// The selection in the display. A caret is a range without length.
    pub open spec fn display_selection(self) -> (int, int) {
        let (start, end) = self.selected();
        let whole = self.display().len() as int;
        if start >= end {
            let at = match self.projection.source_to_display(start, Affinity::After) {
                Some(at) => at,
                None => whole,
            };
            (at, at)
        } else {
            (
                match self.projection.source_to_display(start, Affinity::Before) {
                    Some(at) => at,
                    None => 0,
                },
                match self.projection.source_to_display(end, Affinity::After) {
                    Some(at) => at,
                    None => whole,
                },
            )
        }
    }

    /// The part of the selection in a range of the display, relative to it.
    pub open spec fn selection_in(self, display: (int, int)) -> Option<(int, int)> {
        let (start, end) = self.display_selection();
        if start >= end || end < display.0 || display.1 < start {
            None
        } else {
            Some(
                (
                    (if start > display.0 {
                        start
                    } else {
                        display.0
                    }) - display.0,
                    (if end < display.1 {
                        end
                    } else {
                        display.1
                    }) - display.0,
                ),
            )
        }
    }
}

impl<I> StateView<I> {
    /// The text row that shows a position: one of its node, else any.
    pub open(crate) spec fn item_of_position(self, position: DocumentPosition<I>) -> Option<int> {
        match self.model.resolve_position(position) {
            Ok(offset) => {
                let node = position.spec_node_id();
                let owned = index_by(
                    self.items,
                    |item: LayoutView<I>| row_owns(item, node, offset as int),
                    position.spec_affinity(),
                );
                match owned {
                    Some(at) => Some(at),
                    None => index_by(
                        self.items,
                        |item: LayoutView<I>| row_shows(item, node, offset as int),
                        position.spec_affinity(),
                    ),
                }
            },
            Err(_) => None,
        }
    }

    /// The text row that shows an offset of the display.
    pub open spec fn item_of_display(self, offset: int, affinity: Affinity) -> Option<int> {
        index_by(self.items, |item: LayoutView<I>| row_displays(item, offset), affinity)
    }

    /// Where the caret is in a row, relative to the row, if it is there.
    pub open(crate) spec fn caret_in(self, item: int, display: (int, int)) -> Option<int> {
        match self.model.head_position() {
            Ok(head) => if self.item_of_position(head) == Some(item) {
                match self.model.projection.source_to_display(
                    self.model.cursor(),
                    head.spec_affinity(),
                ) {
                    Some(at) => Some(between(at, display.0, display.1) - display.0),
                    None => None,
                }
            } else {
                None
            },
            Err(_) => None,
        }
    }

    /// What a renderer of text is told about a row: its node, its source and
    /// whether it is the first line of the node.
    pub open(crate) spec fn text_context(self, item: int) -> Option<DocumentTextContext<I>> {
        match self.items[item] {
            LayoutView::Text { source, node_id: Some(node), .. } => Some(
                DocumentTextContext::of(
                    node,
                    source,
                    match region_index_of(self.model.regions, node) {
                        Some(at) => source.start <= self.model.regions[at].start(),
                        None => false,
                    },
                ),
            ),
            _ => None,
        }
    }

    /// The position that a caret index of a text row stands for. The index
    /// counts from the start of the row's display. A row from another document
    /// has none.
    pub open(crate) spec fn position_in_row(self, item: int, display: (int, int), local: int) -> Option<
        DocumentPosition<I>,
    > {
        match self.items[item] {
            LayoutView::Text { source, node_id, .. } => if source.start >= source.end
                && node_id is Some {
                match region_index_of(self.model.regions, node_id->0) {
                    Some(at) => if self.model.regions[at].start() <= source.start {
                        Some(
                            DocumentPosition {
                                node_id: node_id->0,
                                offset: (source.start - self.model.regions[at].start()) as usize,
                                affinity: Affinity::After,
                            },
                        )
                    } else {
                        None
                    },
                    None => None,
                }
            } else if source.start > source.end {
                None
            } else {
                let affinity = if local == display.1 - display.0 && local > 0 {
                    Affinity::Before
                } else {
                    Affinity::After
                };
                match self.model.projection.display_to_source(display.0 + local, affinity) {
                    Some(at) => {
                        let offset = between(at, source.start as int, source.end as int);
                        self.model.any_position(
                            offset,
                            if offset == self.model.bytes.len() {
                                Affinity::After
                            } else {
                                affinity
                            },
                        )
                    },
                    None => None,
                }
            },
            _ => None,
        }
    }

    /// Where a pinned place is: its offset, where that is in the display, and
    /// the row to scroll to while the place is not laid out.
    pub open(crate) spec fn pin_place(self) -> Option<(int, int, int)> {
        match self.pin {
            Some(pin) => {
                let offset = self.model.anchors[pin.spec_anchor()].spec_offset();
                match self.model.projection.source_to_display(offset, pin.spec_affinity()) {
                    Some(display) => Some(
                        (
                            offset,
                            display,
                            match self.item_of_display(display, pin.spec_affinity()) {
                                Some(item) => item,
                                None => item_for_source(self.items, offset),
                            },
                        ),
                    ),
                    None => None,
                }
            },
            None => None,
        }
    }

    /// Where the place is that the view keeps, if it keeps one.
    pub open(crate) spec fn viewport_position(self) -> Option<DocumentPosition<I>> {
        match self.viewport {
            Some(anchor) => match self.model.position_for_anchor(anchor) {
                Ok(position) => Some(position),
                Err(_) => None,
            },
            None => None,
        }
    }

    /// After the caret was shown.
    pub open spec fn caret_shown(self) -> StateView<I> {
        StateView { reveal: false, ..self }
    }
}

impl<I: Clone + Eq> DocumentModel<I> {
    /// The selection in the display.
    pub fn display_selection_range(&self) -> (range: Range<usize>)
        requires
            self.wf(),
        ensures
            (range.start as int, range.end as int) == self@.display_selection(),
    {
        let selected = self.selected_range();
        let whole = byte_len(self.display_text());
        if selected.start >= selected.end {
            let at = match self.source_to_display(selected.start, Affinity::After) {
                Some(at) => at,
                None => whole,
            };
            at..at
        } else {
            let start = match self.source_to_display(selected.start, Affinity::Before) {
                Some(at) => at,
                None => 0,
            };
            let end = match self.source_to_display(selected.end, Affinity::After) {
                Some(at) => at,
                None => whole,
            };
            start..end
        }
    }
}

/// Whether a row is of a node.
fn is_node<I: Clone + Eq>(node_id: &Option<I>, node: &I) -> (same: bool)
    requires
        lawful_id::<I>(),
    ensures
        same == (*node_id == Some(*node)),
{
    match node_id {
        Some(id) => same_id(id, node),
        None => false,
    }
}

impl<I: Clone + Eq> DocumentState<I> {
    fn check_row_shows(&self, index: usize, node: &I, offset: usize) -> (shows: (bool, bool))
        requires
            self.wf(),
            index < self@.items.len(),
        ensures
            shows.0 == row_shows(self@.items[index as int], *node, offset as int),
            shows.1 == row_owns(self@.items[index as int], *node, offset as int),
    {
        assert(self@.items[index as int] == self.layout_items@[index as int]@);
        match &self.layout_items[index] {
            DocumentLayoutItem::Text { source, node_id, .. } => {
                let same = is_node(node_id, node);
                let shows = source.start <= offset && offset <= source.end && (source.start
                    < source.end || same);
                (shows, shows && same)
            },
            _ => (false, false),
        }
    }

    /// The text row that shows a position.
    pub fn text_item_for_position(&self, position: &DocumentPosition<I>) -> (item: Option<usize>)
        requires
            self.wf(),
        ensures
            int_of(item) == self@.item_of_position(*position),
            item matches Some(at) ==> at < self@.items.len(),
    {
        let offset = match self.model.resolve_position(position) {
            Ok(offset) => offset,
            Err(_) => {
                return None;
            },
        };
        let ghost items = self@.items;
        let ghost node = position.node_id;
        let ghost owns = |item: LayoutView<I>| row_owns(item, node, offset as int);
        let ghost shows = |item: LayoutView<I>| row_shows(item, node, offset as int);
        let first = position.affinity == Affinity::Before;
        let mut owned: Option<usize> = None;
        let mut fallback: Option<usize> = None;
        let mut i: usize = 0;
        while i < self.layout_items.len()
            invariant
                self.wf(),
                items == self@.items,
                items.len() == self.layout_items@.len(),
                node == position.node_id,
                owns == (|item: LayoutView<I>| row_owns(item, node, offset as int)),
                shows == (|item: LayoutView<I>| row_shows(item, node, offset as int)),
                i <= items.len(),
                kept(items, owns, first, owned, i as int),
                kept(items, shows, first, fallback, i as int),
            decreases items.len() - i,
        {
            let (row_shown, row_owned) = self.check_row_shows(i, &position.node_id, offset);
            assert(owns(items[i as int]) == row_owned);
            assert(shows(items[i as int]) == row_shown);
            if row_shown && (fallback.is_none() || !first) {
                fallback = Some(i);
            }
            if row_owned && (owned.is_none() || !first) {
                owned = Some(i);
            }
            i += 1;
        }
        proof {
            let found = int_of(owned);
            lemma_index_by(items, owns, position.affinity, found);
            lemma_index_by(
                items,
                shows,
                position.affinity,
                int_of(fallback),
            );
        }
        match owned {
            Some(at) => Some(at),
            None => fallback,
        }
    }

    /// The text row that shows an offset of the display.
    pub fn text_item_for_display(&self, offset: usize, affinity: Affinity) -> (item: Option<usize>)
        requires
            self.wf(),
        ensures
            int_of(item) == self@.item_of_display(
                offset as int,
                affinity,
            ),
            item matches Some(at) ==> at < self@.items.len(),
    {
        let ghost items = self@.items;
        let ghost displays = |item: LayoutView<I>| row_displays(item, offset as int);
        let first = affinity == Affinity::Before;
        let mut found: Option<usize> = None;
        let mut i: usize = 0;
        while i < self.layout_items.len()
            invariant
                self.wf(),
                items == self@.items,
                items.len() == self.layout_items@.len(),
                displays == (|item: LayoutView<I>| row_displays(item, offset as int)),
                i <= items.len(),
                kept(items, displays, first, found, i as int),
            decreases items.len() - i,
        {
            assert(items[i as int] == self.layout_items@[i as int]@);
            let shown = match &self.layout_items[i] {
                DocumentLayoutItem::Text { display, .. } => display.start <= offset && offset
                    <= display.end,
                _ => false,
            };
            assert(displays(items[i as int]) == shown);
            if shown && (found.is_none() || !first) {
                found = Some(i);
            }
            i += 1;
        }
        proof {
            lemma_index_by(
                items,
                displays,
                affinity,
                int_of(found),
            );
        }
        found
    }

    /// What is painted over a text row: the part of the selection in it and
    /// the caret, both relative to the row.
    pub fn segment_paint_snapshot(&self, item_ix: usize, display: &Range<usize>) -> (paint: (
        Option<Range<usize>>,
        Option<usize>,
    ))
        requires
            self.wf(),
            display.start <= display.end,
        ensures
            range_ends(paint.0) == self@.model.selection_in(
                (display.start as int, display.end as int),
            ),
            int_of(paint.1) == self@.caret_in(
                item_ix as int,
                (display.start as int, display.end as int),
            ),
    {
        let selection = self.model.display_selection_range();
        let selected = if selection.start >= selection.end || selection.end < display.start
            || display.end < selection.start {
            None
        } else {
            let start = if selection.start > display.start {
                selection.start
            } else {
                display.start
            };
            let end = if selection.end < display.end {
                selection.end
            } else {
                display.end
            };
            Some(start - display.start..end - display.start)
        };
        (selected, self.caret_in(item_ix, display))
    }

    fn caret_in(&self, item_ix: usize, display: &Range<usize>) -> (caret: Option<usize>)
        requires
            self.wf(),
            display.start <= display.end,
        ensures
            int_of(caret) == self@.caret_in(
                item_ix as int,
                (display.start as int, display.end as int),
            ),
    {
        let head = match self.model.head_position() {
            Ok(head) => head,
            Err(_) => {
                return None;
            },
        };
        match self.text_item_for_position(&head) {
            Some(item) => if item == item_ix {
                match self.model.source_to_display(self.model.cursor(), head.affinity) {
                    Some(at) => Some(put_between(at, display.start, display.end) - display.start),
                    None => None,
                }
            } else {
                None
            },
            None => None,
        }
    }

    /// What a renderer of text is told about a row.
    pub fn text_context(&self, item_ix: usize) -> (context: Option<DocumentTextContext<I>>)
        requires
            self.wf(),
            item_ix < self@.items.len(),
        ensures
            context == self@.text_context(item_ix as int),
    {
        assert(self@.items[item_ix as int] == self.layout_items@[item_ix as int]@);
        match &self.layout_items[item_ix] {
            DocumentLayoutItem::Text { source, node_id, .. } => match node_id {
                Some(id) => {
                    let first_line = match self.region(id) {
                        Some(region) => source.start <= region.range().start,
                        None => false,
                    };
                    Some(
                        DocumentTextContext {
                            node_id: copy_id(id),
                            source: source.start..source.end,
                            first_line,
                        },
                    )
                },
                None => None,
            },
            _ => None,
        }
    }
}

/// What the input's geometry of a range is asked for: the ends of the range
/// as positions and in the display, and the rows to look in where a position
/// is not laid out.
pub struct InputBounds<I> {
    pub source: Range<usize>,
    pub start_affinity: Affinity,
    pub start_display: usize,
    pub end_display: usize,
    pub start_item: usize,
    pub end_item: usize,
    pub start: Option<DocumentPosition<I>>,
    pub end: Option<DocumentPosition<I>>,
}

impl<I> StateView<I> {
    /// The row to look in for an offset of the display, or else for one of
    /// the source.
    pub open spec fn item_near(self, display: int, affinity: Affinity, source: int) -> int {
        match self.item_of_display(display, affinity) {
            Some(item) => item,
            None => item_for_source(self.items, source),
        }
    }

    /// Whether the parts of an input's geometry are those of a range.
    pub open(crate) spec fn bounds_of(self, range: (int, int), bounds: InputBounds<I>) -> bool {
        let (start, end) = self.model.from_utf16(range);
        let affinity = if start >= end {
            Affinity::After
        } else {
            Affinity::Before
        };
        let projection = self.model.projection;
        &&& (bounds.source.start as int, bounds.source.end as int) == (start, end)
        &&& bounds.start_affinity == affinity
        &&& projection.source_to_display(start, affinity) == Some(bounds.start_display as int)
        &&& projection.source_to_display(end, Affinity::After) == Some(bounds.end_display as int)
        &&& bounds.start_item == self.item_near(bounds.start_display as int, affinity, start)
        &&& bounds.end_item == self.item_near(bounds.end_display as int, Affinity::After, end)
        &&& bounds.start == self.model.input_position(start, affinity)
        &&& bounds.end == self.model.input_position(end, Affinity::After)
    }
}

impl<I: Clone + Eq> DocumentState<I> {
    /// The position that a caret index of a text row stands for.
    pub fn text_position_in_row(&self, item_ix: usize, display: &Range<usize>, local: usize) -> (
    position: Option<DocumentPosition<I>>)
        requires
            self.wf(),
            item_ix < self@.items.len(),
            display.start <= display.end,
            display.start + local <= self@.model.display().len(),
        ensures
            position == self@.position_in_row(
                item_ix as int,
                (display.start as int, display.end as int),
                local as int,
            ),
    {
        assert(self@.items[item_ix as int] == self.layout_items@[item_ix as int]@);
        let (source, node_id) = match &self.layout_items[item_ix] {
            DocumentLayoutItem::Text { source, node_id, .. } => (source, node_id),
            _ => {
                return None;
            },
        };
        if source.start >= source.end {
            if let Some(id) = node_id {
                return match self.region(id) {
                    Some(region) => {
                        let start = region.range().start;
                        if start > source.start {
                            return None;
                        }
                        Some(
                            DocumentPosition {
                                node_id: copy_id(id),
                                offset: source.start - start,
                                affinity: Affinity::After,
                            },
                        )
                    },
                    None => None,
                };
            }
        }
        if source.start > source.end {
            return None;
        }
        let affinity = if local == display.end - display.start && local > 0 {
            Affinity::Before
        } else {
            Affinity::After
        };
        let whole = byte_len(self.model.display_text());
        assert(display.start + local <= whole);
        let at = match self.model.display_to_source(display.start + local, affinity) {
            Some(at) => at,
            None => {
                return None;
            },
        };
        let offset = put_between(at, source.start, source.end);
        let side = if offset == self.model.text.len() {
            Affinity::After
        } else {
            affinity
        };
        self.model.any_position(offset, side)
    }

    /// The position beside a block: before it or behind it.
    pub fn position_beside(&self, source: &Range<usize>, before: bool) -> (position: Option<
        DocumentPosition<I>,
    >)
        requires
            self.wf(),
        ensures
            position == (if before {
                self@.model.any_position(source.start as int, Affinity::After)
            } else {
                self@.model.any_position(source.end as int, Affinity::Before)
            }),
    {
        if before {
            self.model.any_position(source.start, Affinity::After)
        } else {
            self.model.any_position(source.end, Affinity::Before)
        }
    }

    /// The position at the end of the document.
    pub fn end_position(&self) -> (position: Option<DocumentPosition<I>>)
        requires
            self.wf(),
        ensures
            position == self@.model.any_position(
                self@.model.bytes.len() as int,
                Affinity::After,
            ),
    {
        self.model.any_position(self.model.text.len(), Affinity::After)
    }

    /// The position of the caret.
    pub fn caret_position(&self) -> (position: Option<DocumentPosition<I>>)
        requires
            self.wf(),
        ensures
            position == (match self@.model.head_position() {
                Ok(head) => Some(head),
                Err(_) => None,
            }),
    {
        match self.model.head_position() {
            Ok(head) => Some(head),
            Err(_) => None,
        }
    }

    /// Whether the caret is still to be shown.
    pub fn is_caret_reveal_pending(&self) -> (pending: bool)
        ensures
            pending == self@.reveal,
    {
        self.caret_reveal_pending
    }

    /// The caret was shown.
    pub fn caret_shown(&mut self)
        requires
            old(self).wf(),
        ensures
            final(self).wf(),
            final(self)@ == old(self)@.caret_shown(),
    {
        self.caret_reveal_pending = false;
        assert(self@ =~= old(self)@.caret_shown());
    }

    /// Where the place is that the view keeps.
    pub fn viewport_position(&self) -> (position: Option<DocumentPosition<I>>)
        requires
            self.wf(),
        ensures
            position == self@.viewport_position(),
    {
        match self.pending_viewport_anchor {
            Some(anchor) => match self.model.position_for_anchor(anchor) {
                Ok(position) => Some(position),
                Err(_) => None,
            },
            None => None,
        }
    }

    /// The view is at the place that it kept.
    pub fn viewport_restored(&mut self)
        requires
            old(self).wf(),
        ensures
            final(self).wf(),
            final(self)@ == old(self)@.without_viewport().notified(),
    {
        self.clear_pending_viewport_anchor();
        self.notify();
    }

    /// Where a pinned place is: its offset, where that is in the display, and
    /// the row to scroll to while the place is not laid out.
    pub fn pinned_place(&self) -> (place: Option<(usize, usize, usize)>)
        requires
            self.wf(),
        ensures
            match place {
                Some((offset, display, item)) => self@.pin_place() == Some(
                    (offset as int, display as int, item as int),
                ),
                None => self@.pin_place() is None,
            },
    {
        match &self.scroll_pin {
            Some(pin) => {
                let offset = self.model.offset_of(pin.anchor);
                match self.model.source_to_display(offset, pin.affinity) {
                    Some(display) => {
                        let item = match self.text_item_for_display(display, pin.affinity) {
                            Some(item) => item,
                            None => self.layout_item_for_source(offset),
                        };
                        Some((offset, display, item))
                    },
                    None => None,
                }
            },
            None => None,
        }
    }

    /// On which side of its offset a pinned place is, and the bits of the
    /// fraction of the viewport that it is shown at.
    pub fn pinned_fraction(&self) -> (pin: Option<(Affinity, u32)>)
        ensures
            match pin {
                Some((affinity, fraction)) => self@.pin matches Some(pin) && affinity
                    == pin.spec_affinity() && fraction == pin.spec_fraction(),
                None => self@.pin is None,
            },
    {
        match &self.scroll_pin {
            Some(pin) => Some((pin.affinity, pin.viewport_fraction)),
            None => None,
        }
    }

    /// The row of the trailer.
    pub fn trailer_row(&self) -> (row: Option<usize>)
        ensures
            match row {
                Some(at) => at < self@.items.len() && self@.items[at as int] is Trailer && forall|
                    i: int,
                |
                    0 <= i < at ==> !((#[trigger] self@.items[i]) is Trailer),
                None => forall|i: int|
                    0 <= i < self@.items.len() ==> !((#[trigger] self@.items[i]) is Trailer),
            },
    {
        let mut i: usize = 0;
        while i < self.layout_items.len()
            invariant
                i <= self.layout_items@.len(),
                self@.items == layout_views(self.layout_items@),
                forall|k: int| 0 <= k < i ==> !((#[trigger] self@.items[k]) is Trailer),
            decreases self.layout_items@.len() - i,
        {
            assert(self@.items[i as int] == self.layout_items@[i as int]@);
            if let DocumentLayoutItem::Trailer = &self.layout_items[i] {
                return Some(i);
            }
            i += 1;
        }
        None
    }

    fn item_near(&self, display: usize, affinity: Affinity, source: usize) -> (item: usize)
        requires
            self.wf(),
        ensures
            item == self@.item_near(display as int, affinity, source as int),
    {
        match self.text_item_for_display(display, affinity) {
            Some(item) => item,
            None => self.layout_item_for_source(source),
        }
    }

    /// What the geometry of a range of code units is asked for.
    pub fn bounds_for_range(&self, range_utf16: Range<usize>) -> (bounds: Option<InputBounds<I>>)
        requires
            self.wf(),
        ensures
            ({
                let range = (range_utf16.start as int, range_utf16.end as int);
                match bounds {
                    Some(bounds) => self@.bounds_of(range, bounds),
                    None => forall|bounds: InputBounds<I>| !(#[trigger] self@.bounds_of(
                        range,
                        bounds,
                    )),
                }
            }),
    {
        let source = self.model.range_from_utf16(&range_utf16);
        let start_affinity = if source.start >= source.end {
            Affinity::After
        } else {
            Affinity::Before
        };
        let start_display = match self.model.source_to_display(source.start, start_affinity) {
            Some(at) => at,
            None => {
                return None;
            },
        };
        let end_display = match self.model.source_to_display(source.end, Affinity::After) {
            Some(at) => at,
            None => {
                return None;
            },
        };
        let start_item = self.item_near(start_display, start_affinity, source.start);
        let end_item = self.item_near(end_display, Affinity::After, source.end);
        let start = self.model.input_position_for_offset(source.start, start_affinity);
        let end = self.model.input_position_for_offset(source.end, Affinity::After);
        Some(
            InputBounds {
                source,
                start_affinity,
                start_display,
                end_display,
                start_item,
                end_item,
                start,
                end,
            },
        )
    }
}

/// What a scan for an index has kept before `to`.
spec fn kept<T>(
    items: Seq<T>,
    test: spec_fn(T) -> bool,
    first: bool,
    found: Option<usize>,
    to: int,
) -> bool {
    match found {
        Some(at) => {
            &&& 0 <= at < to
            &&& test(items[at as int])
            &&& first ==> forall|i: int| 0 <= i < at ==> !(#[trigger] test(items[i]))
            &&& !first ==> forall|i: int| at < i < to ==> !(#[trigger] test(items[i]))
        },
        None => forall|i: int| 0 <= i < to ==> !(#[trigger] test(items[i])),
    }
}

} // verus!
