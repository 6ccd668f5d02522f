//! What the measurements of a laid-out document decide: what a point hits,
//! which row comes next, and whether the view has to scroll.
//!
//! Lengths stay with the view. Here a length is its key: keys are in the order
//! of the lengths.

use crate::document::event::DocumentEffect;
use crate::document::layout::LayoutView;
use crate::document::model::lemma_resolved;
use crate::document::position::{Affinity, DocumentPosition};
use crate::document::state::{position_of, DocumentState};
use crate::document::state_view::StateView;
use crate::scan::{
    first_where, last_where, lemma_first_where, lemma_first_where_is, lemma_last_where,
};
use std::ops::Range;
use vstd::prelude::*;

verus! {

// ---------------------------------------------------------------------------
// Points
// ---------------------------------------------------------------------------

/// A place of a line that the caret can stand at, and how far it is from a
/// point.
#[derive(Clone, Copy, Debug, PartialEq, Eq)]
pub struct CaretStop {
    pub index: usize,
    pub distance: u32,
}

/// The glyphs of one visual row of a line.
pub open spec fn in_visual_row(start: CaretStop, end: CaretStop) -> spec_fn(CaretStop) -> bool {
    |glyph: CaretStop| start.index <= glyph.index < end.index
}

/// Every place of a visual row that the caret can stand at: where the row
/// starts, before each of its glyphs, and where it ends.
pub open spec fn caret_stops(start: CaretStop, glyphs: Seq<CaretStop>, end: CaretStop) -> Seq<
    CaretStop,
> {
    seq![start] + glyphs.filter(in_visual_row(start, end)) + seq![end]
}

/// No stop is closer than a stop, and none before it is as close.
pub open spec fn first_closest(stops: Seq<CaretStop>, at: int) -> bool {
    &&& 0 <= at < stops.len()
    &&& forall|i: int| 0 <= i < stops.len() ==> stops[at].distance <= (#[trigger] stops[i]).distance
    &&& forall|i: int| 0 <= i < at ==> stops[at].distance < (#[trigger] stops[i]).distance
}

/// The caret index of a visual row that is closest to a point: the first such
/// of its start, its glyphs and its end.
pub fn closest_caret_index(start: CaretStop, glyphs: &[CaretStop], end: CaretStop) -> (index: usize)
    ensures
        exists|at: int|
            #[trigger] first_closest(caret_stops(start, glyphs@, end), at) && caret_stops(
                start,
                glyphs@,
                end,
            )[at].index == index,
{
    let ghost test = in_visual_row(start, end);
    let mut closest: CaretStop = start;
    let ghost mut at: int = 0;
    let mut i: usize = 0;
    assert(glyphs@.subrange(0, 0).filter(test) =~= Seq::<CaretStop>::empty()) by {
        reveal(Seq::filter);
    }
    while i < glyphs.len()
        invariant
            i <= glyphs@.len(),
            test == in_visual_row(start, end),
            ({
                let seen = seq![start] + glyphs@.subrange(0, i as int).filter(test);
                first_closest(seen, at) && seen[at] == closest
            }),
        decreases glyphs@.len() - i,
    {
        let glyph = glyphs[i];
        let ghost seen = seq![start] + glyphs@.subrange(0, i as int).filter(test);
        proof {
            let next = glyphs@.subrange(0, i + 1);
            assert(next.drop_last() =~= glyphs@.subrange(0, i as int));
            assert(next.last() == glyph);
            reveal(Seq::filter);
            assert(seq![start] + next.filter(test) =~= (if test(glyph) {
                seen.push(glyph)
            } else {
                seen
            }));
        }
        if start.index <= glyph.index && glyph.index < end.index && glyph.distance
            < closest.distance {
            closest = glyph;
            proof {
                at = seen.len() as int;
            }
        }
        i += 1;
    }
    let ghost seen = seq![start] + glyphs@.filter(test);
    assert(glyphs@.subrange(0, i as int) =~= glyphs@);
    assert(caret_stops(start, glyphs@, end) =~= seen.push(end));
    if end.distance < closest.distance {
        assert(first_closest(caret_stops(start, glyphs@, end), seen.len() as int));
        end.index
    } else {
        assert(first_closest(caret_stops(start, glyphs@, end), at));
        closest.index
    }
}

/// A laid-out row and how far it is from a point.
#[derive(Clone, Copy, Debug, PartialEq, Eq)]
pub struct RowDistance {
    pub distance: i32,
    pub item: usize,
}

impl RowDistance {
    /// A row is closer than another, or as close and before it.
    pub open spec fn beats(self, other: RowDistance) -> bool {
        self.distance < other.distance || (self.distance == other.distance && self.item
            < other.item)
    }
}

/// The closest of the laid-out rows. Of rows as close the one with the lowest
/// index counts.
pub fn nearest_row(rows: &[RowDistance]) -> (nearest: Option<usize>)
    ensures
        match nearest {
            Some(at) => {
                &&& at < rows@.len()
                &&& forall|i: int| 0 <= i < rows@.len() ==> !(#[trigger] rows@[i]).beats(rows@[at as int])
                &&& forall|i: int| 0 <= i < at ==> rows@[at as int].beats(#[trigger] rows@[i])
            },
            None => rows@.len() == 0,
        },
{
    if rows.len() == 0 {
        return None;
    }
    let mut at: usize = 0;
    let mut i: usize = 1;
    while i < rows.len()
        invariant
            at < i <= rows@.len(),
            forall|k: int| 0 <= k < i ==> !(#[trigger] rows@[k]).beats(rows@[at as int]),
            forall|k: int| 0 <= k < at ==> rows@[at as int].beats(#[trigger] rows@[k]),
        decreases rows@.len() - i,
    {
        let row = rows[i];
        let best = rows[at];
        if row.distance < best.distance || (row.distance == best.distance && row.item < best.item) {
            at = i;
        }
        i += 1;
    }
    Some(at)
}

/// A block that a place stands at: on its left edge or in it, and with the
/// other affinity in it or on its right edge.
pub open spec fn block_holds(offset: int, affinity: Affinity) -> spec_fn(Range<usize>) -> bool {
    |source: Range<usize>|
        if affinity == Affinity::Before {
            source.start < offset <= source.end
        } else {
            source.start <= offset < source.end
        }
}

/// The first of the laid-out blocks that a place stands at.
pub fn block_at_offset(blocks: &[Range<usize>], offset: usize, affinity: Affinity) -> (found: Option<
    usize,
>)
    ensures
        ({
            let at = first_where(blocks@, block_holds(offset as int, affinity), 0);
            found == (if at < blocks@.len() {
                Some(at as usize)
            } else {
                None
            })
        }),
{
    let ghost test = block_holds(offset as int, affinity);
    let before = affinity == Affinity::Before;
    let mut i: usize = 0;
    while i < blocks.len()
        invariant
            i <= blocks@.len(),
            test == block_holds(offset as int, affinity),
            before == (affinity == Affinity::Before),
            forall|k: int| 0 <= k < i ==> !(#[trigger] test(blocks@[k])),
        decreases blocks@.len() - i,
    {
        let source = &blocks[i];
        let holds = if before {
            source.start < offset && offset <= source.end
        } else {
            source.start <= offset && offset < source.end
        };
        if holds {
            proof {
                lemma_first_where_is(blocks@, test, 0, i as int);
            }
            return Some(i);
        }
        i += 1;
    }
    proof {
        lemma_first_where_is(blocks@, test, 0, blocks@.len() as int);
    }
    None
}

/// Rows behind a row.
pub open spec fn rows_behind(item: usize) -> spec_fn(usize) -> bool {
    |other: usize| other > item
}

/// Rows before a row.
pub open spec fn rows_before(item: usize) -> spec_fn(usize) -> bool {
    |other: usize| other < item
}

/// The laid-out text row next to a row: the first behind it, or the last
/// before it.
pub fn adjacent_row(items: &[usize], item: usize, down: bool) -> (adjacent: Option<usize>)
    ensures
        ({
            let at = if down {
                first_where(items@, rows_behind(item), 0)
            } else {
                last_where(items@, rows_before(item), items@.len() as int)
            };
            adjacent == (if 0 <= at < items@.len() {
                Some(at as usize)
            } else {
                None
            })
        }),
{
    if down {
        let ghost test = rows_behind(item);
        let mut i: usize = 0;
        while i < items.len()
            invariant
                down,
                i <= items@.len(),
                test == rows_behind(item),
                forall|k: int| 0 <= k < i ==> !(#[trigger] test(items@[k])),
            decreases items@.len() - i,
        {
            if items[i] > item {
                proof {
                    lemma_first_where_is(items@, test, 0, i as int);
                }
                return Some(i);
            }
            i += 1;
        }
        proof {
            lemma_first_where_is(items@, test, 0, items@.len() as int);
        }
        None
    } else {
        let ghost test = rows_before(item);
        let mut i: usize = items.len();
        proof {
            lemma_last_where(items@, test, items@.len() as int);
        }
        while i > 0
            invariant
                !down,
                i <= items@.len(),
                test == rows_before(item),
                forall|k: int| i <= k < items@.len() ==> !(#[trigger] test(items@[k])),
                ({
                    let at = last_where(items@, test, items@.len() as int);
                    &&& -1 <= at < items@.len()
                    &&& at >= 0 ==> test(items@[at])
                    &&& forall|k: int| at < k < items@.len() ==> !(#[trigger] test(items@[k]))
                }),
            decreases i,
        {
            i -= 1;
            if items[i] < item {
                assert(test(items@[i as int]));
                return Some(i);
            }
        }
        None
    }
}

/// What a point hits.
pub enum PointerHit {
    /// The space behind the last line.
    Trailer,
    /// A caret index of a text row, counted from the start of its display.
    Text { item: usize, display: Range<usize>, local: usize },
    /// The upper or the lower half of a block.
    Block { source: Range<usize>, upper: bool },
    /// Nothing, since nothing is laid out.
    Nothing,
}

impl<I> StateView<I> {
    /// A hit lies in the rows and in the display.
    pub open(crate) spec fn hit_fits(self, hit: PointerHit) -> bool {
        match hit {
            PointerHit::Text { item, display, local } => {
                &&& item < self.items.len()
                &&& display.start <= display.end
                &&& display.start + local <= self.model.display().len()
            },
            _ => true,
        }
    }

    /// The position that a point stands for. Below the text that is the end
    /// of the document, and where nothing is laid out the caret stays.
    pub open(crate) spec fn position_of_hit(self, hit: PointerHit) -> Option<DocumentPosition<I>> {
        match hit {
            PointerHit::Trailer => self.model.any_position(
                self.model.bytes.len() as int,
                Affinity::After,
            ),
            PointerHit::Text { item, display, local } => self.position_in_row(
                item as int,
                (display.start as int, display.end as int),
                local as int,
            ),
            PointerHit::Block { source, upper } => if upper {
                self.model.any_position(source.start as int, Affinity::After)
            } else {
                self.model.any_position(source.end as int, Affinity::Before)
            },
            PointerHit::Nothing => match self.model.head_position() {
                Ok(head) => Some(head),
                Err(_) => None,
            },
        }
    }

    /// The text row that shows a position, and where the position is in the
    /// display.
    pub open(crate) spec fn text_place(self, position: DocumentPosition<I>) -> Option<(int, int)> {
        match self.model.resolve_position(position) {
            Ok(offset) => match (
                self.model.projection.source_to_display(offset as int, position.spec_affinity()),
                self.item_of_position(position),
            ) {
                (Some(display), Some(item)) => Some((item, display)),
                _ => None,
            },
            Err(_) => None,
        }
    }
}

impl<I: Clone + Eq> DocumentState<I> {
    /// The position that a point stands for.
    pub fn position_for_hit(&self, hit: &PointerHit) -> (position: Option<DocumentPosition<I>>)
        requires
            self.wf(),
            self@.hit_fits(*hit),
        ensures
            position == self@.position_of_hit(*hit),
    {
        match hit {
            PointerHit::Trailer => self.end_position(),
            PointerHit::Text { item, display, local } => self.text_position_in_row(
                *item,
                display,
                *local,
            ),
            PointerHit::Block { source, upper } => self.position_beside(source, *upper),
            PointerHit::Nothing => self.caret_position(),
        }
    }

    /// Whether the selection covers a part of the source, so that a block there
    /// is painted as selected.
    pub fn is_selected_source(&self, source: &Range<usize>) -> (selected: bool)
        requires
            self.wf(),
        ensures
            selected == (self@.model.selected().0 <= source.start && source.end
                <= self@.model.selected().1),
    {
        let selection = self.selected_range();
        selection.start <= source.start && source.end <= selection.end
    }

    /// The text row that shows a position, and where the position is in the
    /// display.
    pub fn text_place(&self, position: &DocumentPosition<I>) -> (place: Option<(usize, usize)>)
        requires
            self.wf(),
        ensures
            match place {
                Some((item, display)) => self@.text_place(*position) == Some(
                    (item as int, display as int),
                ),
                None => self@.text_place(*position) is None,
            },
    {
        let offset = match self.resolve_position(position) {
            Ok(offset) => offset,
            Err(_) => {
                return None;
            },
        };
        proof {
            lemma_resolved(self@.model, *position);
        }
        match self.model.source_to_display(offset, position.affinity()) {
            Some(display) => match self.text_item_for_position(position) {
                Some(item) => Some((item, display)),
                None => None,
            },
            None => None,
        }
    }
}

// ---------------------------------------------------------------------------
// Scrolling
// ---------------------------------------------------------------------------

/// What was measured for a pinned place.
pub struct PinMeasure {
    /// The place is laid out.
    pub laid_out: bool,
    /// The row at the top of the viewport.
    pub top_item: usize,
    /// The viewport has a height.
    pub open: bool,
    /// The place is where it should be.
    pub close: bool,
    /// It should be further down.
    pub above: bool,
    /// It should be further up.
    pub below: bool,
    /// The view cannot scroll up.
    pub at_top: bool,
    /// The last row ends in the viewport.
    pub at_end: bool,
}

/// What the view does to follow a place.
#[derive(Clone, Copy, Debug, PartialEq, Eq)]
pub enum PinStep {
    Stay,
    /// Put a row at the top.
    ToItem(usize),
    /// Scroll by the distance that was measured.
    Scroll,
}

/// What was measured for the caret.
pub struct CaretMeasure {
    /// The caret is laid out.
    pub laid_out: bool,
    /// Its row is laid out.
    pub row_laid_out: bool,
    /// The viewport has a height.
    pub open: bool,
    /// The caret is not in the inner part of the viewport.
    pub outside: bool,
}

/// What the view does to show the caret.
#[derive(Clone, Copy, Debug, PartialEq, Eq)]
pub enum CaretStep {
    Stay,
    /// Scroll so far that a row is visible.
    RevealItem(usize),
    /// Put a row at the top.
    ToItem(usize),
    /// Scroll by the distance that was measured.
    Scroll,
}

impl<I> StateView<I> {
    /// How the view follows its pin. A place that is not laid out is brought
    /// in by its row. Else the view scrolls, but not beyond either end.
    pub open(crate) spec fn pin_step(self, measure: PinMeasure) -> PinStep {
        match self.pin_place() {
            None => PinStep::Stay,
            Some((_, _, item)) => if !measure.laid_out {
                if item == measure.top_item {
                    PinStep::Stay
                } else {
                    PinStep::ToItem(item as usize)
                }
            } else if measure.open && !measure.close && !(measure.above && measure.at_top) && !(
            measure.below && measure.at_end) {
                PinStep::Scroll
            } else {
                PinStep::Stay
            },
        }
    }

    /// The row that the caret is shown in.
    pub open(crate) spec fn caret_row(self) -> Option<int> {
        match self.model.head_position() {
            Ok(head) => self.item_of_position(head),
            Err(_) => None,
        }
    }

    /// How the view shows the caret, if it is to be shown.
    pub open(crate) spec fn caret_step(self, measure: CaretMeasure) -> CaretStep {
        if !self.reveal || self.model.head_position() is Err {
            CaretStep::Stay
        } else if !measure.laid_out {
            match self.caret_row() {
                Some(item) => if measure.row_laid_out {
                    CaretStep::RevealItem(item as usize)
                } else {
                    CaretStep::ToItem(item as usize)
                },
                None => CaretStep::Stay,
            }
        } else if measure.open && measure.outside {
            CaretStep::Scroll
        } else {
            CaretStep::Stay
        }
    }

    /// After a step to show the caret. The caret is shown once it is laid out
    /// in a viewport.
    pub open(crate) spec fn caret_stepped(self, measure: CaretMeasure) -> StateView<I> {
        let shown = if self.model.head_position() is Ok && measure.laid_out && measure.open {
            StateView { reveal: false, ..self }
        } else {
            self
        };
        if self.caret_step(measure) is Stay {
            shown
        } else {
            shown.notified()
        }
    }

    /// Before rows are laid out. Text that flows anew keeps the place at the
    /// top, text that looks different is measured again, and so is the space
    /// behind the last line when its height has changed.
    pub open(crate) spec fn layout_prepared(
        self,
        style_changed: bool,
        width_changed: bool,
        trailer_resized: bool,
        top: Option<DocumentPosition<I>>,
    ) -> StateView<I> {
        let kept = if style_changed || width_changed {
            self.with_effect(DocumentEffect::ForgetColumn).keeping_viewport(top)
        } else {
            self
        };
        let measured = if style_changed {
            kept.with_effect(
                DocumentEffect::RemeasureItems { from: 0, to: kept.items.len() as usize },
            )
        } else {
            kept
        };
        let trailer = first_where(self.items, |item: LayoutView<I>| item is Trailer, 0);
        if trailer_resized && self.trailer && trailer < self.items.len() {
            measured.with_effect(
                DocumentEffect::RemeasureItems {
                    from: trailer as usize,
                    to: (trailer + 1) as usize,
                },
            )
        } else {
            measured
        }
    }
}

impl<I: Clone + Eq> DocumentState<I> {
    /// How the view follows its pin.
    pub fn scroll_pin_step(&self, measure: &PinMeasure) -> (step: PinStep)
        requires
            self.wf(),
        ensures
            step == self@.pin_step(*measure),
    {
        match self.pinned_place() {
            None => PinStep::Stay,
            Some((_, _, item)) => if !measure.laid_out {
                if item == measure.top_item {
                    PinStep::Stay
                } else {
                    PinStep::ToItem(item)
                }
            } else if measure.open && !measure.close && !(measure.above && measure.at_top) && !(
            measure.below && measure.at_end) {
                PinStep::Scroll
            } else {
                PinStep::Stay
            },
        }
    }

    /// The row that the caret is shown in.
    pub fn caret_row(&self) -> (row: Option<usize>)
        requires
            self.wf(),
        ensures
            match row {
                Some(item) => self@.caret_row() == Some(item as int),
                None => self@.caret_row() is None,
            },
    {
        match self.caret_position() {
            Some(head) => self.text_item_for_position(&head),
            None => None,
        }
    }

    /// How the view shows the caret.
    pub fn caret_reveal_step(&mut self, measure: &CaretMeasure) -> (step: CaretStep)
        requires
            old(self).wf(),
        ensures
            final(self).wf(),
            step == old(self)@.caret_step(*measure),
            final(self)@ == old(self)@.caret_stepped(*measure),
    {
        if !self.is_caret_reveal_pending() || self.caret_position().is_none() {
            return CaretStep::Stay;
        }
        if !measure.laid_out {
            return match self.caret_row() {
                Some(item) => {
                    self.notify();
                    if measure.row_laid_out {
                        CaretStep::RevealItem(item)
                    } else {
                        CaretStep::ToItem(item)
                    }
                },
                None => CaretStep::Stay,
            };
        }
        if !measure.open {
            return CaretStep::Stay;
        }
        self.caret_shown();
        if measure.outside {
            self.notify();
            CaretStep::Scroll
        } else {
            CaretStep::Stay
        }
    }

    /// Gets ready for a new layout. `top` is the place at the top of the
    /// viewport.
    pub fn prepare_layout(
        &mut self,
        style_changed: bool,
        width_changed: bool,
        trailer_resized: bool,
        top: Option<&DocumentPosition<I>>,
    )
        requires
            old(self).wf(),
            old(self)@.model.has_room(1),
        ensures
            final(self).wf(),
            final(self)@ == old(self)@.layout_prepared(
                style_changed,
                width_changed,
                trailer_resized,
                position_of(top),
            ),
    {
        if style_changed || width_changed {
            self.effect(DocumentEffect::ForgetColumn);
            self.capture_viewport_anchor(top);
        }
        if style_changed {
            let count = self.layout_items().len();
            self.effect(DocumentEffect::RemeasureItems { from: 0, to: count });
        }
        if trailer_resized && self.dynamic_trailer {
            let ghost items = self@.items;
            let ghost test = |item: LayoutView<I>| item is Trailer;
            match self.trailer_row() {
                Some(row) => {
                    let count = self.layout_items.len();
                    assert(row < count);
                    proof {
                        lemma_first_where_is(items, test, 0, row as int);
                    }
                    self.effect(DocumentEffect::RemeasureItems { from: row, to: row + 1 });
                },
                None => {
                    proof {
                        lemma_first_where(items, test, 0);
                    }
                },
            }
        }
        assert(self@ =~= old(self)@.layout_prepared(
            style_changed,
            width_changed,
            trailer_resized,
            position_of(top),
        ));
    }
}

} // verus!
