//! Undo and redo bring back all that a document shows: its text and regions,
//! and what is projected, placed and styled on them.

use crate::document::anchored_block::AnchoredBlock;
use crate::document::block::{
    blocks_carried, hides_block, law_blocks_are_hidden_atomic_regions, DocumentBlock,
};
use crate::document::edit_laws::{edits_of, law_only_rows_and_styles_refuse_edits};
use crate::document::edit_lemmas::text_edit;
use crate::document::model_edit::{
    lemma_addressable, lemma_inserted_prefix, lemma_part_applicable,
};
use crate::document::model_lemmas::{lemma_edited_in_wf, lemma_regions_grown, lemma_spans_spare};
use crate::document::model_view::{rows_fault, ModelView};
use crate::document::projection::{entry_valid, mapping_valid, ProjectionView, SpanView};
use crate::document::region::{lemma_region_index, region_index_of, DocumentRegion, EditPolicy};
use crate::document::resolve::{
    inline_sources, paragraph_sources, region_forbids, style_range_fault, style_ranges_fault,
    styles_fault,
};
use crate::document::state_edit::{lemma_only_edit, undo_change, undo_changes};
use crate::document::state_host::HostView;
use crate::document::state_undo::{
    change_fits, lemma_failed_replay, lemma_no_replay, lemma_replay_is, lemma_rest_bytes,
};
use crate::document::style::{DocumentInlineStyle, DocumentParagraphStyle, StylesView};
use crate::document::transaction::{
    carried, edited, edits_addressable, edits_conflict, edits_inside, ends, inserted_len,
    lemma_edited_before, lemma_net_growth_within, net_growth, EditTransaction, TextEdit,
};
use crate::document::undo::{ChangeView, RecordView, UndoChange, UndoRecord};
use crate::document::undo_laws::{
    grown_regions, lemma_grown_twice, lemma_replay_succeeds, lemma_replayed_stage,
    lemma_splice_back, lemma_unadorned, lemma_untouched, unadorned,
};
use crate::order::{lemma_sort_members, lemma_stable_sort, stable_sort};
use crate::scan::lemma_first_fault;
use crate::text::{at_boundary, lemma_encoded, lemma_splice_boundaries, splice_bytes};
use std::ops::Range;
use vstd::prelude::*;

verus! {

/// Two documents that show the same: text, regions and presentation.
pub open spec fn shows_alike<I>(a: ModelView<I>, b: ModelView<I>) -> bool {
    &&& a.bytes == b.bytes
    &&& a.regions == b.regions
    &&& a.projection == b.projection
    &&& a.blocks == b.blocks
    &&& a.anchored == b.anchored
    &&& a.styles == b.styles
}

/// The anchored rows and the styles of a document fit its text.
pub open(crate) spec fn presentable<I>(m: ModelView<I>) -> bool {
    &&& rows_fault(m.bytes, m.regions, m.projection, m.anchored) is None
    &&& styles_fault(m.styles, m.bytes, m.regions, m.projection, m.display()) is None
}

/// An empty range at the start of `start..end` or inside.
pub open spec fn is_empty_in(range: Range<usize>, start: int, end: int) -> bool {
    range.start >= range.end && start <= range.start < end
}

/// No style without text lies in `start..end`. One that does goes to the end
/// of what replaces the text, and stays there when the text comes back.
pub open spec fn no_empty_style(styles: StylesView, start: int, end: int) -> bool {
    &&& forall|i: int|
        0 <= i < styles.paragraphs.len() ==> !is_empty_in(
            (#[trigger] styles.paragraphs[i]).spec_source(),
            start,
            end,
        )
    &&& forall|i: int|
        0 <= i < styles.inline.len() ==> !is_empty_in(
            (#[trigger] styles.inline[i]).spec_source(),
            start,
            end,
        )
}

/// Where a range of a style is after `start..end` was replaced and put back: a
/// style without text in it goes to its end, any other stays.
pub open spec fn put_back(range: Range<usize>, start: int, end: int) -> Range<usize> {
    if is_empty_in(range, start, end) {
        (end as usize)..(end as usize)
    } else {
        range
    }
}

/// Styles after `start..end` was replaced and put back.
pub open(crate) spec fn styles_put_back(styles: StylesView, start: int, end: int) -> StylesView {
    StylesView {
        paragraphs: styles.paragraphs.map_values(
            |s: DocumentParagraphStyle| s.with_source(put_back(s.spec_source(), start, end)),
        ),
        inline: styles.inline.map_values(
            |s: DocumentInlineStyle| s.with_source(put_back(s.spec_source(), start, end)),
        ),
    }
}

/// A document after `start..end` was replaced and put back.
pub open(crate) spec fn restored<I>(m: ModelView<I>, start: int, end: int) -> ModelView<I> {
    ModelView { styles: styles_put_back(m.styles, start, end), ..m }
}

/// Where no style without text lies in what was replaced, all of the document
/// is as before.
pub proof fn law_styles_with_text_come_back<I>(m: ModelView<I>, start: int, end: int)
    requires
        no_empty_style(m.styles, start, end),
    ensures
        shows_alike(restored(m, start, end), m),
{
    let back = styles_put_back(m.styles, start, end);
    assert(back.paragraphs =~= m.styles.paragraphs);
    assert(back.inline =~= m.styles.inline);
}

// ---------------------------------------------------------------------------
// Ranges that follow an edit and come back
// ---------------------------------------------------------------------------

/// A range on one side of `start..end`, or without text.
spec fn beside(range: (int, int), start: int, end: int) -> bool {
    range.0 < range.1 ==> range.1 <= start || end <= range.0
}

/// A range after `start..end` was replaced and put back.
spec fn ends_put_back(range: (int, int), start: int, end: int) -> (int, int) {
    if range.0 >= range.1 && start <= range.0 < end {
        (end, end)
    } else {
        range
    }
}

/// An edit that puts back what another has replaced.
spec fn takes_back(back: TextEdit, edit: TextEdit) -> bool {
    &&& back.start() == edit.start()
    &&& back.end() == edit.start() + edit.bytes().len()
    &&& back.bytes().len() == edit.end() - edit.start()
}

proof fn lemma_range_back(range: (int, int), edit: TextEdit, back: TextEdit, len: int)
    requires
        0 <= range.0 <= range.1 <= len,
        0 <= edit.start() <= edit.end() <= len,
        len + edit.bytes().len() <= isize::MAX,
        beside(range, edit.start(), edit.end()),
        takes_back(back, edit),
    ensures
        0 <= carried(range, seq![edit]).0 <= usize::MAX,
        0 <= carried(range, seq![edit]).1 <= usize::MAX,
        carried(carried(range, seq![edit]), seq![back]) == ends_put_back(
            range,
            edit.start(),
            edit.end(),
        ),
        carried(ends_put_back(range, edit.start(), edit.end()), seq![edit]) == carried(
            range,
            seq![edit],
        ),
{
    reveal_with_fuel(carried, 2);
    assert(seq![edit].drop_last() =~= Seq::empty());
    assert(seq![back].drop_last() =~= Seq::empty());
}

proof fn lemma_span_back(span: SpanView, edit: TextEdit, back: TextEdit, len: int)
    requires
        0 <= span.start < span.end <= len,
        mapping_valid(span),
        0 <= edit.start() <= edit.end() <= len,
        len + edit.bytes().len() <= isize::MAX,
        span.end <= edit.start() || edit.end() <= span.start,
        takes_back(back, edit),
    ensures
        span.carried(seq![edit]).carried(seq![back]) == span,
{
    let there = span.carried(seq![edit]);
    let again = there.carried(seq![back]);
    lemma_range_back((span.start, span.end), edit, back, len);
    if let Some(entries) = span.mapping {
        let found = again.mapping->0;
        assert forall|k: int| 0 <= k < entries.len() implies found[k] == #[trigger] entries[k] by {
            assert(entry_valid(entries, span, k));
            lemma_range_back(entries[k].spec_source(), edit, back, len);
        }
        assert(found =~= entries);
    }
    assert(again =~= span);
}

/// Ranges of styles without a fault lie within the text and, unless they are
/// empty, beside what an edit of an editable region takes out.
proof fn lemma_sources_beside<I>(
    m: ModelView<I>,
    ranges: Seq<Range<usize>>,
    target: int,
    start: int,
    end: int,
    i: int,
)
    requires
        style_ranges_fault(ranges, m.bytes, m.regions) is None,
        0 <= target < m.regions.len(),
        m.regions[target].spec_policy() == EditPolicy::Editable,
        m.regions[target].start() <= start <= end <= m.regions[target].end(),
        0 <= i < ranges.len(),
    ensures
        ranges[i].start <= ranges[i].end <= m.bytes.len(),
        beside(ends(ranges[i]), start, end),
{
    let sorted = stable_sort(ranges);
    let fault = style_range_fault(sorted, m.bytes, m.regions);
    lemma_stable_sort(ranges);
    lemma_first_fault(fault, 0, ranges.len() as int);
    lemma_sort_members(ranges);
    assert(ranges.contains(ranges[i]));
    assert(sorted.contains(ranges[i]));
    let k = choose|k: int| 0 <= k < sorted.len() && sorted[k] == ranges[i];
    assert(fault(k) is None);
    let forbids = region_forbids(ranges[i], m.regions);
    lemma_first_fault(forbids, 0, m.regions.len() as int);
    assert(forbids(target) is None);
}

/// Styles follow an edit and come back, and follow it again.
proof fn lemma_styles_back<I>(m: ModelView<I>, target: int, edit: TextEdit, back: TextEdit)
    requires
        edits_of(m, target, seq![edit]),
        presentable(m),
        takes_back(back, edit),
    ensures
        m.styles.carried(seq![edit]).carried(seq![back]) == styles_put_back(
            m.styles,
            edit.start(),
            edit.end(),
        ),
        styles_put_back(m.styles, edit.start(), edit.end()).carried(seq![edit])
            == m.styles.carried(seq![edit]),
{
    let styles = m.styles;
    let there = styles.carried(seq![edit]);
    let again = there.carried(seq![back]);
    let put = styles_put_back(styles, edit.start(), edit.end());
    let len = m.bytes.len() as int;
    lemma_only_edit(seq![edit]);
    assert(seq![edit][0] == edit);
    assert forall|i: int| 0 <= i < styles.paragraphs.len() implies again.paragraphs[i]
        == #[trigger] put.paragraphs[i] && put.carried(seq![edit]).paragraphs[i]
        == there.paragraphs[i] by {
        let source = styles.paragraphs[i].spec_source();
        assert(paragraph_sources(styles.paragraphs)[i] == source);
        lemma_sources_beside(
            m,
            paragraph_sources(styles.paragraphs),
            target,
            edit.start(),
            edit.end(),
            i,
        );
        lemma_range_back(ends(source), edit, back, len);
    }
    assert forall|i: int| 0 <= i < styles.inline.len() implies again.inline[i]
        == #[trigger] put.inline[i] && put.carried(seq![edit]).inline[i] == there.inline[i] by {
        let source = styles.inline[i].spec_source();
        assert(inline_sources(styles.inline)[i] == source);
        lemma_sources_beside(
            m,
            inline_sources(styles.inline),
            target,
            edit.start(),
            edit.end(),
            i,
        );
        lemma_range_back(ends(source), edit, back, len);
    }
    assert(again.paragraphs =~= put.paragraphs);
    assert(again.inline =~= put.inline);
    assert(put.carried(seq![edit]).paragraphs =~= there.paragraphs);
    assert(put.carried(seq![edit]).inline =~= there.inline);
}

/// What is projected follows an edit and comes back.
proof fn lemma_projection_back<I>(m: ModelView<I>, target: int, edit: TextEdit, back: TextEdit)
    requires
        edits_of(m, target, seq![edit]),
        takes_back(back, edit),
    ensures
        m.projection.source_len == m.bytes.len(),
        forall|there: int, again: int|
            (#[trigger] m.projection.carried(seq![edit], there).carried(seq![back], again)).spans
                == m.projection.spans,
{
    let p = m.projection;
    lemma_only_edit(seq![edit]);
    lemma_spans_spare(m, target);
    assert(seq![edit][0] == edit);
    assert forall|there: int, again: int|
        (#[trigger] p.carried(seq![edit], there).carried(seq![back], again)).spans == p.spans by {
        let q = p.carried(seq![edit], there).carried(seq![back], again);
        assert forall|i: int| 0 <= i < p.spans.len() implies q.spans[i] == #[trigger] p.spans[i] by {
            lemma_span_back(p.spans[i], edit, back, m.bytes.len() as int);
        }
        assert(q.spans =~= p.spans);
    }
}

/// Blocks follow an edit and come back.
proof fn lemma_blocks_back<I>(m: ModelView<I>, target: int, edit: TextEdit, back: TextEdit)
    requires
        edits_of(m, target, seq![edit]),
        takes_back(back, edit),
    ensures
        blocks_carried(blocks_carried(m.blocks, seq![edit]), seq![back]) == m.blocks,
{
    let len = m.bytes.len() as usize;
    let again = blocks_carried(blocks_carried(m.blocks, seq![edit]), seq![back]);
    lemma_only_edit(seq![edit]);
    lemma_spans_spare(m, target);
    assert(seq![edit][0] == edit);
    assert forall|i: int| 0 <= i < m.blocks.len() implies again[i] == #[trigger] m.blocks[i] by {
        let block = m.blocks[i];
        law_blocks_are_hidden_atomic_regions(m.blocks, m.regions, m.projection, len, i);
        let k = choose|k: int|
            0 <= k < m.projection.spans.len() && hides_block(
                #[trigger] m.projection.spans[k],
                block,
            );
        assert(hides_block(m.projection.spans[k], block));
        lemma_range_back((block.start(), block.end()), edit, back, len as int);
    }
    assert(again =~= m.blocks);
}

/// An edit of an editable region that puts back what another has replaced.
proof fn lemma_back_applies<I>(
    x: ModelView<I>,
    target: int,
    edit: TextEdit,
    y: ModelView<I>,
    back: TextEdit,
)
    requires
        edits_of(x, target, seq![edit]),
        y.wf(),
        shows_alike(y, x.edited_in(target, seq![edit])),
        takes_back(back, edit),
        back.bytes() == x.bytes.subrange(edit.start(), edit.end()),
    ensures
        edits_of(y, target, seq![back]),
        y.bytes.subrange(back.start(), back.end()) == edit.bytes(),
        y.regions[target].start() == x.regions[target].start(),
        y.regions[target].spec_id() == x.regions[target].spec_id(),
        grown_regions(y.regions, x.regions, target, net_growth(seq![edit])),
        y.bytes == splice_bytes(x.bytes, edit.start(), edit.end(), edit.bytes()),
{
    lemma_only_edit(seq![edit]);
    lemma_only_edit(seq![back]);
    assert(seq![edit][0] == edit && seq![back][0] == back);
    lemma_regions_grown(x, target, seq![edit]);
    assert(y.bytes == splice_bytes(x.bytes, edit.start(), edit.end(), edit.bytes())) by {
        reveal_with_fuel(edited, 2);
        assert(seq![edit].drop_last() =~= Seq::empty());
    }
    lemma_encoded(edit.replacement@);
    lemma_splice_boundaries(x.bytes, edit.start(), edit.end(), edit.bytes());
    assert(at_boundary(y.bytes, back.end())) by {
        assert(at_boundary(edit.bytes(), edit.bytes().len() as int));
    }
    assert(y.bytes.subrange(back.start(), back.end()) =~= edit.bytes());
    assert(y.regions[target].spec_id() == x.regions[target].spec_id());
    assert(grown_regions(y.regions, x.regions, target, net_growth(seq![edit]))) by {
        reveal(grown_regions);
    }
}

/// Text and regions come back.
proof fn lemma_source_back<I>(
    x: ModelView<I>,
    target: int,
    edit: TextEdit,
    y: ModelView<I>,
    back: TextEdit,
)
    requires
        edits_of(x, target, seq![edit]),
        edits_of(y, target, seq![back]),
        grown_regions(y.regions, x.regions, target, net_growth(seq![edit])),
        y.bytes == splice_bytes(x.bytes, edit.start(), edit.end(), edit.bytes()),
        takes_back(back, edit),
        back.bytes() == x.bytes.subrange(edit.start(), edit.end()),
    ensures
        y.edited_in(target, seq![back]).bytes == x.bytes,
        y.edited_in(target, seq![back]).regions == x.regions,
{
    let z = y.edited_in(target, seq![back]);
    lemma_only_edit(seq![edit]);
    lemma_only_edit(seq![back]);
    assert(seq![edit][0] == edit);
    lemma_regions_grown(y, target, seq![back]);
    lemma_splice_back(x.bytes, edit.start(), edit.end(), edit.bytes());
    assert(edited(y.bytes, seq![back]) == splice_bytes(
        y.bytes,
        back.start(),
        back.end(),
        back.bytes(),
    )) by {
        reveal_with_fuel(edited, 2);
        assert(seq![back].drop_last() =~= Seq::empty());
    }
    assert(grown_regions(z.regions, y.regions, target, net_growth(seq![back]))) by {
        reveal(grown_regions);
    }
    lemma_grown_twice(
        x.regions,
        y.regions,
        z.regions,
        target,
        net_growth(seq![edit]),
        net_growth(seq![back]),
    );
}

/// An edit is taken back by the edit that puts back what it replaced, unless
/// the styles would not fit where they then are.
proof fn lemma_edit_back<I>(
    x: ModelView<I>,
    target: int,
    edit: TextEdit,
    y: ModelView<I>,
    back: TextEdit,
)
    requires
        edits_of(x, target, seq![edit]),
        presentable(x),
        y.wf(),
        shows_alike(y, x.edited_in(target, seq![edit])),
        takes_back(back, edit),
        back.bytes() == x.bytes.subrange(edit.start(), edit.end()),
    ensures
        shows_alike(
            y.edited_in(target, seq![back]),
            restored(x, edit.start(), edit.end()),
        ),
        y.edit_rejection(target, seq![back]) is None <==> presentable(
            restored(x, edit.start(), edit.end()),
        ),
        y.edit_rejection(target, seq![back]) is None ==> y.edited_in(target, seq![back]).wf(),
{
    let z = y.edited_in(target, seq![back]);
    lemma_back_applies(x, target, edit, y, back);
    lemma_source_back(x, target, edit, y, back);
    lemma_projection_back(x, target, edit, back);
    lemma_blocks_back(x, target, edit, back);
    lemma_styles_back(x, target, edit, back);
    assert(z.projection =~= x.projection);
    law_only_rows_and_styles_refuse_edits(y, target, seq![back]);
    if y.edit_rejection(target, seq![back]) is None {
        lemma_edited_in_wf(y, target, seq![back]);
    }
}

// ---------------------------------------------------------------------------
// Replays that are taken back
// ---------------------------------------------------------------------------

/// No style without text lies in what replaying a change takes out.
pub open(crate) spec fn spares_styles<I>(
    m: ModelView<I>,
    id: I,
    change: ChangeView,
    undo: bool,
) -> bool {
    region_index_of(m.regions, id) matches Some(at) ==> {
        let start = m.regions[at].start() + change.start;
        no_empty_style(m.styles, start, start + change.expected(undo).len())
    }
}

/// The change of a record that is replayed after `count` others.
pub open spec fn nth_replayed<I>(record: RecordView<I>, undo: bool, count: int) -> ChangeView {
    record.changes[if undo {
        record.changes.len() - count - 1
    } else {
        count
    }]
}

/// A record can be replayed, and none of its changes takes out the place of a
/// style without text.
pub open(crate) spec fn replays<I>(m: ModelView<I>, record: RecordView<I>, undo: bool) -> bool {
    let n = record.changes.len() as int;
    &&& m.replayed(record.region_id, record.changes, undo, n) is Some
    &&& forall|k: int|
        0 <= k < n ==> spares_styles(
            (#[trigger] m.replayed(record.region_id, record.changes, undo, k))->0,
            record.region_id,
            nth_replayed(record, undo, k),
            undo,
        )
}

/// What replaying a change leaves fits its text.
proof fn lemma_replayed_presentable<I>(m: ModelView<I>, id: I, change: ChangeView, undo: bool)
    requires
        m.replayed_once(id, change, undo) is Some,
    ensures
        presentable(m.replayed_once(id, change, undo)->0),
{
    reveal(ModelView::replayed_once);
}

/// The edit that replaying a change makes.
spec fn replay_edit<I>(m: ModelView<I>, id: I, change: UndoChange, undo: bool) -> TextEdit {
    let start = m.regions[region_index_of(m.regions, id)->0].start() + change@.start;
    let end = start + change@.expected(undo).len();
    TextEdit {
        range: Range { start: start as usize, end: end as usize },
        replacement: if undo {
            change.removed
        } else {
            change.inserted
        },
    }
}

/// A change whose text is there makes one edit of its region.
proof fn lemma_replay_edit<I>(m: ModelView<I>, id: I, change: UndoChange, undo: bool)
    requires
        m.wf(),
        change_fits(m, id, change@, undo),
        m.bytes.len() + change@.replacement(undo).len() <= isize::MAX,
    ensures
        ({
            let at = region_index_of(m.regions, id)->0;
            let edit = replay_edit(m, id, change, undo);
            &&& 0 <= at < m.regions.len()
            &&& m.regions[at].spec_id() == id
            &&& edit.start() == m.regions[at].start() + change@.start
            &&& edit.end() == edit.start() + change@.expected(undo).len()
            &&& edit.bytes() == change@.replacement(undo)
            &&& edits_of(m, at, seq![edit])
            &&& m.replayed_once(id, change@, undo) == (if m.edit_rejection(at, seq![edit]) is None {
                Some(m.edited_in(at, seq![edit]))
            } else {
                None
            })
        }),
{
    let at = region_index_of(m.regions, id)->0;
    let edit = replay_edit(m, id, change, undo);
    assert(m.regions[at].start() <= m.regions[at].end() <= m.bytes.len());
    lemma_replay_is(m, id, change@, undo, edit);
    lemma_only_edit(seq![edit]);
}

/// A document after a change was replayed and taken back.
pub open(crate) spec fn change_restored<I>(
    m: ModelView<I>,
    id: I,
    change: ChangeView,
    undo: bool,
) -> ModelView<I> {
    let start = m.regions[region_index_of(m.regions, id)->0].start() + change.start;
    restored(m, start, start + change.expected(undo).len())
}

/// A change that was replayed one way is replayed the other way, unless the
/// styles would not fit where they then are.
proof fn lemma_replay_back<I>(
    x: ModelView<I>,
    y: ModelView<I>,
    id: I,
    change: UndoChange,
    undo: bool,
)
    requires
        x.wf(),
        presentable(x),
        x.bytes.len() + change@.replacement(undo).len() <= isize::MAX,
        x.replayed_once(id, change@, undo) is Some,
        y.wf(),
        shows_alike(y, x.replayed_once(id, change@, undo)->0),
    ensures
        y.replayed_once(id, change@, !undo) is Some <==> presentable(
            change_restored(x, id, change@, undo),
        ),
        y.replayed_once(id, change@, !undo) matches Some(z) ==> shows_alike(
            z,
            change_restored(x, id, change@, undo),
        ) && z.wf(),
{
    if !change_fits(x, id, change@, undo) {
        lemma_no_replay(x, id, change@, undo);
    }
    let at = region_index_of(x.regions, id)->0;
    let edit = replay_edit(x, id, change, undo);
    lemma_replay_edit(x, id, change, undo);
    let back = TextEdit {
        range: Range {
            start: edit.range.start,
            end: (edit.start() + edit.bytes().len()) as usize,
        },
        replacement: if undo {
            change.inserted
        } else {
            change.removed
        },
    };
    lemma_only_edit(seq![edit]);
    assert(takes_back(back, edit));
    lemma_back_applies(x, at, edit, y, back);
    lemma_edit_back(x, at, edit, y, back);
    lemma_region_index(y.regions, y.bytes.len() as int, at);
    assert(seq![back][0] == back);
    assert(change_fits(y, id, change@, !undo));
    lemma_replay_is(y, id, change@, !undo, back);
}

/// Where no style without text lies in what a change takes out, taking it back
/// leaves all as before.
proof fn lemma_change_spares<I>(m: ModelView<I>, id: I, change: ChangeView, undo: bool)
    requires
        presentable(m),
        region_index_of(m.regions, id) is Some,
        spares_styles(m, id, change, undo),
    ensures
        shows_alike(change_restored(m, id, change, undo), m),
        presentable(change_restored(m, id, change, undo)),
{
    let start = m.regions[region_index_of(m.regions, id)->0].start() + change.start;
    law_styles_with_text_come_back(m, start, start + change.expected(undo).len());
}

/// A stage of a replay that can be taken back.
spec fn stage_ready<I>(m: ModelView<I>, record: UndoRecord<I>, undo: bool, k: int) -> bool {
    let change = nth_replayed(record@, undo, k);
    &&& m.replayed(record@.region_id, record@.changes, undo, k) matches Some(x)
    &&& x.wf()
    &&& presentable(x)
    &&& k < record@.changes.len() ==> {
        &&& x.bytes.len() + change.replacement(undo).len() <= isize::MAX
        &&& spares_styles(x, record@.region_id, change, undo)
    }
}

/// The stages of the way back show what those of the way there do.
proof fn lemma_way_back<I>(
    m: ModelView<I>,
    mid: ModelView<I>,
    record: UndoRecord<I>,
    undo: bool,
    count: int,
)
    requires
        forall|k: int|
            0 <= k <= record@.changes.len() ==> #[trigger] stage_ready(m, record, undo, k),
        mid.wf(),
        shows_alike(
            mid,
            m.replayed(record@.region_id, record@.changes, undo, record@.changes.len() as int)->0,
        ),
        0 <= count <= record@.changes.len(),
    ensures
        mid.replayed(record@.region_id, record@.changes, !undo, count) matches Some(back)
            && back.wf() && shows_alike(
            back,
            m.replayed(
                record@.region_id,
                record@.changes,
                undo,
                record@.changes.len() - count,
            )->0,
        ),
    decreases count,
{
    let changes = record@.changes;
    let n = changes.len() as int;
    let id = record@.region_id;
    if count > 0 {
        lemma_way_back(m, mid, record, undo, count - 1);
        assert(stage_ready(m, record, undo, n - count));
        assert(stage_ready(m, record, undo, n - count + 1));
        let x = m.replayed(id, changes, undo, n - count)->0;
        let y = mid.replayed(id, changes, !undo, count - 1)->0;
        let k = if undo {
            count - 1
        } else {
            n - count
        };
        let change = record.changes@[k];
        assert(changes[k] == change@);
        assert(nth_replayed(record@, undo, n - count) == change@);
        assert(m.replayed(id, changes, undo, n - count + 1) == x.replayed_once(
            id,
            change@,
            undo,
        ));
        if !change_fits(x, id, change@, undo) {
            lemma_no_replay(x, id, change@, undo);
        }
        lemma_change_spares(x, id, change@, undo);
        lemma_replay_back(x, y, id, change, undo);
    }
}

/// Every stage of a replay from a valid document is ready to be taken back.
proof fn lemma_stages_ready<I>(m: ModelView<I>, record: UndoRecord<I>, undo: bool, k: int)
    requires
        m.wf(),
        presentable(m),
        m.bytes.len() + record@.bytes() <= isize::MAX,
        replays(m, record@, undo),
        0 <= k <= record@.changes.len(),
    ensures
        stage_ready(m, record, undo, k),
{
    let changes = record@.changes;
    let n = changes.len() as int;
    let id = record@.region_id;
    if k < n {
        lemma_rest_bytes(changes, undo, k);
    }
    if k > 0 {
        lemma_failed_replay(m, id, changes, undo, k, n);
    }
    lemma_replayed_stage(m, record, undo, k);
    if k > 0 {
        if k - 1 > 0 {
            lemma_failed_replay(m, id, changes, undo, k - 1, n);
        }
        lemma_replayed_presentable(
            m.replayed(id, changes, undo, k - 1)->0,
            id,
            nth_replayed(record@, undo, k - 1),
            undo,
        );
    }
    assert(spares_styles(
        m.replayed(id, changes, undo, k)->0,
        id,
        nth_replayed(record@, undo, k),
        undo,
    ) || k == n);
}

/// What was undone can be redone, and what was redone can be undone: the
/// document then shows what it showed before.
pub proof fn law_replays_can_be_taken_back<I>(
    m: ModelView<I>,
    mid: ModelView<I>,
    record: UndoRecord<I>,
    undo: bool,
)
    requires
        m.wf(),
        presentable(m),
        m.bytes.len() + record@.bytes() <= isize::MAX,
        replays(m, record@, undo),
        mid.wf(),
        shows_alike(
            mid,
            m.replayed(record@.region_id, record@.changes, undo, record@.changes.len() as int)->0,
        ),
    ensures
        mid.replayed(
            record@.region_id,
            record@.changes,
            !undo,
            record@.changes.len() as int,
        ) matches Some(end) && shows_alike(end, m),
{
    assert forall|k: int| 0 <= k <= record@.changes.len() implies #[trigger] stage_ready(
        m,
        record,
        undo,
        k,
    ) by {
        lemma_stages_ready(m, record, undo, k);
    }
    lemma_way_back(m, mid, record, undo, record@.changes.len() as int);
}

// ---------------------------------------------------------------------------
// Edits that are undone
// ---------------------------------------------------------------------------

/// Where edits put a range is where the last of them puts it after the others.
proof fn lemma_carried_more(range: (int, int), edits: Seq<TextEdit>, edit: TextEdit)
    requires
        0 <= range.0 <= usize::MAX,
        0 <= range.1 <= usize::MAX,
        edits_addressable(edits),
    ensures
        0 <= carried(range, edits).0 <= usize::MAX,
        0 <= carried(range, edits).1 <= usize::MAX,
        carried(range, edits.push(edit)) == carried(carried(range, edits), seq![edit]),
    decreases edits.len(),
{
    reveal_with_fuel(carried, 2);
    assert(edits.push(edit).drop_last() =~= edits);
    assert(seq![edit].drop_last() =~= Seq::empty());
    if edits.len() > 0 {
        let front = edits.drop_last();
        let last = edits.last();
        assert(edits[edits.len() - 1] == last);
        assert(edits_addressable(front)) by {
            assert forall|i: int| 0 <= i < front.len() implies (#[trigger] front[i]).start()
                + front[i].bytes().len() <= usize::MAX by {
                assert(front[i] == edits[i]);
            }
        }
        lemma_carried_more(range, front, last);
    }
}

proof fn lemma_styles_more(styles: StylesView, edits: Seq<TextEdit>, edit: TextEdit)
    requires
        edits_addressable(edits),
    ensures
        styles.carried(edits).carried(seq![edit]) == styles.carried(edits.push(edit)),
{
    let a = styles.carried(edits).carried(seq![edit]);
    let b = styles.carried(edits.push(edit));
    assert forall|i: int| 0 <= i < styles.paragraphs.len() implies a.paragraphs[i]
        == #[trigger] b.paragraphs[i] by {
        lemma_carried_more(ends(styles.paragraphs[i].spec_source()), edits, edit);
    }
    assert forall|i: int| 0 <= i < styles.inline.len() implies a.inline[i]
        == #[trigger] b.inline[i] by {
        lemma_carried_more(ends(styles.inline[i].spec_source()), edits, edit);
    }
    assert(a.paragraphs =~= b.paragraphs);
    assert(a.inline =~= b.inline);
}

proof fn lemma_blocks_more<I>(blocks: Seq<DocumentBlock<I>>, edits: Seq<TextEdit>, edit: TextEdit)
    requires
        edits_addressable(edits),
    ensures
        blocks_carried(blocks_carried(blocks, edits), seq![edit]) == blocks_carried(
            blocks,
            edits.push(edit),
        ),
{
    let a = blocks_carried(blocks_carried(blocks, edits), seq![edit]);
    let b = blocks_carried(blocks, edits.push(edit));
    assert forall|i: int| 0 <= i < blocks.len() implies a[i] == #[trigger] b[i] by {
        lemma_carried_more((blocks[i].start(), blocks[i].end()), edits, edit);
    }
    assert(a =~= b);
}

proof fn lemma_spans_more(p: ProjectionView, edits: Seq<TextEdit>, edit: TextEdit, len: int, end: int)
    requires
        p.valid(),
        p.source_len <= usize::MAX,
        edits_addressable(edits),
    ensures
        p.carried(edits, len).carried(seq![edit], end) == p.carried(edits.push(edit), end),
{
    let a = p.carried(edits, len).carried(seq![edit], end);
    let b = p.carried(edits.push(edit), end);
    assert forall|i: int| 0 <= i < p.spans.len() implies a.spans[i] == #[trigger] b.spans[i] by {
        let span = p.spans[i];
        lemma_carried_more((span.start, span.end), edits, edit);
        if let Some(entries) = span.mapping {
            assert forall|k: int| 0 <= k < entries.len() implies a.spans[i].mapping->0[k]
                == #[trigger] b.spans[i].mapping->0[k] by {
                lemma_carried_more(entries[k].spec_source(), edits, edit);
            }
            assert(a.spans[i].mapping->0 =~= b.spans[i].mapping->0);
        }
    }
    assert(a.spans =~= b.spans);
}

/// The document after the first `k` edits of a region.
spec fn edited_part<I>(m: ModelView<I>, target: int, edits: Seq<TextEdit>, k: int) -> ModelView<I> {
    if k == 0 {
        m
    } else {
        m.edited_in(target, edits.subrange(0, k))
    }
}

/// A document that shows what another does after the first `k` edits of a
/// region takes the next of them.
proof fn lemma_next_edit<I>(
    m: ModelView<I>,
    target: int,
    edits: Seq<TextEdit>,
    k: int,
    stage: ModelView<I>,
)
    requires
        edits_of(m, target, edits),
        0 <= k < edits.len(),
        stage.wf(),
        shows_alike(stage, edited_part(m, target, edits, k)),
    ensures
        edits_of(stage, target, seq![edits[k]]),
        stage.regions[target].start() == m.regions[target].start(),
        region_index_of(stage.regions, m.regions[target].spec_id()) == Some(target),
        stage.bytes.subrange(edits[k].start(), edits[k].end()) == m.bytes.subrange(
            edits[k].start(),
            edits[k].end(),
        ),
{
    let part = edits.subrange(0, k);
    let edit = edits[k];
    let region = m.regions[target];
    assert(region.start() <= region.end() <= m.bytes.len());
    lemma_part_of(m, target, edits, k);
    lemma_regions_grown(m, target, part);
    if k == 0 {
        assert(part =~= Seq::empty());
        assert(edited(m.bytes, part) == m.bytes);
    }
    assert(stage.bytes == edited(m.bytes, part));
    assert(edits_inside(part, edit.end(), region.end())) by {
        assert forall|i: int| 0 <= i < part.len() implies edit.end() <= (
        #[trigger] part[i]).start() && part[i].end() <= region.end() by {
            assert(part[i] == edits[i]);
            assert(!edits_conflict(edits[i], edits[k]));
        }
    }
    lemma_net_growth_within(part, edit.end(), region.end());
    lemma_edited_before(m.bytes, part, edit.end());
    lemma_edited_before(m.bytes, part, edit.start());
    lemma_untouched(m.bytes, edits, k);
    assert(stage.regions[target].spec_id() == region.spec_id() && stage.regions[target].start()
        == region.start() && stage.regions[target].end() == region.end() + net_growth(part)
        && stage.regions[target].spec_policy() == EditPolicy::Editable);
    lemma_region_index(stage.regions, stage.bytes.len() as int, target);
    lemma_only_edit(seq![edit]);
    assert(seq![edit][0] == edit);
    assert(edits.subrange(0, k + 1).drop_last() =~= part);
    assert(edits.subrange(0, k + 1).last() == edit);
    lemma_inserted_prefix(edits, k + 1);
    assert(inserted_len(edits.subrange(0, k + 1)) == inserted_len(part) + edit.bytes().len());
}

/// The first `k` edits of a region are edits of it.
proof fn lemma_part_of<I>(m: ModelView<I>, target: int, edits: Seq<TextEdit>, k: int)
    requires
        edits_of(m, target, edits),
        0 <= k <= edits.len(),
    ensures
        edits_of(m, target, edits.subrange(0, k)),
{
    let part = edits.subrange(0, k);
    lemma_part_applicable(edits, m.bytes, k);
    lemma_inserted_prefix(edits, k);
    assert forall|i: int| 0 <= i < part.len() implies m.regions[target].start() <= (
    #[trigger] part[i]).start() && part[i].end() <= m.regions[target].end() by {
        assert(part[i] == edits[i]);
    }
}

/// The regions after edits of one of them.
proof fn lemma_regions_after<I>(m: ModelView<I>, target: int, edits: Seq<TextEdit>)
    requires
        edits_of(m, target, edits),
    ensures
        grown_regions(
            m.edited_in(target, edits).regions,
            m.regions,
            target,
            net_growth(edits),
        ),
{
    lemma_regions_grown(m, target, edits);
    reveal(grown_regions);
}

/// Regions grow in one way only.
proof fn lemma_grown_once<I>(
    a: Seq<DocumentRegion<I>>,
    b: Seq<DocumentRegion<I>>,
    base: Seq<DocumentRegion<I>>,
    at: int,
    growth: int,
)
    requires
        grown_regions(a, base, at, growth),
        grown_regions(b, base, at, growth),
    ensures
        a == b,
{
    reveal(grown_regions);
    assert forall|i: int| 0 <= i < a.len() implies a[i] == #[trigger] b[i] by {
        assert(a[i].spec_id() == base[i].spec_id());
        assert(b[i].spec_id() == base[i].spec_id());
    }
    assert(a =~= b);
}

/// Edits of a region one by one give the text and the regions that they give
/// together.
#[verifier::spinoff_prover]
#[verifier::rlimit(30)]
proof fn lemma_source_more<I>(
    m: ModelView<I>,
    target: int,
    edits: Seq<TextEdit>,
    k: int,
    stage: ModelView<I>,
)
    requires
        edits_of(m, target, edits),
        0 <= k < edits.len(),
        edits_of(stage, target, seq![edits[k]]),
        shows_alike(stage, edited_part(m, target, edits, k)),
    ensures
        stage.edited_in(target, seq![edits[k]]).bytes == edited(m.bytes, edits.subrange(0, k + 1)),
        stage.edited_in(target, seq![edits[k]]).regions == m.edited_in(
            target,
            edits.subrange(0, k + 1),
        ).regions,
{
    let part = edits.subrange(0, k);
    let more = edits.subrange(0, k + 1);
    let edit = edits[k];
    let a = stage.edited_in(target, seq![edit]);
    let b = m.edited_in(target, more);
    assert(more.drop_last() =~= part);
    assert(more.last() == edit);
    lemma_part_of(m, target, edits, k);
    lemma_part_of(m, target, edits, k + 1);
    lemma_only_edit(seq![edit]);
    if k == 0 {
        assert(part =~= Seq::empty());
        assert(grown_regions(stage.regions, m.regions, target, net_growth(part))) by {
            reveal(grown_regions);
        }
    } else {
        lemma_regions_after(m, target, part);
    }
    assert(a.bytes == edited(m.bytes, more)) by {
        reveal_with_fuel(edited, 2);
        assert(seq![edit].drop_last() =~= Seq::empty());
    }
    lemma_regions_after(m, target, more);
    lemma_regions_after(stage, target, seq![edit]);
    lemma_grown_twice(
        m.regions,
        stage.regions,
        a.regions,
        target,
        net_growth(part),
        net_growth(seq![edit]),
    );
    lemma_grown_once(a.regions, b.regions, m.regions, target, net_growth(more));
}

/// Edits of a region one by one show what they show together.
proof fn lemma_edited_more<I>(
    m: ModelView<I>,
    target: int,
    edits: Seq<TextEdit>,
    k: int,
    stage: ModelView<I>,
)
    requires
        edits_of(m, target, edits),
        0 <= k < edits.len(),
        stage.wf(),
        shows_alike(stage, edited_part(m, target, edits, k)),
    ensures
        shows_alike(
            stage.edited_in(target, seq![edits[k]]),
            edited_part(m, target, edits, k + 1),
        ),
{
    let part = edits.subrange(0, k);
    let more = edits.subrange(0, k + 1);
    let edit = edits[k];
    let a = stage.edited_in(target, seq![edit]);
    assert(more =~= part.push(edit));
    lemma_next_edit(m, target, edits, k, stage);
    lemma_source_more(m, target, edits, k, stage);
    if k > 0 {
        lemma_part_of(m, target, edits, k);
        lemma_addressable(m.bytes.len() as int, part, m.bytes);
        lemma_styles_more(m.styles, part, edit);
        lemma_blocks_more(m.blocks, part, edit);
        lemma_spans_more(
            m.projection,
            part,
            edit,
            edited(m.bytes, part).len() as int,
            a.bytes.len() as int,
        );
    } else {
        assert(more =~= seq![edit]);
    }
}

/// The record of edits of a region.
pub open spec fn records_edits<I>(
    record: RecordView<I>,
    m: ModelView<I>,
    target: int,
    edits: Seq<TextEdit>,
) -> bool {
    &&& record.region_id == m.regions[target].spec_id()
    &&& record.changes == undo_changes(m, target, edits)
}

/// Replaying the record of edits onto the first `k` of them makes the next.
proof fn lemma_next_replay<I>(
    m: ModelView<I>,
    target: int,
    edits: Seq<TextEdit>,
    record: UndoRecord<I>,
    k: int,
    stage: ModelView<I>,
)
    requires
        edits_of(m, target, edits),
        records_edits(record@, m, target, edits),
        0 <= k < edits.len(),
        stage.wf(),
        shows_alike(stage, edited_part(m, target, edits, k)),
    ensures
        change_fits(stage, record@.region_id, record@.changes[k], false),
        stage.replayed_once(record@.region_id, record@.changes[k], false) == (
        if stage.edit_rejection(target, seq![edits[k]]) is None {
            Some(stage.edited_in(target, seq![edits[k]]))
        } else {
            None
        }),
{
    let change = record@.changes[k];
    lemma_next_edit(m, target, edits, k, stage);
    assert(change == undo_change(m, target, edits[k]));
    assert(seq![edits[k]][0] == edits[k]);
    assert(stage.bytes.subrange(edits[k].start(), edits[k].end()).len() == edits[k].end()
        - edits[k].start());
    assert(change_fits(stage, record@.region_id, change, false));
    lemma_replay_is(stage, record@.region_id, change, false, edits[k]);
}

/// Replaying the record of edits onto the document that they were made in
/// makes them one by one.
proof fn lemma_replayed_edits<I>(
    m: ModelView<I>,
    target: int,
    edits: Seq<TextEdit>,
    record: UndoRecord<I>,
    k: int,
)
    requires
        edits_of(m, target, edits),
        records_edits(record@, m, target, edits),
        0 <= k <= edits.len(),
        m.replayed(record@.region_id, record@.changes, false, k) is Some,
    ensures
        ({
            let stage = m.replayed(record@.region_id, record@.changes, false, k)->0;
            stage.wf() && shows_alike(stage, edited_part(m, target, edits, k))
        }),
    decreases k,
{
    let changes = record@.changes;
    let id = record@.region_id;
    if k > 0 {
        let before = m.replayed(id, changes, false, k - 1)->0;
        lemma_replayed_edits(m, target, edits, record, k - 1);
        lemma_next_edit(m, target, edits, k - 1, before);
        lemma_next_replay(m, target, edits, record, k - 1, before);
        lemma_edited_in_wf(before, target, seq![edits[k - 1]]);
        lemma_edited_more(m, target, edits, k - 1, before);
    }
}

/// The stages of edits that were made one by one are ready to be taken back.
proof fn lemma_edits_ready<I>(
    m: ModelView<I>,
    target: int,
    edits: Seq<TextEdit>,
    record: UndoRecord<I>,
    k: int,
)
    requires
        edits_of(m, target, edits),
        records_edits(record@, m, target, edits),
        presentable(m),
        replays(m, record@, false),
        0 <= k <= edits.len(),
    ensures
        stage_ready(m, record, false, k),
{
    let changes = record@.changes;
    let n = changes.len() as int;
    let id = record@.region_id;
    if k > 0 {
        lemma_failed_replay(m, id, changes, false, k, n);
        if k > 1 {
            lemma_failed_replay(m, id, changes, false, k - 1, n);
        }
        lemma_replayed_presentable(
            m.replayed(id, changes, false, k - 1)->0,
            id,
            changes[k - 1],
            false,
        );
    }
    lemma_replayed_edits(m, target, edits, record, k);
    if k < n {
        let stage = m.replayed(id, changes, false, k)->0;
        lemma_next_edit(m, target, edits, k, stage);
        lemma_only_edit(seq![edits[k]]);
        assert(changes[k] == undo_change(m, target, edits[k]));
        assert(spares_styles(stage, id, nth_replayed(record@, false, k), false));
    }
}

/// Undo goes through: right after edits of a region that can be made one by
/// one, replaying their record backwards succeeds, and the document then
/// shows what it showed before.
pub proof fn law_undo_goes_through<I>(
    m: ModelView<I>,
    target: int,
    edits: Seq<TextEdit>,
    after: ModelView<I>,
    record: UndoRecord<I>,
)
    requires
        edits.len() > 0,
        edits_of(m, target, edits),
        presentable(m),
        records_edits(record@, m, target, edits),
        replays(m, record@, false),
        after.wf(),
        shows_alike(after, m.edited_in(target, edits)),
    ensures
        after.replayed(
            record@.region_id,
            record@.changes,
            true,
            record@.changes.len() as int,
        ) matches Some(end) && end.wf() && shows_alike(end, m),
{
    let n = edits.len() as int;
    assert forall|k: int| 0 <= k <= record@.changes.len() implies #[trigger] stage_ready(
        m,
        record,
        false,
        k,
    ) by {
        lemma_edits_ready(m, target, edits, record, k);
    }
    lemma_replayed_edits(m, target, edits, record, n);
    assert(edits.subrange(0, n) =~= edits);
    lemma_way_back(m, after, record, false, n);
}

/// Redo goes through: where the document shows what it showed before edits of
/// a region that can be made one by one, replaying their record succeeds, and
/// the document then shows what it did after the edits.
pub proof fn law_redo_goes_through<I>(
    m: ModelView<I>,
    target: int,
    edits: Seq<TextEdit>,
    back: ModelView<I>,
    record: UndoRecord<I>,
)
    requires
        edits.len() > 0,
        edits_of(m, target, edits),
        records_edits(record@, m, target, edits),
        m.replayed(
            record@.region_id,
            record@.changes,
            false,
            record@.changes.len() as int,
        ) is Some,
        back.wf(),
        shows_alike(back, m),
    ensures
        back.replayed(
            record@.region_id,
            record@.changes,
            false,
            record@.changes.len() as int,
        ) matches Some(end) && end.wf() && shows_alike(end, m.edited_in(target, edits)),
{
    let n = edits.len() as int;
    lemma_replayed_alike(m, back, record@, false, n);
    assert(undo_changes(back, target, edits) =~= undo_changes(m, target, edits));
    lemma_replayed_edits(back, target, edits, record, n);
    assert(edits.subrange(0, n) =~= edits);
}

/// Documents that show the same are edited alike.
proof fn lemma_edited_alike<I>(a: ModelView<I>, b: ModelView<I>, target: int, edits: Seq<TextEdit>)
    requires
        shows_alike(a, b),
    ensures
        shows_alike(a.edited_in(target, edits), b.edited_in(target, edits)),
        a.edit_rejection(target, edits) == b.edit_rejection(target, edits),
{
}

/// Documents that show the same replay a record alike.
proof fn lemma_replayed_alike<I>(
    a: ModelView<I>,
    b: ModelView<I>,
    record: RecordView<I>,
    undo: bool,
    count: int,
)
    requires
        shows_alike(a, b),
    ensures
        ({
            let x = a.replayed(record.region_id, record.changes, undo, count);
            let y = b.replayed(record.region_id, record.changes, undo, count);
            x is Some == y is Some && (x is Some ==> shows_alike(x->0, y->0))
        }),
    decreases count,
{
    if count > 0 {
        lemma_replayed_alike(a, b, record, undo, count - 1);
        let x = a.replayed(record.region_id, record.changes, undo, count - 1);
        let y = b.replayed(record.region_id, record.changes, undo, count - 1);
        if x is Some {
            reveal(ModelView::replayed_once);
            let change = nth_replayed(record, undo, count - 1);
            if let Some(at) = region_index_of(x->0.regions, record.region_id) {
                let start = x->0.regions[at].start() + change.start;
                let edit = text_edit(
                    start,
                    start + change.expected(undo).len(),
                    change.replacement(undo),
                );
                lemma_edited_alike(x->0, y->0, at, seq![edit]);
            }
        }
    }
}

/// Replaying the record of edits onto the document that they were made in
/// gives their text, if it goes through.
pub proof fn law_replayed_edits_give_their_text<I>(
    m: ModelView<I>,
    target: int,
    edits: Seq<TextEdit>,
    record: UndoRecord<I>,
)
    requires
        edits.len() > 0,
        edits_of(m, target, edits),
        records_edits(record@, m, target, edits),
    ensures
        m.replayed(
            record@.region_id,
            record@.changes,
            false,
            record@.changes.len() as int,
        ) matches Some(end) ==> end.wf() && shows_alike(end, m.edited_in(target, edits)),
{
    let n = edits.len() as int;
    if m.replayed(record@.region_id, record@.changes, false, n) is Some {
        lemma_replayed_edits(m, target, edits, record, n);
        assert(edits.subrange(0, n) =~= edits);
    }
}

/// One edit is undone exactly if the styles fit where they then are: a style
/// without text goes to the end of the text that comes back.
pub proof fn law_one_edit_is_undone<I>(
    m: ModelView<I>,
    target: int,
    edit: TextEdit,
    after: ModelView<I>,
    record: UndoRecord<I>,
)
    requires
        edits_of(m, target, seq![edit]),
        m.edit_rejection(target, seq![edit]) is None,
        presentable(m),
        records_edits(record@, m, target, seq![edit]),
        after.wf(),
        shows_alike(after, m.edited_in(target, seq![edit])),
    ensures
        ({
            let undone = after.replayed(record@.region_id, record@.changes, true, 1);
            let back = restored(m, edit.start(), edit.end());
            &&& undone is Some <==> presentable(back)
            &&& undone is Some ==> undone->0.wf() && shows_alike(undone->0, back)
        }),
{
    let edits = seq![edit];
    let id = record@.region_id;
    assert(edits[0] == edit);
    lemma_next_edit(m, target, edits, 0, m);
    lemma_next_replay(m, target, edits, record, 0, m);
    lemma_only_edit(edits);
    assert(record@.changes.len() == 1);
    let change = record.changes@[0];
    assert(record@.changes[0] == change@);
    assert(change@ == undo_change(m, target, edit));
    lemma_replay_back(m, after, id, change, false);
    assert(after.replayed(id, record@.changes, true, 0) == Some(after));
    assert(after.replayed(id, record@.changes, true, 1) == after.replayed_once(id, change@, true));
}

/// One edit that was undone is redone, and the document then shows what it did
/// after the edit.
pub proof fn law_one_edit_is_redone<I>(
    m: ModelView<I>,
    target: int,
    edit: TextEdit,
    back: ModelView<I>,
    record: UndoRecord<I>,
)
    requires
        edits_of(m, target, seq![edit]),
        m.edit_rejection(target, seq![edit]) is None,
        presentable(m),
        records_edits(record@, m, target, seq![edit]),
        back.wf(),
        shows_alike(back, restored(m, edit.start(), edit.end())),
    ensures
        back.replayed(record@.region_id, record@.changes, false, 1) matches Some(end) && end.wf()
            && shows_alike(end, m.edited_in(target, seq![edit])),
{
    let edits = seq![edit];
    let id = record@.region_id;
    assert(edits[0] == edit);
    assert(record@.changes.len() == 1);
    let change = record.changes@[0];
    assert(record@.changes[0] == change@);
    assert(change@ == undo_change(m, target, edit));
    let reverse = TextEdit {
        range: Range {
            start: edit.range.start,
            end: (edit.start() + edit.bytes().len()) as usize,
        },
        replacement: change.removed,
    };
    lemma_only_edit(edits);
    lemma_styles_back(m, target, edit, reverse);
    lemma_edited_alike(back, restored(m, edit.start(), edit.end()), target, edits);
    assert(shows_alike(back.edited_in(target, edits), m.edited_in(target, edits)));
    assert(back.edit_rejection(target, edits) is None);
    assert(undo_changes(back, target, edits) =~= undo_changes(m, target, edits));
    lemma_next_replay(back, target, edits, record, 0, back);
    lemma_edited_in_wf(back, target, edits);
    assert(back.replayed(id, record@.changes, false, 0) == Some(back));
    assert(back.replayed(id, record@.changes, false, 1) == back.replayed_once(
        id,
        change@,
        false,
    ));
}

/// Without anchored rows and styles, edits can be made one by one.
pub(crate) proof fn lemma_plain_edits_replay<I>(
    m: ModelView<I>,
    target: int,
    edits: Seq<TextEdit>,
    record: UndoRecord<I>,
    k: int,
)
    requires
        edits_of(m, target, edits),
        unadorned(m),
        records_edits(record@, m, target, edits),
        0 <= k <= edits.len(),
    ensures
        presentable(m),
        m.replayed(record@.region_id, record@.changes, false, k) matches Some(stage) && unadorned(
            stage,
        ),
    decreases k,
{
    lemma_unadorned(m);
    if k > 0 {
        lemma_plain_edits_replay(m, target, edits, record, k - 1);
        lemma_replayed_edits(m, target, edits, record, k - 1);
        let before = m.replayed(record@.region_id, record@.changes, false, k - 1)->0;
        assert(record@.changes.len() == edits.len());
        let change = record.changes@[k - 1];
        assert(record@.changes[k - 1] == change@);
        lemma_next_edit(m, target, edits, k - 1, before);
        lemma_next_replay(m, target, edits, record, k - 1, before);
        lemma_only_edit(seq![edits[k - 1]]);
        lemma_replay_succeeds(before, record@.region_id, change, false);
    }
}

// ---------------------------------------------------------------------------
// Rows and styles that fit
// ---------------------------------------------------------------------------

/// The rows and styles of a new document fit, and so do those that are set.
pub proof fn law_what_is_presented_fits<I>(
    m: ModelView<I>,
    bytes: Seq<u8>,
    regions: Seq<DocumentRegion<I>>,
    projection: ProjectionView,
    blocks: Seq<DocumentBlock<I>>,
    anchored: Seq<AnchoredBlock<I>>,
    styles: StylesView,
)
    ensures
        presentable(ModelView::initial(bytes, regions)),
        m.set_projection_fault(projection) is None ==> presentable(m.with_projection(projection)),
        m.presentation_fault(projection, blocks, anchored, styles) is None ==> presentable(
            m.presented(projection, blocks, anchored, styles),
        ),
{
    lemma_unadorned(ModelView::initial(bytes, regions));
    if m.set_projection_fault(projection) is None {
        lemma_unadorned(m.with_projection(projection));
    }
}

/// Rows and styles that fit go on to fit: through edits, which are refused
/// otherwise, and through replays.
pub proof fn law_edits_leave_what_fits<I>(
    m: ModelView<I>,
    transaction: EditTransaction,
    node: Option<I>,
    record: RecordView<I>,
    undo: bool,
    count: int,
)
    requires
        presentable(m),
    ensures
        presentable(m.routed(transaction, node)),
        m.replayed(record.region_id, record.changes, undo, count) matches Some(end) ==> presentable(
            end,
        ),
    decreases count,
{
    if count > 0 && m.replayed(record.region_id, record.changes, undo, count) is Some {
        lemma_replayed_presentable(
            m.replayed(record.region_id, record.changes, undo, count - 1)->0,
            record.region_id,
            nth_replayed(record, undo, count - 1),
            undo,
        );
    }
}

/// The rows and styles that a host update brings fit, or it is refused.
pub proof fn law_host_updates_bring_what_fits<I>(
    m: ModelView<I>,
    transaction: EditTransaction,
    update: HostView<I>,
)
    requires
        m.host_fault(transaction, update) is None,
    ensures
        presentable(m.host_model(update)),
{
}

} // verus!
