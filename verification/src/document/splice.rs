//! Replacing a fragment of a document.

use crate::document::anchored_block::AnchoredBlock;
use crate::document::block::{BlockError, DocumentBlock};
use crate::document::event::{DocumentEffect, DocumentEvent, DocumentSnapshot, SnapshotView};
use crate::document::layout::{layout_views, DocumentLayoutItem, LayoutView};
use crate::document::mapping::{
    lemma_outside_shown, lemma_rendered_len, lemma_shown_boundary, lemma_shown_order, splice_shape,
};
use crate::document::model::{capture_view, DocumentModel, RegionSelection};
use crate::document::model_edit::{capture_fits, copy_row, node_of};
use crate::document::model_view::ModelView;
use crate::document::outcome::{HostTransactionError, PresentationError};
use crate::document::position::{shift_offset, Affinity, DocumentPosition, DocumentRevision};
use crate::document::projection::span_views;
use crate::document::projection_map::int_of;
use crate::document::region::{region_index_of, DocumentRegion, EditPolicy, RegionError};
use crate::document::splice_lemmas::{
    blocks_shape, lemma_blocks_shape, lemma_fragment_keeps, lemma_fragment_model,
    lemma_fragment_projection, lemma_fragment_regions, lemma_regions_shape, splice_ready,
};
use crate::document::splice_view::{
    begins_line, block_behind, block_from, boundary_in_both, end_boundary_in_both, fragment_anchors,
    kept_end, kept_start, lemma_kept, lemma_least_edit, node_within, reaches_over, retained_rows,
    row_from, same_end, same_start, shifted_blocks, shifted_rows, spliced_blocks,
};
use crate::document::state::{
    lemma_same_anchors, lemma_spared, position_of, DocumentState,
};
use crate::document::state_host::{lemma_capture_kept, region_kept};
use crate::document::state_view::{shared_prefix, shared_suffix, StateView};
use crate::document::transaction::{EditOrigin, TextEdit};
use crate::document::validate::lemma_projection_fits;
use crate::identity::{lawful_id, same_id};
use crate::order::{lemma_sort_members, stable_sort};
use crate::scan::{lemma_first_where, lemma_first_where_is};
use crate::text::{at_boundary, byte_len, is_str_boundary, same_text, splice_bytes, sub_str};
use vstd::prelude::*;
use vstd::string::*;
use vstd::utf8::*;

verus! {

/// The least edit that makes one text of another.
pub fn fragment_edit(start: usize, old: &str, new: &str) -> (edit: Option<TextEdit>)
    requires
        start + old.spec_bytes().len() <= usize::MAX,
    ensures
        ({
            let a = old.spec_bytes();
            let b = new.spec_bytes();
            match edit {
                Some(edit) => {
                    &&& a != b
                    &&& edit.start() == start + kept_start(a, b)
                    &&& edit.end() == start + a.len() - kept_end(a, b)
                    &&& edit.bytes() == b.subrange(kept_start(a, b), b.len() - kept_end(a, b))
                },
                None => a == b,
            }
        }),
{
    if same_text(old, new) {
        return None;
    }
    let ghost a = old.spec_bytes();
    let ghost b = new.spec_bytes();
    let old_bytes = old.as_bytes();
    let new_bytes = new.as_bytes();
    let old_len = old_bytes.len();
    let new_len = new_bytes.len();
    let mut prefix: usize = 0;
    while prefix < old_len && prefix < new_len && old_bytes[prefix] == new_bytes[prefix]
        invariant
            old_bytes@ == a,
            new_bytes@ == b,
            old_len == a.len(),
            new_len == b.len(),
            prefix <= old_len,
            prefix <= new_len,
            same_start(a, b, 0) == same_start(a, b, prefix as int),
        decreases old_len - prefix,
    {
        prefix += 1;
    }
    assert(same_start(a, b, 0) == prefix);
    while !(is_str_boundary(old, prefix) && is_str_boundary(new, prefix))
        invariant
            a == old.spec_bytes(),
            b == new.spec_bytes(),
            prefix <= a.len(),
            prefix <= b.len(),
            kept_start(a, b) == boundary_in_both(a, b, prefix as int),
        decreases prefix,
    {
        assert(prefix > 0);
        prefix -= 1;
    }
    assert(kept_start(a, b) == prefix);
    let mut suffix: usize = 0;
    while suffix < old_len - prefix && suffix < new_len - prefix && old_bytes[old_len - 1 - suffix]
        == new_bytes[new_len - 1 - suffix]
        invariant
            old_bytes@ == a,
            new_bytes@ == b,
            old_len == a.len(),
            new_len == b.len(),
            prefix <= old_len,
            prefix <= new_len,
            suffix <= old_len - prefix,
            suffix <= new_len - prefix,
            same_end(a, b, prefix as int, 0) == same_end(a, b, prefix as int, suffix as int),
        decreases old_len - suffix,
    {
        suffix += 1;
    }
    assert(same_end(a, b, prefix as int, 0) == suffix);
    while !(is_str_boundary(old, old_len - suffix) && is_str_boundary(new, new_len - suffix))
        invariant
            a == old.spec_bytes(),
            b == new.spec_bytes(),
            old_len == a.len(),
            new_len == b.len(),
            suffix <= old_len,
            suffix <= new_len,
            kept_end(a, b) == end_boundary_in_both(a, b, suffix as int),
        decreases suffix,
    {
        assert(suffix > 0);
        suffix -= 1;
    }
    assert(kept_end(a, b) == suffix);
    proof {
        lemma_kept(a, b);
    }
    Some(
        TextEdit::new(
            start + prefix..start + old_len - suffix,
            sub_str(new, prefix, new_len - suffix),
        ),
    )
}

/// The first block that ends behind, or starts at or behind, an offset.
fn find_block<I>(blocks: &Vec<DocumentBlock<I>>, offset: usize, starts: bool) -> (index: usize)
    ensures
        index <= blocks@.len(),
        starts ==> index == block_from(blocks@, offset as int),
        !starts ==> index == block_behind(blocks@, offset as int),
{
    let ghost is_behind = |b: DocumentBlock<I>| b.end() > offset as int;
    let ghost is_from = |b: DocumentBlock<I>| b.start() >= offset as int;
    let mut i: usize = 0;
    while i < blocks.len() && ((starts && blocks[i].source.start < offset) || (!starts
        && blocks[i].source.end <= offset))
        invariant
            i <= blocks@.len(),
            is_behind == (|b: DocumentBlock<I>| b.end() > offset as int),
            is_from == (|b: DocumentBlock<I>| b.start() >= offset as int),
            starts ==> forall|k: int| 0 <= k < i ==> !(#[trigger] is_from(blocks@[k])),
            !starts ==> forall|k: int| 0 <= k < i ==> !(#[trigger] is_behind(blocks@[k])),
        decreases blocks@.len() - i,
    {
        i += 1;
    }
    proof {
        if starts {
            if i < blocks@.len() {
                assert(is_from(blocks@[i as int]));
            }
            lemma_first_where_is(blocks@, is_from, 0, i as int);
        } else {
            if i < blocks@.len() {
                assert(is_behind(blocks@[i as int]));
            }
            lemma_first_where_is(blocks@, is_behind, 0, i as int);
        }
    }
    i
}

/// Moves blocks.
fn shift_blocks<I>(blocks: &mut Vec<DocumentBlock<I>>, delta: isize)
    ensures
        final(blocks)@ == shifted_blocks(old(blocks)@, delta as int),
{
    let ghost before = blocks@;
    let mut i: usize = 0;
    while i < blocks.len()
        invariant
            i <= blocks@.len(),
            blocks@.len() == before.len(),
            forall|k: int|
                0 <= k < i ==> #[trigger] blocks@[k] == shifted_blocks(before, delta as int)[k],
            forall|k: int| i <= k < before.len() ==> #[trigger] blocks@[k] == before[k],
        decreases blocks@.len() - i,
    {
        let start = blocks[i].source.start;
        let end = blocks[i].source.end;
        blocks[i].source = shift_offset(start, delta)..shift_offset(end, delta);
        assert(blocks@[i as int] == shifted_blocks(before, delta as int)[i as int]);
        i += 1;
    }
    assert(blocks@ =~= shifted_blocks(before, delta as int));
}

/// Moves rows.
fn shift_rows<I: Eq>(items: &mut Vec<DocumentLayoutItem<I>>, source_delta: isize, display_delta: isize)
    ensures
        layout_views(final(items)@) == shifted_rows(
            layout_views(old(items)@),
            source_delta as int,
            display_delta as int,
        ),
{
    let ghost before = layout_views(items@);
    let ghost moved = shifted_rows(before, source_delta as int, display_delta as int);
    let mut i: usize = 0;
    while i < items.len()
        invariant
            i <= items@.len(),
            items@.len() == before.len(),
            moved == shifted_rows(before, source_delta as int, display_delta as int),
            forall|k: int| 0 <= k < i ==> (#[trigger] items@[k])@ == moved[k],
            forall|k: int| i <= k < before.len() ==> (#[trigger] items@[k])@ == before[k],
        decreases items@.len() - i,
    {
        assert(items@[i as int]@ == before[i as int]);
        items[i].shift(source_delta, display_delta);
        assert(items@[i as int]@ == moved[i as int]);
        i += 1;
    }
    assert(layout_views(items@) =~= moved);
}

impl<I: Clone + Eq> DocumentModel<I> {
    fn fragment_edge(&self, id: Option<&I>) -> (edge: Option<usize>)
        requires
            self.wf(),
        ensures
            int_of(edge) == self@.fragment_edge(node_of(id)),
            edge matches Some(at) ==> at <= self@.regions.len(),
    {
        match id {
            Some(id) => self.region_index(id),
            None => Some(self.regions.regions.len()),
        }
    }

    fn fragment_start(&self, index: usize) -> (start: usize)
        requires
            self.wf(),
        ensures
            start == self@.fragment_start(index as int),
            start <= self@.bytes.len(),
    {
        if index < self.regions.regions.len() {
            assert(self@.regions[index as int].start() <= self@.regions[index as int].end());
            self.regions.regions[index].range.start
        } else {
            self.text.len()
        }
    }

    fn check_fragment_open(&self, from: usize, to: usize) -> (open: bool)
        requires
            to <= self@.regions.len(),
        ensures
            open == self@.fragment_open(from as int, to as int),
    {
        if from > to {
            return false;
        }
        let mut i = from;
        while i < to
            invariant
                from <= i <= to <= self@.regions.len(),
                forall|k: int|
                    from <= k < i ==> (#[trigger] self@.regions[k]).spec_policy()
                        != EditPolicy::Editable,
            decreases to - i,
        {
            if self.regions.regions[i].policy == EditPolicy::Editable {
                assert(self@.regions[i as int].spec_policy() == EditPolicy::Editable);
                return false;
            }
            i += 1;
        }
        true
    }

    /// Whether nothing of the presentation reaches over an offset.
    fn check_seam(&self, offset: usize) -> (seam: bool)
        ensures
            seam == self@.seam(offset as int),
    {
        let spans = self.projection.spans();
        let ghost views = self@.projection.spans;
        let mut i: usize = 0;
        while i < spans.len()
            invariant
                i <= spans@.len(),
                span_views(spans@) == views,
                views == self@.projection.spans,
                forall|k: int| 0 <= k < i ==> !(#[trigger] views[k]).inside(offset as int),
            decreases spans@.len() - i,
        {
            let range = spans[i].source();
            assert(views[i as int] == spans@[i as int]@);
            if range.start < offset && offset < range.end {
                assert(views[i as int].inside(offset as int));
                return false;
            }
            i += 1;
        }
        let paragraphs = self.styles.paragraphs();
        let mut i: usize = 0;
        while i < paragraphs.len()
            invariant
                i <= paragraphs@.len(),
                paragraphs@ == self@.styles.paragraphs,
                forall|k: int|
                    0 <= k < i ==> !reaches_over(
                        (#[trigger] self@.styles.paragraphs[k]).spec_source(),
                        offset as int,
                    ),
            decreases paragraphs@.len() - i,
        {
            let range = paragraphs[i].source();
            if range.start < offset && offset < range.end {
                assert(reaches_over(
                    self@.styles.paragraphs[i as int].spec_source(),
                    offset as int,
                ));
                return false;
            }
            i += 1;
        }
        let inline = self.styles.inline();
        let mut i: usize = 0;
        while i < inline.len()
            invariant
                i <= inline@.len(),
                inline@ == self@.styles.inline,
                forall|k: int|
                    0 <= k < i ==> !reaches_over(
                        (#[trigger] self@.styles.inline[k]).spec_source(),
                        offset as int,
                    ),
            decreases inline@.len() - i,
        {
            let range = inline[i].source();
            if range.start < offset && offset < range.end {
                assert(reaches_over(self@.styles.inline[i as int].spec_source(), offset as int));
                return false;
            }
            i += 1;
        }
        true
    }

    /// Where a source offset stands in the display.
    fn shown(&self, offset: usize) -> (display: usize)
        requires
            self.wf(),
            offset <= self@.bytes.len(),
        ensures
            display == self@.shown(offset as int, Affinity::Before),
            display <= self@.display().len(),
    {
        self.projection_map.place(offset, Affinity::Before)
    }

    fn check_begins_line(&self, offset: usize) -> (begins: bool)
        requires
            self.wf(),
            offset <= self@.display().len(),
        ensures
            begins == begins_line(self@.display(), offset as int),
    {
        offset == 0 || self.display_text().as_bytes()[offset - 1] == 0x0a
    }

    fn check_fragment_fits(&self, first: usize, last: usize) -> (fits: bool)
        requires
            self.wf(),
            first <= self@.bytes.len(),
            last <= self@.bytes.len(),
        ensures
            fits == self@.fragment_fits(first as int, last as int),
    {
        if !self.check_begins_line(self.shown(first)) {
            return false;
        }
        if last != self.text.len() && !self.check_begins_line(self.shown(last)) {
            return false;
        }
        self.check_seam(first) && self.check_seam(last)
    }

    /// Whether a node is one of those in `from..to`.
    fn check_node_within(&self, from: usize, to: usize, id: &I) -> (within: bool)
        requires
            self.wf(),
            from <= to <= self@.regions.len(),
        ensures
            within == node_within(self@.regions, from as int, to as int, *id),
    {
        let mut i = from;
        while i < to
            invariant
                self.wf(),
                from <= i <= to <= self@.regions.len(),
                forall|k: int| from <= k < i ==> (#[trigger] self@.regions[k]).spec_id() != *id,
            decreases to - i,
        {
            if same_id(&self.regions.regions[i].id, id) {
                assert(self@.regions[i as int].spec_id() == *id);
                return true;
            }
            i += 1;
        }
        false
    }

    /// Whether an id is used by a node or an anchored row.
    fn check_has_id(&self, id: &I) -> (has: bool)
        requires
            self.wf(),
        ensures
            has == self@.has_id(*id),
    {
        if self.region_index(id).is_some() {
            return true;
        }
        let mut i: usize = 0;
        while i < self.anchored_blocks.len()
            invariant
                self.wf(),
                i <= self@.anchored.len(),
                region_index_of(self@.regions, *id) is None,
                forall|k: int| 0 <= k < i ==> (#[trigger] self@.anchored[k]).spec_id() != *id,
            decreases self@.anchored.len() - i,
        {
            if same_id(&self.anchored_blocks[i].id, id) {
                assert(self@.anchored[i as int].spec_id() == *id);
                return true;
            }
            i += 1;
        }
        false
    }

    /// Whether an id of a replacement is used outside the fragment.
    fn check_ids_clash(&self, from: usize, to: usize, other: &DocumentModel<I>) -> (clash: bool)
        requires
            self.wf(),
            other.wf(),
            from <= to <= self@.regions.len(),
        ensures
            clash == self@.ids_clash(from as int, to as int, other@),
    {
        let ghost m = self@;
        let mut i: usize = 0;
        while i < self.regions.regions.len()
            invariant
                self.wf(),
                other.wf(),
                m == self@,
                from <= to <= m.regions.len(),
                i <= m.regions.len(),
                forall|k: int|
                    0 <= k < i && (k < from || to <= k) ==> !other@.has_id(
                        (#[trigger] m.regions[k]).spec_id(),
                    ),
            decreases m.regions.len() - i,
        {
            if (i < from || to <= i) && other.check_has_id(&self.regions.regions[i].id) {
                assert(m.retains_id(from as int, to as int, m.regions[i as int].spec_id()));
                return true;
            }
            i += 1;
        }
        let mut i: usize = 0;
        while i < self.anchored_blocks.len()
            invariant
                self.wf(),
                other.wf(),
                m == self@,
                from <= to <= m.regions.len(),
                i <= m.anchored.len(),
                forall|k: int|
                    0 <= k < i && !node_within(
                        m.regions,
                        from as int,
                        to as int,
                        (#[trigger] m.anchored[k]).spec_position().spec_node_id(),
                    ) ==> !other@.has_id(m.anchored[k].spec_id()),
            decreases m.anchored.len() - i,
        {
            let block = &self.anchored_blocks[i];
            if !self.check_node_within(from, to, &block.position.node_id) && other.check_has_id(
                &block.id,
            ) {
                assert(m.retains_id(from as int, to as int, m.anchored[i as int].spec_id()));
                return true;
            }
            i += 1;
        }
        proof {
            assert forall|id: I| #[trigger]
                m.retains_id(from as int, to as int, id) implies !other@.has_id(id) by {}
        }
        false
    }

    /// The anchored rows of other nodes than those in `from..to`.
    fn keep_rows(&self, from: usize, to: usize) -> (kept: Vec<AnchoredBlock<I>>)
        requires
            self.wf(),
            from <= to <= self@.regions.len(),
        ensures
            kept@ == retained_rows(self@.anchored, self@.regions, from as int, to as int),
    {
        let ghost m = self@;
        let mut kept: Vec<AnchoredBlock<I>> = Vec::new();
        let mut i: usize = 0;
        while i < self.anchored_blocks.len()
            invariant
                self.wf(),
                m == self@,
                from <= to <= m.regions.len(),
                i <= m.anchored.len(),
                kept@ == retained_rows(
                    m.anchored.subrange(0, i as int),
                    m.regions,
                    from as int,
                    to as int,
                ),
            decreases m.anchored.len() - i,
        {
            proof {
                assert(m.anchored.subrange(0, i + 1).drop_last() =~= m.anchored.subrange(
                    0,
                    i as int,
                ));
            }
            let block = &self.anchored_blocks[i];
            if !self.check_node_within(from, to, &block.position.node_id) {
                kept.push(copy_row(block));
            }
            i += 1;
        }
        assert(m.anchored.subrange(0, m.anchored.len() as int) =~= m.anchored);
        kept
    }
}

/// What the fragment that is replaced, and what replaces it, have in common.
pub(crate) proof fn lemma_fragment_shown<I>(m: ModelView<I>, from: int, to: int, c: ModelView<I>)
    requires
        splice_ready(m, from, to, c),
    ensures
        ({
            let first = m.fragment_start(from);
            let last = m.fragment_start(to);
            let p = m.projection;
            &&& m.shown(first, Affinity::Before) == p.shown_at(first)
            &&& m.shown(last, Affinity::Before) == p.shown_at(last)
            &&& 0 <= p.shown_at(first) <= p.shown_at(last) <= m.display().len()
            &&& at_boundary(m.display(), p.shown_at(first))
            &&& at_boundary(m.display(), p.shown_at(last))
            &&& p.outside(first)
            &&& p.outside(last)
            &&& p.source_len == m.bytes.len()
            &&& c.projection.source_len == c.bytes.len()
            &&& m.bytes.len() + c.bytes.len() <= isize::MAX
        }),
{
    lemma_regions_shape(m, from, to, c);
    reveal(splice_ready);
    let first = m.fragment_start(from);
    let last = m.fragment_start(to);
    let p = m.projection;
    lemma_projection_fits(p, m.regions, m.bytes);
    lemma_projection_fits(c.projection, c.regions, c.bytes);
    lemma_outside_shown(p, first, Affinity::Before);
    lemma_outside_shown(p, last, Affinity::Before);
    lemma_shown_order(p, first, last);
    lemma_shown_boundary(m.bytes, p, first);
    lemma_shown_boundary(m.bytes, p, last);
}

/// Replaces the blocks of a fragment.
fn splice_blocks<I>(
    blocks: &mut Vec<DocumentBlock<I>>,
    first: usize,
    last: usize,
    replacement: Vec<DocumentBlock<I>>,
    delta: isize,
)
    requires
        first <= isize::MAX,
        block_behind(old(blocks)@, first as int) <= block_from(old(blocks)@, last as int),
    ensures
        final(blocks)@ == spliced_blocks(
            old(blocks)@,
            first as int,
            last as int,
            replacement@,
            delta as int,
        ),
{
    let ghost before = blocks@;
    let head = find_block(blocks, first, false);
    let tail = find_block(blocks, last, true);
    let mut behind = blocks.split_off(tail);
    blocks.truncate(head);
    let mut replacement = replacement;
    shift_blocks(&mut replacement, first as isize);
    shift_blocks(&mut behind, delta);
    blocks.append(&mut replacement);
    blocks.append(&mut behind);
    proof {
        assert(before.subrange(0, tail as int).subrange(0, head as int) =~= before.subrange(
            0,
            head as int,
        ));
    }
}

impl<I: Clone + Eq> DocumentModel<I> {
    /// Moves the anchors and the text of a fragment.
    fn replace_fragment_text(&mut self, first: usize, last: usize, new_text: &str)
        requires
            old(self).wf(),
            first <= last <= old(self)@.bytes.len(),
            at_boundary(old(self)@.bytes, first as int),
            at_boundary(old(self)@.bytes, last as int),
            old(self)@.bytes.len() + new_text.spec_bytes().len() <= isize::MAX,
        ensures
            final(self).anchors.wf(),
            final(self).text.wf(),
            ({
                let old_text = old(self)@.bytes.subrange(first as int, last as int);
                let text = new_text.spec_bytes();
                &&& final(self)@ == (ModelView {
                    bytes: splice_bytes(
                        old(self)@.bytes,
                        first as int,
                        last as int,
                        text,
                    ),
                    anchors: fragment_anchors(old(self)@.anchors, first as int, old_text, text),
                    ..old(self)@
                })
            }),
            final(self).projection_map == old(self).projection_map,
            final(self).projection == old(self).projection,
            final(self).regions == old(self).regions,
    {
        let ghost m = self@;
        let old_text = self.text.slice(&(first..last));
        let ghost a = encode_utf8(old_text@);
        let ghost b = new_text.spec_bytes();
        assert(a == m.bytes.subrange(first as int, last as int));
        proof {
            lemma_least_edit(m.bytes, first as int, last as int, b);
            lemma_kept(a, b);
        }
        match fragment_edit(first, old_text.as_str(), new_text) {
            None => {
                assert(self@ =~= (ModelView {
                    bytes: splice_bytes(m.bytes, first as int, last as int, b),
                    anchors: fragment_anchors(m.anchors, first as int, a, b),
                    ..m
                }));
            },
            Some(edit) => {
                let range = edit.range();
                let len = edit.replacement_len();
                self.anchors.apply_edit(&range, len);
                self.text.replace(&range, edit.replacement());
                proof {
                    assert(self@.anchors =~= fragment_anchors(m.anchors, first as int, a, b));
                    assert(self@ =~= (ModelView {
                        bytes: splice_bytes(m.bytes, first as int, last as int, b),
                        anchors: fragment_anchors(m.anchors, first as int, a, b),
                        ..m
                    }));
                }
            },
        }
    }

    /// Replaces the nodes `from..to` by another document.
    fn install_fragment(&mut self, from: usize, to: usize, candidate: DocumentModel<I>)
        requires
            old(self).wf(),
            candidate.wf(),
            splice_ready(old(self)@, from as int, to as int, candidate@),
            from <= to <= old(self)@.regions.len(),
            old(self)@.display().len() + candidate@.display().len() <= isize::MAX,
        ensures
            final(self).wf(),
            final(self)@ == old(self)@.fragment_model(from as int, to as int, candidate@),
            final(self)@.anchors.dom() == old(self)@.anchors.dom(),
    {
        let ghost m = self@;
        let ghost c = candidate@;
        proof {
            lemma_regions_shape(m, from as int, to as int, c);
            lemma_fragment_shown(m, from as int, to as int, c);
            lemma_fragment_projection(m, from as int, to as int, c);
            lemma_blocks_shape(m, from as int, to as int, c);
        }
        let first = self.fragment_start(from);
        let last = self.fragment_start(to);
        let shown_first = self.shown(first);
        let shown_last = self.shown(last);
        let new_text = candidate.text();
        let new_len = byte_len(new_text.as_str());
        let source_delta = new_len as isize - (last - first) as isize;
        let new_display = byte_len(candidate.display_text());
        let display_delta = new_display as isize - (shown_last - shown_first) as isize;
        let mut rows = self.keep_rows(from, to);
        self.replace_fragment_text(first, last, new_text.as_str());
        proof {
            lemma_fragment_model(m, from as int, to as int, c);
            lemma_fragment_regions(
                m,
                from as int,
                to as int,
                c,
            );
        }
        self.regions.splice(from..to, candidate.regions, first, source_delta);
        proof {
            assert(m.projection.span_behind(first as int) <= m.projection.span_from(last as int))
                by {
                reveal(splice_shape);
            }
        }
        self.projection.splice(&(first..last), candidate.projection);
        self.projection_map.splice(
            &(first..last),
            &(shown_first..shown_last),
            candidate.projection_map,
        );
        proof {
            assert(block_behind(m.blocks, first as int) <= block_from(m.blocks, last as int)) by {
                reveal(blocks_shape);
            }
        }
        splice_blocks(&mut self.blocks, first, last, candidate.blocks, source_delta);
        let mut added = candidate.anchored_blocks;
        rows.append(&mut added);
        self.anchored_blocks = rows;
        self.styles.splice(&(first..last), new_len, candidate.styles);
        self.resolved_styles.splice(
            &(shown_first..shown_last),
            display_delta,
            candidate.resolved_styles,
        );
        self.reconcile_anchor_nodes();
        self.revision = self.revision.next();
        assert(self@ =~= m.fragment_model(from as int, to as int, c));
    }
}

// ---------------------------------------------------------------------------
// Rows
// ---------------------------------------------------------------------------

proof fn lemma_skip_rows<I>(s: StateView<I>, from: int, region: int)
    requires
        0 <= from <= s.items.len(),
    ensures
        from <= s.skip_rows(from, region) <= s.items.len(),
    decreases s.items.len() - from,
{
    if from < s.items.len() && s.row_before(from, region) {
        lemma_skip_rows(s, from + 1, region);
    }
}

/// Rows that are skipped for one node are skipped for a later one.
proof fn lemma_skip_more<I>(s: StateView<I>, a: int, b: int, from: int, to: int)
    requires
        0 <= a <= b <= s.items.len(),
        from <= to,
    ensures
        s.skip_rows(a, from) <= s.skip_rows(b, to),
    decreases s.items.len() - a,
{
    lemma_skip_rows(s, a, from);
    lemma_skip_rows(s, b, to);
    if a < s.items.len() && s.row_before(a, from) {
        if a < b {
            lemma_skip_more(s, a + 1, b, from, to);
        } else {
            assert(s.row_before(a, to));
            lemma_skip_more(s, a + 1, b + 1, from, to);
        }
    }
}

/// The rows of a fragment are a part of all.
pub(crate) proof fn lemma_layout_edges<I>(s: StateView<I>, from: int, to: int)
    requires
        s.model.wf(),
        0 <= from <= to <= s.model.regions.len(),
    ensures
        0 <= s.layout_edge(from) <= s.layout_edge(to) <= s.items.len(),
{
    let m = s.model;
    let n = m.regions.len() as int;
    let first = m.fragment_start(from);
    let last = m.fragment_start(to);
    if from < n {
        assert(m.regions[from].start() <= m.regions[from].end() <= m.bytes.len());
        if from < to && to < n {
            assert(m.regions[from].end() <= m.regions[to].start());
        }
    }
    assert(first <= last);
    let after_first = |item: LayoutView<I>| item.source_start() >= first;
    let after_last = |item: LayoutView<I>| item.source_start() >= last;
    lemma_first_where(s.items, after_first, 0);
    lemma_first_where(s.items, after_last, 0);
    let a = row_from(s.items, first);
    let b = row_from(s.items, last);
    if b < a {
        assert(after_last(s.items[b]));
        assert(!after_first(s.items[b]));
    }
    lemma_skip_more(s, a, b, from, to);
    lemma_skip_rows(s, a, from);
    lemma_skip_rows(s, b, to);
}

impl<I: Clone + Eq> DocumentState<I> {
    /// Whether a row belongs to a node before another.
    fn check_row_before(&self, index: usize, region: usize) -> (before: bool)
        requires
            self.wf(),
            index < self@.items.len(),
        ensures
            before == self@.row_before(index as int, region as int),
    {
        let ghost anchored = self@.model.anchored;
        assert(self@.items[index as int] == self.layout_items@[index as int]@);
        let owner = match &self.layout_items[index] {
            DocumentLayoutItem::Text { node_id, .. } => match node_id {
                Some(id) => self.model.region_index(id),
                None => None,
            },
            DocumentLayoutItem::Block { id, .. } => self.model.region_index(id),
            DocumentLayoutItem::AnchoredBlock { id, .. } => {
                let ghost test = |b: AnchoredBlock<I>| b.spec_id() == *id;
                let mut i: usize = 0;
                while i < self.model.anchored_blocks.len() && !same_id(
                    &self.model.anchored_blocks[i].id,
                    id,
                )
                    invariant
                        self.wf(),
                        anchored == self.model.anchored_blocks@,
                        i <= anchored.len(),
                        test == (|b: AnchoredBlock<I>| b.spec_id() == *id),
                        forall|k: int| 0 <= k < i ==> !(#[trigger] test(anchored[k])),
                    decreases anchored.len() - i,
                {
                    assert(!test(anchored[i as int]));
                    i += 1;
                }
                proof {
                    if i < anchored.len() {
                        assert(test(anchored[i as int]));
                    }
                    lemma_first_where_is(anchored, test, 0, i as int);
                }
                if i < self.model.anchored_blocks.len() {
                    self.model.region_index(&self.model.anchored_blocks[i].position.node_id)
                } else {
                    None
                }
            },
            DocumentLayoutItem::Trailer => None,
        };
        match owner {
            Some(owner) => owner < region,
            None => false,
        }
    }

    /// The first row of a node.
    fn layout_boundary(&self, region_ix: usize) -> (edge: usize)
        requires
            self.wf(),
            region_ix <= self@.model.regions.len(),
        ensures
            edge == self@.layout_edge(region_ix as int),
            edge <= self@.items.len(),
    {
        let ghost items = self@.items;
        let source = self.model.fragment_start(region_ix);
        let ghost test = |item: LayoutView<I>| item.source_start() >= source as int;
        let mut ix: usize = 0;
        while ix < self.layout_items.len() && self.layout_items[ix].source_start() < source
            invariant
                items == layout_views(self.layout_items@),
                ix <= items.len(),
                test == (|item: LayoutView<I>| item.source_start() >= source as int),
                forall|k: int| 0 <= k < ix ==> !(#[trigger] test(items[k])),
            decreases items.len() - ix,
        {
            assert(items[ix as int] == self.layout_items@[ix as int]@);
            assert(!test(items[ix as int]));
            ix += 1;
        }
        proof {
            if ix < items.len() {
                assert(items[ix as int] == self.layout_items@[ix as int]@);
                assert(test(items[ix as int]));
            }
            lemma_first_where_is(items, test, 0, ix as int);
        }
        while ix < self.layout_items.len() && self.check_row_before(ix, region_ix)
            invariant
                self.wf(),
                items == self@.items,
                ix <= items.len(),
                self@.layout_edge(region_ix as int) == self@.skip_rows(
                    ix as int,
                    region_ix as int,
                ),
            decreases items.len() - ix,
        {
            ix += 1;
        }
        ix
    }

    /// The rows that replace those of a fragment.
    fn fragment_rows(&self, from: usize, to: usize, candidate: &DocumentModel<I>) -> (rows: Vec<
        DocumentLayoutItem<I>,
    >)
        requires
            self.wf(),
            candidate.wf(),
            from <= to <= self@.model.regions.len(),
            self@.model.bytes.len() <= isize::MAX,
            self@.model.display().len() <= isize::MAX,
        ensures
            layout_views(rows@) == self@.fragment_rows(from as int, to as int, candidate@),
    {
        let mut rows = candidate.layout_items();
        let ghost all = layout_views(rows@);
        let count = rows.len();
        if to != self.model.regions.regions.len() && count > 0 {
            let empty = match &rows[count - 1] {
                DocumentLayoutItem::Text { display, .. } => display.start >= display.end,
                _ => false,
            };
            assert(all.last() == rows@[count - 1]@);
            if empty {
                rows.truncate(count - 1);
                assert(layout_views(rows@) =~= all.drop_last());
            }
        }
        let first = self.model.fragment_start(from);
        let shown_first = self.model.shown(first);
        shift_rows(&mut rows, first as isize, shown_first as isize);
        rows
    }

    /// Replaces rows, and moves those behind them.
    fn replace_rows(
        &mut self,
        start: usize,
        end: usize,
        rows: Vec<DocumentLayoutItem<I>>,
        source_delta: isize,
        display_delta: isize,
    )
        requires
            old(self).wf(),
            start <= end <= old(self)@.items.len(),
        ensures
            final(self).wf(),
            final(self).model == old(self).model,
            final(self)@ == old(self)@.with_rows(
                start as int,
                end as int,
                layout_views(rows@),
                source_delta as int,
                display_delta as int,
            ),
    {
        let ghost before = self@;
        let ghost items = before.items;
        let ghost views = layout_views(rows@);
        let mut rows = rows;
        let mut behind = self.layout_items.split_off(end);
        assert(layout_views(behind@) =~= items.subrange(end as int, items.len() as int));
        let gone = self.layout_items.split_off(start);
        assert(layout_views(gone@) =~= items.subrange(start as int, end as int));
        assert(layout_views(self.layout_items@) =~= items.subrange(0, start as int));
        shift_rows(&mut behind, source_delta, display_delta);
        let (prefix, suffix) = shared_rows(&gone, &rows);
        let changed_to = end - suffix;
        let count = rows.len() - prefix - suffix;
        if start + prefix != changed_to || count != 0 {
            self.effects.push(
                DocumentEffect::SpliceItems { from: start + prefix, to: changed_to, count },
            );
        }
        let ghost moved = layout_views(behind@);
        self.layout_items.append(&mut rows);
        self.layout_items.append(&mut behind);
        proof {
            assert(layout_views(self.layout_items@) =~= items.subrange(0, start as int) + views
                + moved);
            assert(self@ =~= before.with_rows(
                start as int,
                end as int,
                views,
                source_delta as int,
                display_delta as int,
            ));
        }
    }

    /// Replaces the rows of a fragment.
    fn splice_rows(&mut self, from: usize, to: usize, candidate: &DocumentModel<I>)
        requires
            old(self).wf(),
            candidate.wf(),
            from <= to <= old(self)@.model.regions.len(),
            splice_ready(old(self)@.model, from as int, to as int, candidate@),
            old(self)@.model.display().len() + candidate@.display().len() <= isize::MAX,
        ensures
            final(self).wf(),
            final(self)@ == old(self)@.with_fragment_rows(from as int, to as int, candidate@),
            final(self).model == old(self).model,
    {
        let ghost before = self@;
        let ghost m = before.model;
        let ghost c = candidate@;
        proof {
            lemma_fragment_shown(m, from as int, to as int, c);
            lemma_regions_shape(m, from as int, to as int, c);
            lemma_layout_edges(before, from as int, to as int);
        }
        let first = self.model.fragment_start(from);
        let last = self.model.fragment_start(to);
        let shown_first = self.model.shown(first);
        let shown_last = self.model.shown(last);
        let source_delta = candidate.text.len() as isize - (last - first) as isize;
        let display_delta = byte_len(candidate.display_text()) as isize - (shown_last
            - shown_first) as isize;
        let start = self.layout_boundary(from);
        let end = self.layout_boundary(to);
        let rows = self.fragment_rows(from, to, candidate);
        self.replace_rows(start, end, rows, source_delta, display_delta);
    }
}

/// How many rows at the start and at the end of two lists are the same.
fn shared_rows<I: Clone + Eq>(
    old_rows: &Vec<DocumentLayoutItem<I>>,
    rows: &Vec<DocumentLayoutItem<I>>,
) -> (shared: (usize, usize))
    requires
        lawful_id::<I>(),
    ensures
        ({
            let a = layout_views(old_rows@);
            let b = layout_views(rows@);
            &&& shared.0 == shared_prefix(a, b, 0, a.len() as int)
            &&& shared.1 == shared_suffix(a, b, 0, shared.0 as int)
            &&& shared.0 + shared.1 <= a.len()
            &&& shared.0 + shared.1 <= b.len()
        }),
{
    let ghost a = layout_views(old_rows@);
    let ghost b = layout_views(rows@);
    let mut prefix: usize = 0;
    while prefix < old_rows.len() && prefix < rows.len() && old_rows[prefix].same_layout_identity(
        &rows[prefix],
    )
        invariant
            lawful_id::<I>(),
            a == layout_views(old_rows@),
            b == layout_views(rows@),
            prefix <= a.len(),
            prefix <= b.len(),
            shared_prefix(a, b, 0, a.len() as int) == shared_prefix(
                a,
                b,
                prefix as int,
                a.len() as int,
            ),
        decreases a.len() - prefix,
    {
        prefix += 1;
    }
    assert(shared_prefix(a, b, 0, a.len() as int) == prefix);
    let mut suffix: usize = 0;
    while suffix < old_rows.len() - prefix && suffix < rows.len() - prefix
        && old_rows[old_rows.len() - 1 - suffix].same_layout_identity(
        &rows[rows.len() - 1 - suffix],
    )
        invariant
            lawful_id::<I>(),
            a == layout_views(old_rows@),
            b == layout_views(rows@),
            prefix <= a.len(),
            prefix <= b.len(),
            suffix <= a.len() - prefix,
            suffix <= b.len() - prefix,
            shared_suffix(a, b, 0, prefix as int) == shared_suffix(
                a,
                b,
                suffix as int,
                prefix as int,
            ),
        decreases a.len() - suffix,
    {
        suffix += 1;
    }
    (prefix, suffix)
}

// ---------------------------------------------------------------------------
// The whole
// ---------------------------------------------------------------------------

/// Whether a snapshot has editable regions.
fn has_editable<I>(regions: &Vec<DocumentRegion<I>>) -> (editable: bool)
    ensures
        editable == exists|i: int|
            0 <= i < regions@.len() && (#[trigger] regions@[i]).spec_policy()
                == EditPolicy::Editable,
{
    let mut i: usize = 0;
    while i < regions.len()
        invariant
            i <= regions@.len(),
            forall|k: int|
                0 <= k < i ==> (#[trigger] regions@[k]).spec_policy() != EditPolicy::Editable,
        decreases regions@.len() - i,
    {
        if regions[i].policy == EditPolicy::Editable {
            assert(regions@[i as int].spec_policy() == EditPolicy::Editable);
            return true;
        }
        i += 1;
    }
    false
}

/// A snapshot without a fault can replace a fragment.
pub(crate) proof fn lemma_splice_ready<I>(
    s: StateView<I>,
    from: int,
    to: int,
    snapshot: SnapshotView<I>,
)
    requires
        s.model.wf(),
        StateView::snapshot_model(snapshot).wf(),
        0 <= from <= to <= s.model.regions.len(),
        s.model.fragment_open(from, to),
        s.model.fragment_fits(s.model.fragment_start(from), s.model.fragment_start(to)),
        forall|i: int|
            0 <= i < snapshot.regions.len() ==> (#[trigger] snapshot.regions[i]).spec_policy()
                != EditPolicy::Editable,
        snapshot.selection is None,
        s.model.bytes.len() + snapshot.text.len() <= isize::MAX,
        !s.model.ids_clash(from, to, StateView::snapshot_model(snapshot)),
    ensures
        splice_ready(s.model, from, to, StateView::snapshot_model(snapshot)),
{
    reveal(splice_ready);
    let m = s.model;
    let c = StateView::snapshot_model(snapshot);
    lemma_sort_members(snapshot.regions);
    assert forall|i: int| 0 <= i < c.regions.len() implies (#[trigger] c.regions[i]).spec_policy()
        != EditPolicy::Editable by {
        assert(stable_sort(snapshot.regions).contains(c.regions[i]));
        assert(snapshot.regions.contains(c.regions[i]));
    }
    assert forall|i: int, j: int|
        #![trigger m.regions[i], c.regions[j]]
        (0 <= i < from || to <= i < m.regions.len()) && 0 <= j < c.regions.len() implies m.regions[i].spec_id()
        != c.regions[j].spec_id() by {
        assert(m.retains_id(from, to, m.regions[i].spec_id()));
        if m.regions[i].spec_id() == c.regions[j].spec_id() {
            assert(c.has_id(m.regions[i].spec_id()));
        }
    }
}

impl<I: Clone + Eq> DocumentState<I> {
    /// The document of a snapshot that replaces a fragment.
    fn fragment_candidate(&self, snapshot: DocumentSnapshot<I>) -> (result: Result<
        DocumentModel<I>,
        HostTransactionError,
    >)
        requires
            lawful_id::<I>(),
            snapshot@.text.len() <= isize::MAX,
            snapshot@.projection.valid(),
            snapshot@.selection is None,
        ensures
            ({
                let fresh = ModelView::initial(snapshot@.text, snapshot@.regions);
                let shown_fault = fresh.presentation_fault(
                    snapshot@.projection,
                    snapshot@.blocks,
                    snapshot@.anchored,
                    snapshot@.styles,
                );
                let new_fault = ModelView::new_fault(snapshot@.text, snapshot@.regions);
                match result {
                    Ok(model) => {
                        &&& new_fault is None
                        &&& shown_fault is None
                        &&& model.wf()
                        &&& model@ == StateView::snapshot_model(snapshot@)
                    },
                    Err(error) => if new_fault is Some {
                        error == HostTransactionError::InvalidFragment(
                            PresentationError::Regions(new_fault->0),
                        )
                    } else {
                        shown_fault is Some && error == HostTransactionError::InvalidFragment(
                            shown_fault->0,
                        )
                    },
                }
            }),
    {
        let mut model = match DocumentModel::new(snapshot.text.as_str(), snapshot.regions) {
            Ok(model) => model,
            Err(error) => {
                return Err(
                    HostTransactionError::InvalidFragment(PresentationError::Regions(error)),
                );
            },
        };
        match model.set_rich_presentation_with_anchors(
            snapshot.projection,
            snapshot.blocks,
            snapshot.anchored_blocks,
            snapshot.styles,
        ) {
            Ok(()) => Ok(model),
            Err(error) => Err(HostTransactionError::InvalidFragment(error)),
        }
    }

    /// Where a fragment is replaced, and with what.
    fn plan_splice(
        &self,
        revision: DocumentRevision,
        first: Option<&I>,
        end: Option<&I>,
        snapshot: DocumentSnapshot<I>,
    ) -> (result: Result<(usize, usize, DocumentModel<I>), HostTransactionError>)
        requires
            self.wf(),
            snapshot@.projection.valid(),
            self@.model.bytes.len() + snapshot@.text.len() <= isize::MAX,
        ensures
            ({
                let from = node_of(first);
                let to = node_of(end);
                let fault = self@.splice_fault(revision, from, to, snapshot@);
                match result {
                    Ok((start, stop, candidate)) => {
                        &&& fault is None
                        &&& self@.model.fragment_edge(from) == Some(start as int)
                        &&& self@.model.fragment_edge(to) == Some(stop as int)
                        &&& start <= stop <= self@.model.regions.len()
                        &&& candidate.wf()
                        &&& candidate@ == StateView::snapshot_model(snapshot@)
                        &&& splice_ready(self@.model, start as int, stop as int, candidate@)
                    },
                    Err(error) => fault == Some(error),
                }
            }),
    {
        let ghost given = snapshot@;
        if revision != self.model.revision {
            return Err(HostTransactionError::StaleRevision);
        }
        let from = match self.model.fragment_edge(first) {
            Some(index) => index,
            None => {
                return Err(HostTransactionError::FragmentBoundary);
            },
        };
        let to = match self.model.fragment_edge(end) {
            Some(index) => index,
            None => {
                return Err(HostTransactionError::FragmentBoundary);
            },
        };
        if !self.model.check_fragment_open(from, to) || has_editable(&snapshot.regions)
            || snapshot.selection.is_some() {
            return Err(HostTransactionError::FragmentBoundary);
        }
        let source_end = self.model.fragment_start(to);
        if !self.model.check_fragment_fits(self.model.fragment_start(from), source_end) {
            return Err(HostTransactionError::FragmentBoundary);
        }
        if !self.has_block_renderer && (snapshot.blocks.len() > 0 || snapshot.anchored_blocks.len()
            > 0) {
            return Err(HostTransactionError::InvalidBlocks(BlockError::MissingRenderer));
        }
        let candidate = match self.fragment_candidate(snapshot) {
            Ok(candidate) => candidate,
            Err(error) => {
                return Err(error);
            },
        };
        if self.model.check_ids_clash(from, to, &candidate) {
            return Err(
                HostTransactionError::InvalidFragment(
                    PresentationError::Regions(RegionError::DuplicateId { index: from }),
                ),
            );
        }
        let shown = candidate.display_text().as_bytes();
        if source_end != self.model.text.len() && shown.len() > 0 && shown[shown.len() - 1]
            != 0x0a {
            return Err(HostTransactionError::FragmentBoundary);
        }
        proof {
            lemma_splice_ready(self@, from as int, to as int, given);
        }
        Ok((from, to, candidate))
    }

    /// Puts the document of a fragment in place.
    fn place_fragment(
        &mut self,
        from: usize,
        to: usize,
        candidate: DocumentModel<I>,
        selection: &Option<RegionSelection<I>>,
        marked: &Option<RegionSelection<I>>,
        Ghost(m): Ghost<ModelView<I>>,
    )
        requires
            old(self).wf(),
            candidate.wf(),
            splice_ready(old(self)@.model, from as int, to as int, candidate@),
            from <= to <= old(self)@.model.regions.len(),
            old(self)@.model.display().len() + candidate@.display().len() <= isize::MAX,
            old(self)@.model.has_room(4),
            m.wf(),
            m.bytes == old(self)@.model.bytes,
            m.regions == old(self)@.model.regions,
            capture_view(*selection) == m.captured(m.selection),
            capture_view(*marked) == m.captured_marked(),
        ensures
            final(self).wf(),
            final(self)@ == old(self)@.with_model(
                old(self)@.model.fragment_model(from as int, to as int, candidate@).recaptured(
                    m.captured(m.selection),
                    m.captured_marked(),
                ),
            ),
    {
        let ghost before = self@;
        let ghost c = candidate@;
        self.model.install_fragment(from, to, candidate);
        proof {
            let next = before.model.fragment_model(from as int, to as int, c);
            assert(self@ =~= before.with_model(next));
            lemma_same_anchors(before, self@);
            lemma_fragment_captures(before.model, from as int, to as int, c, m);
        }
        let ghost placed = self@;
        self.model.recapture(selection, marked);
        proof {
            assert(self@ =~= placed.with_model(
                placed.model.recaptured(m.captured(m.selection), m.captured_marked()),
            ));
            lemma_spared(placed, self@);
        }
    }

    /// Replaces the nodes from `first` up to `end` with a locally addressed
    /// readonly snapshot. Equal boundaries insert before a node. `None` denotes
    /// the document end. Projection, styles and anchored blocks must stay
    /// inside the replaced nodes; both seams must be display-line boundaries.
    /// Rejection changes no state. Editable nodes, their undo, marked text and
    /// scroll ownership are preserved.
    pub fn apply_host_splice(
        &mut self,
        revision: DocumentRevision,
        first: Option<&I>,
        end: Option<&I>,
        snapshot: DocumentSnapshot<I>,
        viewport_top: Option<&DocumentPosition<I>>,
    ) -> (result: Result<(), HostTransactionError>)
        requires
            old(self).wf(),
            old(self)@.model.has_room(5),
            snapshot@.projection.valid(),
            old(self)@.model.bytes.len() + snapshot@.text.len() <= isize::MAX,
            old(self)@.model.display().len() + snapshot@.projection.display_len() <= isize::MAX,
        ensures
            final(self).wf(),
            ({
                let from = node_of(first);
                let to = node_of(end);
                let fault = old(self)@.splice_fault(revision, from, to, snapshot@);
                match result {
                    Ok(()) => {
                        &&& fault is None
                        &&& final(self)@ == old(self)@.spliced(
                            from,
                            to,
                            snapshot@,
                            position_of(viewport_top),
                        )
                    },
                    Err(error) => fault == Some(error) && final(self)@ == old(self)@,
                }
            }),
    {
        let ghost before = self@;
        let ghost m = before.model;
        let (from, to, candidate) = match self.plan_splice(revision, first, end, snapshot) {
            Ok(plan) => plan,
            Err(error) => {
                return Err(error);
            },
        };
        proof {
            lemma_rendered_len(candidate@.bytes, candidate@.projection);
        }
        let selection = self.model.capture_active_selection_in_editable_region();
        let marked = self.model.capture_marked_in_editable_region();
        self.capture_viewport_anchor(viewport_top);
        proof {
            assert(splice_ready(self@.model, from as int, to as int, candidate@)) by {
                reveal(splice_ready);
            }
        }
        self.splice_rows(from, to, &candidate);
        self.place_fragment(from, to, candidate, &selection, &marked, Ghost(m));
        self.emit(
            DocumentEvent::Changed { revision: self.model.revision, origin: EditOrigin::Host },
        );
        self.notify();
        Ok(())
    }
}

/// What was captured in editable regions fits the document after a fragment
/// was replaced.
pub(crate) proof fn lemma_fragment_captures<I>(
    kept: ModelView<I>,
    from: int,
    to: int,
    c: ModelView<I>,
    m: ModelView<I>,
)
    requires
        splice_ready(kept, from, to, c),
        m.wf(),
        m.bytes == kept.bytes,
        m.regions == kept.regions,
        kept.fragment_model(from, to, c).wf(),
    ensures
        ({
            let next = kept.fragment_model(from, to, c);
            &&& m.captured(m.selection) matches Some(pair) ==> capture_fits(
                next,
                pair,
            )
            &&& m.captured_marked() matches Some(pair) ==> capture_fits(
                next,
                pair,
            )
        }),
{
    let next = kept.fragment_model(from, to, c);
    assert forall|r: int|
        0 <= r < m.regions.len() && (#[trigger] m.regions[r]).spec_policy()
            == EditPolicy::Editable implies region_kept(
        m.regions[r],
        m.bytes,
        next.regions,
        next.bytes,
    ) by {
        lemma_fragment_keeps(kept, from, to, c, r);
    }
    lemma_capture_kept(m, m.selection, next);
    if let Some(marked) = m.marked {
        lemma_capture_kept(m, marked, next);
    }
}

} // verus!
