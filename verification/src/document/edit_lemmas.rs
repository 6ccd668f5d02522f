//! What edits do to a document depends only on where they are and what they
//! insert.

use crate::document::anchors::AnchorRecord;
use crate::document::block::blocks_carried;
use crate::document::model_lemmas::{
    lemma_anchors_edited, lemma_anchors_reconciled, lemma_front_applicable, lemma_regions_grown,
};
use crate::document::model_view::{anchors_edited, ModelView};
use crate::document::position::{moved_offset, AnchorBias, DocumentAnchor};
use crate::document::projection::{ProjectionMapping, ProjectionView};
use crate::document::style::StylesView;
use crate::document::transaction::{
    applicable, carried, edited, edits_conflict, edits_fit, edits_inside, edits_on_boundaries, ends,
    inserted_len, lemma_edited, net_growth, TextEdit,
};
use crate::text::{at_boundary, lemma_encoded, lemma_splice_boundaries, splice_bytes, starts_clean};
use vstd::prelude::*;

verus! {

/// Edits at the same places that insert the same text.
pub open spec fn alike(a: Seq<TextEdit>, b: Seq<TextEdit>) -> bool {
    &&& a.len() == b.len()
    &&& forall|i: int|
        #![trigger a[i]]
        #![trigger b[i]]
        0 <= i < a.len() ==> a[i].start() == b[i].start() && a[i].end() == b[i].end()
            && a[i].bytes() == b[i].bytes()
}

/// An edit at a place that inserts a text.
pub open spec fn text_edit(start: int, end: int, bytes: Seq<u8>) -> TextEdit {
    choose|edit: TextEdit|
        (#[trigger] edit.bytes()) == bytes && edit.start() == start && edit.end() == end
}

/// There is such an edit once one was made.
pub proof fn lemma_text_edit(edit: TextEdit)
    ensures
        alike(
            seq![edit],
            seq![text_edit(edit.start(), edit.end(), edit.bytes())],
        ),
{
    assert(edit.bytes() == edit.bytes());
}

proof fn lemma_alike_front(a: Seq<TextEdit>, b: Seq<TextEdit>)
    requires
        alike(a, b),
        a.len() > 0,
    ensures
        alike(a.drop_last(), b.drop_last()),
{
    let x = a.drop_last();
    let y = b.drop_last();
    assert forall|i: int|
        #![trigger x[i]]
        #![trigger y[i]]
        0 <= i < x.len() implies x[i].start() == y[i].start() && x[i].end() == y[i].end()
        && x[i].bytes() == y[i].bytes() by {
        assert(x[i] == a[i] && y[i] == b[i]);
    }
}

proof fn lemma_alike_text(bytes: Seq<u8>, a: Seq<TextEdit>, b: Seq<TextEdit>)
    requires
        alike(a, b),
    ensures
        edited(bytes, a) == edited(bytes, b),
        net_growth(a) == net_growth(b),
        inserted_len(a) == inserted_len(b),
    decreases a.len(),
{
    if a.len() > 0 {
        lemma_alike_front(a, b);
        lemma_alike_text(bytes, a.drop_last(), b.drop_last());
        assert(a.last() == a[a.len() - 1] && b.last() == b[b.len() - 1]);
    }
}

proof fn lemma_alike_carried(range: (int, int), a: Seq<TextEdit>, b: Seq<TextEdit>)
    requires
        alike(a, b),
    ensures
        carried(range, a) == carried(range, b),
    decreases a.len(),
{
    if a.len() > 0 {
        lemma_alike_front(a, b);
        lemma_alike_carried(range, a.drop_last(), b.drop_last());
        assert(a.last() == a[a.len() - 1] && b.last() == b[b.len() - 1]);
    }
}

proof fn lemma_alike_anchors<I>(
    anchors: Map<DocumentAnchor, AnchorRecord<I>>,
    a: Seq<TextEdit>,
    b: Seq<TextEdit>,
)
    requires
        alike(a, b),
    ensures
        anchors_edited(anchors, a) == anchors_edited(anchors, b),
    decreases a.len(),
{
    if a.len() > 0 {
        lemma_alike_front(a, b);
        lemma_alike_anchors(anchors, a.drop_last(), b.drop_last());
        assert(a.last() == a[a.len() - 1] && b.last() == b[b.len() - 1]);
        let x = a.last();
        let y = b.last();
        let before = anchors_edited(anchors, a.drop_last());
        assert(before.map_values(
            |r: AnchorRecord<I>| r.moved(x.start(), x.end(), x.bytes().len() as int),
        ) =~= before.map_values(
            |r: AnchorRecord<I>| r.moved(y.start(), y.end(), y.bytes().len() as int),
        ));
    }
}

proof fn lemma_alike_projection(p: ProjectionView, a: Seq<TextEdit>, b: Seq<TextEdit>, len: int)
    requires
        alike(a, b),
    ensures
        p.carried(a, len) == p.carried(b, len),
{
    assert forall|i: int| 0 <= i < p.spans.len() implies (#[trigger] p.spans[i]).carried(a)
        == p.spans[i].carried(b) by {
        let span = p.spans[i];
        lemma_alike_carried((span.start, span.end), a, b);
        if let Some(entries) = span.mapping {
            assert forall|k: int| 0 <= k < entries.len() implies carried(
                (#[trigger] entries[k]).spec_source(),
                a,
            ) == carried(entries[k].spec_source(), b) by {
                lemma_alike_carried(entries[k].spec_source(), a, b);
            }
            assert(entries.map_values(
                |e: ProjectionMapping| e.with_source(carried(e.spec_source(), a)),
            ) =~= entries.map_values(
                |e: ProjectionMapping| e.with_source(carried(e.spec_source(), b)),
            ));
        }
    }
    assert(p.carried(a, len).spans =~= p.carried(b, len).spans);
}

proof fn lemma_alike_styles(styles: StylesView, a: Seq<TextEdit>, b: Seq<TextEdit>)
    requires
        alike(a, b),
    ensures
        styles.carried(a) == styles.carried(b),
{
    assert forall|i: int| 0 <= i < styles.paragraphs.len() implies carried(
        ends((#[trigger] styles.paragraphs[i]).spec_source()),
        a,
    ) == carried(
        ends(styles.paragraphs[i].spec_source()),
        b,
    ) by {
        lemma_alike_carried(
            ends(styles.paragraphs[i].spec_source()),
            a,
            b,
        );
    }
    assert forall|i: int| 0 <= i < styles.inline.len() implies carried(
        ends((#[trigger] styles.inline[i]).spec_source()),
        a,
    ) == carried(ends(styles.inline[i].spec_source()), b) by {
        lemma_alike_carried(
            ends(styles.inline[i].spec_source()),
            a,
            b,
        );
    }
    assert(styles.carried(a).paragraphs =~= styles.carried(b).paragraphs);
    assert(styles.carried(a).inline =~= styles.carried(b).inline);
}

/// Edits that are alike leave the same document.
pub proof fn lemma_alike<I>(m: ModelView<I>, target: int, a: Seq<TextEdit>, b: Seq<TextEdit>)
    requires
        alike(a, b),
    ensures
        m.edited_in(target, a) == m.edited_in(target, b),
        m.edit_rejection(target, a) == m.edit_rejection(target, b),
{
    lemma_alike_text(m.bytes, a, b);
    lemma_alike_anchors(m.anchors, a, b);
    lemma_alike_projection(m.projection, a, b, edited(m.bytes, a).len() as int);
    lemma_alike_styles(m.styles, a, b);
    assert forall|i: int| 0 <= i < m.blocks.len() implies carried(
        ((#[trigger] m.blocks[i]).start(), m.blocks[i].end()),
        a,
    ) == carried((m.blocks[i].start(), m.blocks[i].end()), b) by {
        lemma_alike_carried((m.blocks[i].start(), m.blocks[i].end()), a, b);
    }
    assert(blocks_carried(m.blocks, a) =~= blocks_carried(m.blocks, b));
}

// ---------------------------------------------------------------------------
// The caret behind edits
// ---------------------------------------------------------------------------

/// Where the caret is after edits: behind what the first of them inserted.
pub open spec fn caret_after(edits: Seq<TextEdit>) -> int
    decreases edits.len(),
{
    if edits.len() <= 1 {
        edits[0].start() + edits[0].bytes().len()
    } else {
        moved_offset(
            caret_after(edits.drop_last()),
            AnchorBias::Right,
            edits.last().start(),
            edits.last().end(),
            edits.last().bytes().len() as int,
        )
    }
}

/// The caret stays between characters, and in the part of the text that the
/// edits are in.
pub proof fn lemma_caret(bytes: Seq<u8>, edits: Seq<TextEdit>, start: int, end: int)
    requires
        edits.len() > 0,
        applicable(edits),
        edits_on_boundaries(edits, bytes),
        starts_clean(bytes),
        edits_fit(bytes.len() as int, edits),
        edits_inside(edits, start, end),
        0 <= start <= end <= bytes.len(),
    ensures
        at_boundary(edited(bytes, edits), caret_after(edits)),
        start <= edits.last().start() <= caret_after(edits) <= end + net_growth(edits),
    decreases edits.len(),
{
    let front = edits.drop_last();
    let last = edits.last();
    let s = last.start();
    let e = last.end();
    let ins = last.bytes();
    assert(last == edits[edits.len() - 1]);
    lemma_encoded(last.replacement@);
    lemma_front_applicable(edits);
    assert forall|i: int| 0 <= i < front.len() implies (#[trigger] front[i]).start()
        <= front[i].end() <= bytes.len() && at_boundary(bytes, front[i].start()) && at_boundary(
        bytes,
        front[i].end(),
    ) && start <= front[i].start() && front[i].end() <= end by {
        assert(front[i] == edits[i]);
    }
    lemma_edited(bytes, front);
    let text = edited(bytes, front);
    if edits.len() == 1 {
        assert(front =~= Seq::empty());
        assert(text == bytes);
        lemma_splice_boundaries(text, s, e, ins);
        assert(at_boundary(ins, ins.len() as int));
        assert(at_boundary(splice_bytes(text, s, e, ins), s + ins.len()));
        assert(net_growth(edits) == ins.len() - (e - s));
    } else {
        assert(edits_inside(front, e, end)) by {
            assert forall|i: int| 0 <= i < front.len() implies e <= (#[trigger] front[i]).start()
                && front[i].end() <= end by {
                assert(!edits_conflict(edits[i], edits[edits.len() - 1]));
                assert(front[i] == edits[i]);
            }
        }
        assert(front.last() == edits[edits.len() - 2]);
        lemma_caret(bytes, front, e, end);
        let c = caret_after(front);
        assert(e <= front.last().start());
        assert(at_boundary(text, s) && at_boundary(text, e));
        lemma_splice_boundaries(text, s, e, ins);
        assert(at_boundary(splice_bytes(text, s, e, ins), c - (e - s) + ins.len()));
        assert(caret_after(edits) == c - (e - s) + ins.len());
    }
}

/// Edits in a region leave the anchors that the view uses live.
pub proof fn lemma_edited_anchors<I>(m: ModelView<I>, target: int, edits: Seq<TextEdit>)
    requires
        m.wf(),
        0 <= target < m.regions.len(),
        applicable(edits),
        edits_on_boundaries(edits, m.bytes),
        edits_inside(edits, m.regions[target].start(), m.regions[target].end()),
        edits_fit(m.bytes.len() as int, edits),
    ensures
        m.edited_in(target, edits).anchors.dom() == m.anchors.dom(),
{
    lemma_regions_grown(m, target, edits);
    assert forall|a: DocumentAnchor| #[trigger] m.anchors.dom().contains(a) implies at_boundary(
        m.bytes,
        m.anchors[a].spec_offset(),
    ) by {
        assert(m.anchors_fit());
    }
    lemma_anchors_edited(m.bytes, m.anchors, edits);
    let next = m.edited_in(target, edits);
    let moved = anchors_edited(m.anchors, edits);
    assert forall|a: DocumentAnchor| #[trigger] moved.dom().contains(a) implies at_boundary(
        next.bytes,
        moved[a].spec_offset(),
    ) by {
        assert(m.anchors.dom().contains(a));
    }
    lemma_anchors_reconciled(next.bytes, moved, next.regions);
}

} // verus!
