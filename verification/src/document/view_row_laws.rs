//! What the view is asked to do with its rows.

use crate::document::anchored_block::AnchoredBlock;
use crate::document::block::DocumentBlock;
use crate::document::event::{DocumentEffect, SnapshotView};
use crate::document::layout::LayoutView;
use crate::document::model_view::ModelView;
use crate::document::projection::ProjectionView;
use crate::document::region::DocumentRegion;
use crate::document::row_laws::law_rows_depend_on_what_is_shown;
use crate::document::splice_view::shifted_rows;
use crate::document::state_view::{shared_prefix, shared_suffix, StateView};
use crate::document::style::StylesView;
use crate::order::lemma_sort_members;
use vstd::prelude::*;

verus! {

/// Two rows that are measured alike: they show the same text of the same node
/// in the same way, or the same block.
pub open spec fn measured_alike<I>(a: LayoutView<I>, b: LayoutView<I>) -> bool {
    match a {
        LayoutView::Text { text, node_id, presentation, .. } => b matches LayoutView::Text {
            text: other,
            node_id: node,
            presentation: shown,
            ..
        } && text == other && node_id == node && presentation == shown,
        LayoutView::Block { id, .. } => b matches LayoutView::Block { id: other, .. } && id
            == other,
        LayoutView::AnchoredBlock { id, .. } => b matches LayoutView::AnchoredBlock {
            id: other,
            ..
        } && id == other,
        LayoutView::Trailer => b is Trailer,
    }
}

/// A view that has measured the rows `old`, and replaces the rows `from..to`
/// by `count` rows that it measures, has measured the rows `new`.
pub open spec fn splice_measures<I>(
    old: Seq<LayoutView<I>>,
    new: Seq<LayoutView<I>>,
    from: int,
    to: int,
    count: int,
) -> bool {
    &&& 0 <= from <= to <= old.len()
    &&& 0 <= count
    &&& new.len() == old.len() - (to - from) + count
    &&& forall|i: int| 0 <= i < from ==> measured_alike(#[trigger] old[i], new[i])
    &&& forall|i: int|
        to <= i < old.len() ==> measured_alike(#[trigger] old[i], new[i - (to - from) + count])
}

/// After it has done what it is asked, the view has measured every row.
pub open spec fn view_follows<I>(before: StateView<I>, after: StateView<I>) -> bool {
    ||| after.effects == before.effects && splice_measures(before.items, after.items, 0, 0, 0)
    ||| after.effects.len() == before.effects.len() + 1 && after.effects.drop_last()
        == before.effects && (after.effects.last() matches DocumentEffect::SpliceItems {
        from,
        to,
        count,
    } && splice_measures(before.items, after.items, from as int, to as int, count as int))
}

proof fn lemma_prefix<I>(
    old: Seq<LayoutView<I>>,
    new: Seq<LayoutView<I>>,
    from: int,
    limit: int,
)
    requires
        0 <= from <= old.len(),
        from <= new.len(),
        forall|i: int| 0 <= i < from ==> measured_alike(#[trigger] old[i], new[i]),
    ensures
        from <= shared_prefix(old, new, from, limit) <= old.len(),
        shared_prefix(old, new, from, limit) <= new.len(),
        forall|i: int|
            0 <= i < shared_prefix(old, new, from, limit) ==> measured_alike(
                #[trigger] old[i],
                new[i],
            ),
    decreases limit - from,
{
    if from < limit && from < old.len() && from < new.len() && old[from].same_identity(new[from]) {
        lemma_prefix(old, new, from + 1, limit);
    }
}

proof fn lemma_suffix<I>(
    old: Seq<LayoutView<I>>,
    new: Seq<LayoutView<I>>,
    from: int,
    prefix: int,
)
    requires
        0 <= prefix <= old.len(),
        prefix <= new.len(),
        0 <= from <= old.len() - prefix,
        from <= new.len() - prefix,
        forall|i: int|
            old.len() - from <= i < old.len() ==> measured_alike(
                #[trigger] old[i],
                new[i - old.len() + new.len()],
            ),
    ensures
        from <= shared_suffix(old, new, from, prefix) <= old.len() - prefix,
        shared_suffix(old, new, from, prefix) <= new.len() - prefix,
        forall|i: int|
            old.len() - shared_suffix(old, new, from, prefix) <= i < old.len() ==> measured_alike(
                #[trigger] old[i],
                new[i - old.len() + new.len()],
            ),
    decreases old.len() - prefix - from,
{
    if from < old.len() - prefix && from < new.len() - prefix && old[old.len() - 1
        - from].same_identity(new[new.len() - 1 - from]) {
        assert forall|i: int| old.len() - (from + 1) <= i < old.len() implies measured_alike(
            #[trigger] old[i],
            new[i - old.len() + new.len()],
        ) by {
            if i == old.len() - 1 - from {
                assert(i - old.len() + new.len() == new.len() - 1 - from);
            }
        }
        lemma_suffix(old, new, from + 1, prefix);
    }
}

/// The view replaces every row that has changed: those that it keeps show what
/// they have shown before.
pub proof fn law_views_keep_only_rows_that_stayed<I>(s: StateView<I>, first: int)
    requires
        s.items.len() <= usize::MAX,
        s.next_items().len() <= usize::MAX,
    ensures
        s.reconciled(first).items == s.next_items(),
        view_follows(s, s.reconciled(first)),
{
    let old = s.items;
    let new = s.next_items();
    lemma_prefix(old, new, 0, first);
    let prefix = shared_prefix(old, new, 0, first);
    lemma_suffix(old, new, 0, prefix);
    let suffix = shared_suffix(old, new, 0, prefix);
    let to = old.len() - suffix;
    let count = new.len() - prefix - suffix;
    assert(splice_measures(old, new, prefix, to, count)) by {
        assert forall|i: int| to <= i < old.len() implies measured_alike(
            #[trigger] old[i],
            new[i - (to - prefix) + count],
        ) by {
            assert(i - (to - prefix) + count == i - old.len() + new.len());
        }
    }
    let after = s.reconciled(first);
    if prefix != to || count != 0 {
        assert(after.effects.drop_last() =~= s.effects);
    } else {
        assert(splice_measures(old, new, 0, 0, 0)) by {
            assert forall|i: int| 0 <= i < old.len() implies measured_alike(
                #[trigger] old[i],
                new[i],
            ) by {
                if i >= to {
                    assert(i - (to - prefix) + count == i);
                }
            }
        }
    }
}

/// When the rows of a fragment are replaced, the view replaces those that have
/// changed, and keeps those before and behind the fragment.
pub proof fn law_views_keep_rows_around_fragments<I>(
    s: StateView<I>,
    start: int,
    end: int,
    rows: Seq<LayoutView<I>>,
    source_delta: int,
    display_delta: int,
)
    requires
        0 <= start <= end <= s.items.len(),
        s.items.len() + rows.len() <= usize::MAX,
    ensures
        view_follows(s, s.with_rows(start, end, rows, source_delta, display_delta)),
{
    let gone = s.items.subrange(start, end);
    let behind = s.items.subrange(end, s.items.len() as int);
    let moved = shifted_rows(behind, source_delta, display_delta);
    let old = s.items;
    let new = old.subrange(0, start) + rows + moved;
    lemma_prefix(gone, rows, 0, gone.len() as int);
    let prefix = shared_prefix(gone, rows, 0, gone.len() as int);
    lemma_suffix(gone, rows, 0, prefix);
    let suffix = shared_suffix(gone, rows, 0, prefix);
    let from = start + prefix;
    let to = end - suffix;
    let count = rows.len() - prefix - suffix;
    assert forall|i: int| 0 <= i < from implies measured_alike(#[trigger] old[i], new[i]) by {
        if i >= start {
            assert(old[i] == gone[i - start] && new[i] == rows[i - start]);
        }
    }
    assert forall|i: int| to <= i < old.len() implies measured_alike(
        #[trigger] old[i],
        new[i - (to - from) + count],
    ) by {
        let j = i - (to - from) + count;
        if i < end {
            assert(old[i] == gone[i - start]);
            assert(new[j] == rows[j - start]);
            assert(j - start == (i - start) - gone.len() + rows.len());
        } else {
            assert(new[j] == moved[i - end]);
            assert(moved[i - end] == behind[i - end].shifted(source_delta, display_delta));
            assert(behind[i - end] == old[i]);
        }
    }
    let after = s.with_rows(start, end, rows, source_delta, display_delta);
    assert(after.items == new);
    if from != to || count != 0 {
        assert(after.effects.drop_last() =~= s.effects);
    } else {
        assert(splice_measures(old, new, 0, 0, 0)) by {
            assert forall|i: int| 0 <= i < old.len() implies measured_alike(
                #[trigger] old[i],
                new[i],
            ) by {
                if i >= to {
                    assert(i - (to - from) + count == i);
                }
            }
        }
    }
}

/// With a trailer the last row is the trailer and no other is. Without one
/// there is none.
pub proof fn law_trailers_are_last_rows<I>(s: StateView<I>, enabled: bool)
    requires
        s.items == s.next_items(),
        forall|i: int|
            0 <= i < s.model.layout().len() ==> !(#[trigger] s.model.layout()[i] is Trailer),
    ensures
        ({
            let after = s.with_trailer(enabled);
            &&& after.model == s.model
            &&& enabled ==> after.items.len() > 0 && after.items.last() is Trailer
                && after.items.drop_last() == s.model.layout()
            &&& !enabled ==> after.items == s.model.layout()
            &&& forall|i: int|
                0 <= i < after.items.len() && #[trigger] after.items[i] is Trailer ==> enabled && i
                    == after.items.len() - 1
        }),
{
    let after = s.with_trailer(enabled);
    let layout = s.model.layout();
    if enabled {
        assert(layout.push(LayoutView::Trailer).drop_last() =~= layout);
    }
    assert forall|i: int|
        0 <= i < after.items.len() && #[trigger] after.items[i] is Trailer implies enabled && i
        == after.items.len() - 1 by {
        if i < layout.len() {
            assert(after.items[i] == layout[i]);
        }
    }
}

/// A reset shows the snapshot: its text, its projection and its rows, each of
/// which the view measures anew.
pub proof fn law_resets_show_the_snapshot<I>(s: StateView<I>, snapshot: SnapshotView<I>)
    requires
        s.was_reset(snapshot).items.len() <= usize::MAX,
    ensures
        ({
            let after = s.was_reset(snapshot);
            &&& after.model.bytes == snapshot.text
            &&& after.model.projection == snapshot.projection
            &&& after.model.anchored == snapshot.anchored
            &&& after.model.styles == snapshot.styles
            &&& forall|r: DocumentRegion<I>| #[trigger]
                after.model.regions.contains(r) <==> snapshot.regions.contains(r)
            &&& after.items == after.next_items()
            &&& after.effects.contains(DocumentEffect::ResetItems(after.items.len() as usize))
            &&& after.trailer == s.trailer
        }),
{
    lemma_sort_members(snapshot.regions);
    let after = s.was_reset(snapshot);
    let at = s.effects.len() as int + 2;
    law_rows_depend_on_what_is_shown(
        ModelView { revision: s.model.revision.spec_next(), ..StateView::snapshot_model(snapshot) },
        after.model,
    );
    assert(after.effects[at] == DocumentEffect::<I>::ResetItems(after.items.len() as usize));
}

/// A new presentation is what is shown from then on, of the same text.
pub proof fn law_presentations_are_shown<I>(
    s: StateView<I>,
    projection: ProjectionView,
    blocks: Seq<DocumentBlock<I>>,
    anchored: Seq<AnchoredBlock<I>>,
    styles: StylesView,
)
    ensures
        ({
            let after = s.presented(projection, blocks, anchored, styles);
            &&& after.model.bytes == s.model.bytes
            &&& after.model.regions == s.model.regions
            &&& after.model.revision == s.model.revision
            &&& after.model.selection == s.model.selection
            &&& after.model.anchors == s.model.anchors
            &&& after.undo == s.undo
            &&& after.model.projection == projection
            &&& after.model.anchored == anchored
            &&& after.model.styles == styles
            &&& forall|b: DocumentBlock<I>| #[trigger]
                after.model.blocks.contains(b) <==> blocks.contains(b)
            &&& after.items == after.next_items()
        }),
{
    lemma_sort_members(blocks);
}

} // verus!
