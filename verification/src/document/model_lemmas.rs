//! What edits do to the parts of a document.

use crate::document::anchors::AnchorRecord;
use crate::document::model_view::{anchors_edited, anchors_reconciled, reconciled_record, ModelView};
use crate::document::mapping::lemma_shifted_mapping_valid;
use crate::document::position::{moved_offset, DocumentAnchor};
use crate::document::projection::{
    entry_valid, mapping_valid, shifted_mapping, ProjectionView, SpanView,
};
use crate::document::region::{
    region_index_of, regions_on_boundaries, regions_valid, DocumentRegion, EditPolicy,
};
use crate::document::transaction::{
    applicable, carried, edited, edits_conflict, edits_fit, edits_inside, edits_on_boundaries,
    inserted_len, lemma_edited, lemma_edited_before, lemma_edited_behind, lemma_net_growth_within,
    net_growth, TextEdit,
};
use crate::document::validate::{lemma_projection_fits, touches_editable};
use crate::order::{in_rank_order, lemma_sort_keeps_ordered, rank_less, stable_sort, Ranked};
use crate::text::{at_boundary, lemma_encoded, lemma_splice_boundaries, starts_clean};
use vstd::prelude::*;

verus! {

/// The front of applicable edits is applicable.
pub proof fn lemma_front_applicable(edits: Seq<TextEdit>)
    requires
        applicable(edits),
        edits.len() > 0,
    ensures
        applicable(edits.drop_last()),
        edits_inside(
            edits.drop_last(),
            edits.last().end(),
            if edits.len() == 1 {
                edits.last().end()
            } else {
                edits[0].end()
            },
        ),
{
    let front = edits.drop_last();
    assert(edits[edits.len() - 1] == edits.last());
    assert forall|i: int, j: int|
        #![trigger front[i], front[j]]
        0 <= i < j < front.len() implies !edits_conflict(front[i], front[j]) by {
        assert(front[i] == edits[i] && front[j] == edits[j]);
    }
    assert forall|i: int| 0 <= i < front.len() implies edits.last().end() <= (
    #[trigger] front[i]).start() && front[i].end() <= edits[0].end() by {
        assert(front[i] == edits[i]);
        assert(!edits_conflict(edits[i], edits[edits.len() - 1]));
        if i > 0 {
            assert(!edits_conflict(edits[0], edits[i]));
        }
    }
    assert forall|i: int| 0 <= i < front.len() implies (#[trigger] front[i]).start()
        <= front[i].end() by {
        assert(front[i] == edits[i]);
    }
}

/// A range before all edits stays, one behind them moves by what they add.
pub proof fn lemma_carried(range: (int, int), edits: Seq<TextEdit>, start: int, end: int, len: int)
    requires
        applicable(edits),
        edits_inside(edits, start, end),
        start <= end <= len,
        edits_fit(len, edits),
        0 <= range.0 < range.1 <= len,
    ensures
        range.1 <= start ==> carried(range, edits) == range,
        range.0 >= end ==> carried(range, edits) == (
            range.0 + net_growth(edits),
            range.1 + net_growth(edits),
        ),
    decreases edits.len(),
{
    if edits.len() > 0 {
        let front = edits.drop_last();
        let last = edits.last();
        assert(edits[edits.len() - 1] == last);
        lemma_front_applicable(edits);
        assert(edits_inside(front, start, end)) by {
            assert forall|i: int| 0 <= i < front.len() implies start <= (
            #[trigger] front[i]).start() && front[i].end() <= end by {
                assert(front[i] == edits[i]);
            }
        }
        lemma_carried(range, front, start, end, len);
        if range.0 >= end {
            assert(edits_inside(front, last.end(), end)) by {
                assert forall|i: int| 0 <= i < front.len() implies last.end() <= (
                #[trigger] front[i]).start() && front[i].end() <= end by {
                    assert(front[i] == edits[i]);
                    assert(!edits_conflict(edits[i], edits[edits.len() - 1]));
                }
            }
            lemma_net_growth_within(front, last.end(), end);
            let at = carried(range, front);
            assert(at.0 >= last.end());
        }
    }
}

/// A span on one side of all edits stays or moves as a whole.
pub proof fn lemma_carried_span(
    span: SpanView,
    edits: Seq<TextEdit>,
    start: int,
    end: int,
    len: int,
)
    requires
        applicable(edits),
        edits_inside(edits, start, end),
        0 <= start <= end <= len,
        edits_fit(len, edits),
        0 <= span.start < span.end <= len,
        mapping_valid(span),
    ensures
        span.end <= start ==> span.carried(edits) == span,
        span.start >= end ==> span.carried(edits) == span.shifted(net_growth(edits)),
{
    lemma_carried((span.start, span.end), edits, start, end, len);
    lemma_net_growth_within(edits, start, end);
    if let Some(entries) = span.mapping {
        let moved = span.carried(edits).mapping->0;
        let shifted = shifted_mapping(span.mapping, net_growth(edits))->0;
        assert forall|i: int| 0 <= i < entries.len() implies (span.end <= start ==> moved[i]
            == entries[i]) && (span.start >= end ==> moved[i] == shifted[i]) by {
            assert(entry_valid(entries, span, i));
            lemma_carried(entries[i].spec_source(), edits, start, end, len);
        }
        if span.end <= start {
            assert(moved =~= entries);
        }
        if span.start >= end {
            assert(moved =~= shifted);
        }
    }
}

/// A projection whose spans reach into no edited text stays valid.
pub proof fn lemma_carried_projection(
    p: ProjectionView,
    edits: Seq<TextEdit>,
    start: int,
    end: int,
)
    requires
        p.valid(),
        applicable(edits),
        edits_inside(edits, start, end),
        0 <= start <= end <= p.source_len,
        edits_fit(p.source_len, edits),
        forall|i: int|
            0 <= i < p.spans.len() ==> (#[trigger] p.spans[i]).end <= start || p.spans[i].start
                >= end,
    ensures
        p.carried(edits, p.source_len + net_growth(edits)).valid(),
        forall|i: int|
            0 <= i < p.spans.len() ==> p.carried(edits, p.source_len + net_growth(edits)).spans[i]
                == (if (#[trigger] p.spans[i]).end <= start {
                p.spans[i]
            } else {
                p.spans[i].shifted(net_growth(edits))
            }),
{
    let g = net_growth(edits);
    let q = p.carried(edits, p.source_len + g);
    lemma_net_growth_within(edits, start, end);
    assert forall|i: int| 0 <= i < p.spans.len() implies q.spans[i] == (if (
    #[trigger] p.spans[i]).end <= start {
        p.spans[i]
    } else {
        p.spans[i].shifted(g)
    }) by {
        lemma_carried_span(p.spans[i], edits, start, end, p.source_len);
    }
    assert forall|i: int| 0 <= i < q.spans.len() implies 0 <= (#[trigger] q.spans[i]).start
        < q.spans[i].end <= q.source_len && mapping_valid(q.spans[i]) && starts_clean(
        q.spans[i].replacement,
    ) by {
        let s = p.spans[i];
        assert(0 <= s.start < s.end <= p.source_len);
        if s.end <= start {
            assert(s.end <= p.source_len + g);
        } else {
            lemma_shifted_mapping_valid(s, g);
        }
    }
    assert forall|i: int, j: int|
        #![trigger q.spans[i], q.spans[j]]
        0 <= i < j < q.spans.len() implies q.spans[i].end <= q.spans[j].start by {
        let a = p.spans[i];
        let b = p.spans[j];
        assert(a.end <= b.start);
        assert(a.start < a.end && b.start < b.end);
        if a.end > start {
            lemma_shifted_mapping_valid(a, g);
        }
        if b.end > start {
            lemma_shifted_mapping_valid(b, g);
        }
    }
}

/// Edits keep anchors between characters.
pub proof fn lemma_anchors_edited<I>(
    bytes: Seq<u8>,
    anchors: Map<DocumentAnchor, AnchorRecord<I>>,
    edits: Seq<TextEdit>,
)
    requires
        applicable(edits),
        edits_on_boundaries(edits, bytes),
        starts_clean(bytes),
        edits_fit(bytes.len() as int, edits),
        forall|a: DocumentAnchor| #[trigger]
            anchors.dom().contains(a) ==> at_boundary(bytes, anchors[a].spec_offset()),
    ensures
        anchors_edited(anchors, edits).dom() == anchors.dom(),
        forall|a: DocumentAnchor| #[trigger]
            anchors.dom().contains(a) ==> {
                let r = anchors_edited(anchors, edits)[a];
                &&& at_boundary(edited(bytes, edits), r.spec_offset())
                &&& r.spec_node_id() == anchors[a].spec_node_id()
                &&& r.spec_bias() == anchors[a].spec_bias()
                &&& r.spec_affinity() == anchors[a].spec_affinity()
            },
    decreases edits.len(),
{
    if edits.len() > 0 {
        let front = edits.drop_last();
        let last = edits.last();
        assert(edits[edits.len() - 1] == last);
        lemma_front_applicable(edits);
        assert(edits_on_boundaries(front, bytes)) by {
            assert forall|i: int| 0 <= i < front.len() implies {
                &&& (#[trigger] front[i]).start() <= front[i].end() <= bytes.len()
                &&& at_boundary(bytes, front[i].start())
                &&& at_boundary(bytes, front[i].end())
            } by {
                assert(front[i] == edits[i]);
            }
        }
        lemma_anchors_edited(bytes, anchors, front);
        lemma_edited(bytes, front);
        let before = edited(bytes, front);
        let mid = anchors_edited(anchors, front);
        let after = anchors_edited(anchors, edits);
        lemma_encoded(last.replacement@);
        if front.len() > 0 {
            assert(front[front.len() - 1] == edits[front.len() - 1]);
            assert(!edits_conflict(edits[front.len() - 1], edits[edits.len() - 1]));
            assert(at_boundary(before, last.start()) && at_boundary(before, last.end()));
        }
        lemma_splice_boundaries(before, last.start(), last.end(), last.bytes());
        let n = last.bytes().len() as int;
        assert(after.dom() =~= anchors.dom());
        assert(inserted_len(edits) == inserted_len(front) + n);
        assert forall|a: DocumentAnchor| #[trigger] anchors.dom().contains(a) implies {
            let r = after[a];
            &&& at_boundary(edited(bytes, edits), r.spec_offset())
            &&& r.spec_node_id() == anchors[a].spec_node_id()
            &&& r.spec_bias() == anchors[a].spec_bias()
            &&& r.spec_affinity() == anchors[a].spec_affinity()
        } by {
            let r = mid[a];
            assert(mid.dom().contains(a));
            let at = r.spec_offset();
            assert(at_boundary(before, at));
            let to = moved_offset(at, r.spec_bias(), last.start(), last.end(), n);
            let out = edited(bytes, edits);
            if at < last.start() {
                assert(at_boundary(out, at));
            } else if at >= last.end() && (at > last.start() || last.start() < last.end()) {
                assert(at_boundary(out, at - (last.end() - last.start()) + n));
            } else {
                assert(at_boundary(out, last.start()));
                assert(at_boundary(out, last.start() + n)) by {
                    assert(at_boundary(last.bytes(), n));
                }
            }
            assert(at_boundary(out, to));
        }
    } else {
        assert(anchors_edited(anchors, edits).dom() =~= anchors.dom());
    }
}

/// Putting anchors back into their nodes keeps them between characters.
pub proof fn lemma_anchors_reconciled<I>(
    bytes: Seq<u8>,
    anchors: Map<DocumentAnchor, AnchorRecord<I>>,
    regions: Seq<DocumentRegion<I>>,
)
    requires
        regions_valid(regions, bytes.len() as int),
        regions_on_boundaries(regions, bytes),
        bytes.len() <= isize::MAX,
        forall|a: DocumentAnchor| #[trigger]
            anchors.dom().contains(a) ==> at_boundary(bytes, anchors[a].spec_offset()),
    ensures
        anchors_reconciled(anchors, regions).dom() == anchors.dom(),
        forall|a: DocumentAnchor| #[trigger]
            anchors.dom().contains(a) ==> at_boundary(
                bytes,
                anchors_reconciled(anchors, regions)[a].spec_offset(),
            ),
{
    let after = anchors_reconciled(anchors, regions);
    assert(after.dom() =~= anchors.dom());
    assert forall|a: DocumentAnchor| #[trigger] anchors.dom().contains(a) implies at_boundary(
        bytes,
        after[a].spec_offset(),
    ) by {
        let record = anchors[a];
        assert(after[a] == reconciled_record(record, regions));
        if let Some(id) = record.spec_node_id() {
            if let Some(at) = region_index_of(regions, id) {
                assert(0 <= at < regions.len());
                assert(at_boundary(bytes, regions[at].start()));
                assert(at_boundary(bytes, regions[at].end()));
            }
        }
    }
}

/// Regions, one of which grows by what edits in it add, keep their order and
/// their edges between characters.
pub proof fn lemma_regions_grown<I>(m: ModelView<I>, target: int, edits: Seq<TextEdit>)
    requires
        m.wf(),
        0 <= target < m.regions.len(),
        applicable(edits),
        edits_on_boundaries(edits, m.bytes),
        edits_inside(edits, m.regions[target].start(), m.regions[target].end()),
        edits_fit(m.bytes.len() as int, edits),
    ensures
        ({
            let grown = m.regions_grown(target, net_growth(edits));
            let bytes = edited(m.bytes, edits);
            &&& bytes.len() == m.bytes.len() + net_growth(edits)
            &&& bytes.len() <= isize::MAX
            &&& starts_clean(bytes)
            &&& grown.len() == m.regions.len()
            &&& stable_sort(grown) == grown
            &&& regions_valid(grown, bytes.len() as int)
            &&& regions_on_boundaries(grown, bytes)
            &&& forall|i: int|
                0 <= i < grown.len() ==> {
                    let r = m.regions[i];
                    &&& (#[trigger] grown[i]).spec_id() == r.spec_id()
                    &&& grown[i].spec_policy() == r.spec_policy()
                    &&& grown[i].start() == (if i <= target {
                        r.start()
                    } else {
                        r.start() + net_growth(edits)
                    })
                    &&& grown[i].end() == (if i < target {
                        r.end()
                    } else {
                        r.end() + net_growth(edits)
                    })
                }
        }),
{
    let g = net_growth(edits);
    let grown = m.regions_grown(target, g);
    let bytes = edited(m.bytes, edits);
    let t = m.regions[target];
    lemma_edited(m.bytes, edits);
    assert(t.start() <= t.end() <= m.bytes.len());
    lemma_net_growth_within(edits, t.start(), t.end());
    assert forall|i: int| 0 <= i < grown.len() implies {
        let r = m.regions[i];
        &&& (#[trigger] grown[i]).spec_id() == r.spec_id()
        &&& grown[i].spec_policy() == r.spec_policy()
        &&& grown[i].start() == (if i <= target {
            r.start()
        } else {
            r.start() + g
        })
        &&& grown[i].end() == (if i < target {
            r.end()
        } else {
            r.end() + g
        })
        &&& grown[i].start() <= grown[i].end() <= bytes.len()
        &&& at_boundary(bytes, grown[i].start())
        &&& at_boundary(bytes, grown[i].end())
    } by {
        let r = m.regions[i];
        assert(r.start() <= r.end() <= m.bytes.len());
        assert(at_boundary(m.bytes, r.start()) && at_boundary(m.bytes, r.end()));
        if i > target {
            assert(t.end() <= r.start());
        }
        if i < target {
            assert(r.end() <= t.start());
        }
        if i <= target {
            assert forall|k: int| 0 <= k < edits.len() implies r.start() <= (
            #[trigger] edits[k]).start() by {}
            lemma_edited_before(m.bytes, edits, r.start());
            if i < target {
                assert forall|k: int| 0 <= k < edits.len() implies r.end() <= (
                #[trigger] edits[k]).start() by {}
                lemma_edited_before(m.bytes, edits, r.end());
            }
        } else {
            assert(edits_inside(edits, 0, r.start())) by {
                assert forall|k: int| 0 <= k < edits.len() implies 0 <= (
                #[trigger] edits[k]).start() && edits[k].end() <= r.start() by {}
            }
            lemma_edited_behind(m.bytes, edits, r.start());
        }
        if i >= target {
            assert(edits_inside(edits, 0, r.end())) by {
                assert forall|k: int| 0 <= k < edits.len() implies 0 <= (
                #[trigger] edits[k]).start() && edits[k].end() <= r.end() by {}
            }
            lemma_edited_behind(m.bytes, edits, r.end());
        }
    }
    assert forall|i: int, j: int|
        #![trigger grown[i], grown[j]]
        0 <= i < j < grown.len() implies grown[i].end() <= grown[j].start() && grown[i].spec_id()
        != grown[j].spec_id() by {
        assert(m.regions[i].end() <= m.regions[j].start());
        assert(m.regions[i].spec_id() != m.regions[j].spec_id());
    }
    assert(in_rank_order(grown)) by {
        assert forall|i: int, j: int| 0 <= i < j < grown.len() implies !rank_less(
            #[trigger] grown[j].rank(),
            #[trigger] grown[i].rank(),
        ) by {
            assert(grown[i].end() <= grown[j].start());
            assert(grown[i].start() <= grown[i].end());
            assert(grown[j].start() <= grown[j].end());
        }
    }
    lemma_sort_keeps_ordered(grown);
}

/// The projection reaches into no editable region.
pub proof fn lemma_spans_spare<I>(m: ModelView<I>, target: int)
    requires
        m.wf(),
        0 <= target < m.regions.len(),
        m.regions[target].spec_policy() == EditPolicy::Editable,
    ensures
        forall|i: int|
            0 <= i < m.projection.spans.len() ==> (#[trigger] m.projection.spans[i]).end
                <= m.regions[target].start() || m.projection.spans[i].start
                >= m.regions[target].end(),
{
    lemma_projection_fits(m.projection, m.regions, m.bytes);
    assert forall|i: int| 0 <= i < m.projection.spans.len() implies (
    #[trigger] m.projection.spans[i]).end <= m.regions[target].start()
        || m.projection.spans[i].start >= m.regions[target].end() by {
        assert(!touches_editable(m.projection.spans[i], m.regions));
    }
}

/// Edits in an editable region that are not rejected lead to a valid
/// document.
pub proof fn lemma_edited_in_wf<I>(m: ModelView<I>, target: int, edits: Seq<TextEdit>)
    requires
        m.wf(),
        0 <= target < m.regions.len(),
        m.regions[target].spec_policy() == EditPolicy::Editable,
        applicable(edits),
        edits_on_boundaries(edits, m.bytes),
        edits_inside(edits, m.regions[target].start(), m.regions[target].end()),
        edits_fit(m.bytes.len() as int, edits),
        m.edit_rejection(target, edits) is None,
    ensures
        m.edited_in(target, edits).wf(),
{
    let next = m.edited_in(target, edits);
    let t = m.regions[target];
    lemma_regions_grown(m, target, edits);
    lemma_spans_spare(m, target);
    lemma_carried_projection(m.projection, edits, t.start(), t.end());
    lemma_anchors_edited(m.bytes, m.anchors, edits);
    lemma_anchors_reconciled(next.bytes, anchors_edited(m.anchors, edits), next.regions);
    assert(next.anchors.dom() == m.anchors.dom());
}

} // verus!
