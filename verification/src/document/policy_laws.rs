//! What becomes of an edit in a region of each policy.

use crate::document::edit_laws::{edits_of, law_only_rows_and_styles_refuse_edits};
use crate::document::laws::lemma_routed_edits;
use crate::document::model_edit::lemma_anchor_position;
use crate::document::model_view::{edit_on_boundaries, region_at, ModelView};
use crate::document::outcome::{DocumentEditRejection, RoutingOutcome};
use crate::document::region::{
    lemma_regions_faultless, lemma_regions_valid, region_index_of, regions_fault, regions_valid,
    DocumentRegion, EditPolicy,
};
use crate::document::state_view::StateView;
use crate::document::transaction::{
    edits_fit, EditDecision, EditOrigin, EditTransaction, TextEdit,
};
use crate::order::{
    lemma_sort_keeps_ordered, lemma_sort_members, rank_less, stable_sort, Ranked,
};
use crate::scan::{lemma_first_where, lemma_last_where};
use vstd::prelude::*;

verus! {

/// An edit that belongs to one region and to no other: it replaces text of the
/// region, or inserts between two of its bytes.
pub open spec fn edit_is_in<I>(m: ModelView<I>, edit: TextEdit, r: int) -> bool {
    &&& 0 <= r < m.regions.len()
    &&& m.regions[r].start() <= edit.start() <= edit.end() <= m.regions[r].end()
    &&& edit.start() == edit.end() ==> m.regions[r].start() < edit.start()
        < m.regions[r].end()
}

/// Only one region holds such an edit.
proof fn lemma_one_region<I>(m: ModelView<I>, edit: TextEdit, r: int, other: int)
    requires
        m.wf(),
        edit_is_in(m, edit, r),
        0 <= other < m.regions.len(),
        m.regions[other].start() <= edit.start() <= edit.end() <= m.regions[other].end(),
    ensures
        other == r,
{
    if other < r {
        assert(m.regions[other].end() <= m.regions[r].start());
    } else if r < other {
        assert(m.regions[r].end() <= m.regions[other].start());
    }
}

proof fn lemma_edit_region<I>(m: ModelView<I>, edit: TextEdit, r: int)
    requires
        m.wf(),
        edit_is_in(m, edit, r),
    ensures
        m.region_for_edit(edit, None) == Some(r),
{
    let start = edit.start();
    let end = edit.end();
    if start >= end {
        let head = m.selection.spec_head();
        assert(m.is_live(head));
        lemma_anchor_position(m, head);
        if start == m.cursor() && m.position_for_anchor(head) is Ok && region_index_of(
            m.regions,
            m.position_for_anchor(head)->Ok_0.spec_node_id(),
        ) is Some {
            let at = region_index_of(
                m.regions,
                m.position_for_anchor(head)->Ok_0.spec_node_id(),
            )->0;
            lemma_one_region(m, edit, r, at);
        } else {
            let test = region_at::<I>(start);
            lemma_last_where(m.regions, test, m.regions.len() as int);
            assert(test(m.regions[r]));
            let at = m.insertion_region(start)->0;
            assert(test(m.regions[at]));
            lemma_one_region(m, edit, r, at);
        }
    } else {
        let test = |x: DocumentRegion<I>| x.start() <= start && end <= x.end();
        lemma_first_where(m.regions, test, 0);
        assert(test(m.regions[r]));
        let at = m.region_for_range(start, end)->0;
        assert(test(m.regions[at]));
        lemma_one_region(m, edit, r, at);
    }
}

/// The policy of a region decides what becomes of an edit in it: text that is
/// only to be read and atomic text refuse it, a routed region hands it to the
/// host under its own id, and editable text takes it. In editable text only
/// anchored blocks and styles can refuse it.
pub proof fn law_policies_decide_over_edits<I>(
    m: ModelView<I>,
    transaction: EditTransaction,
    r: int,
)
    requires
        m.wf(),
        transaction.wf(),
        transaction.spec_revision() == m.revision,
        transaction.spec_edits().len() == 1,
        edit_on_boundaries(transaction.spec_edits()[0], m.bytes),
        edit_is_in(m, transaction.spec_edits()[0], r),
        edits_fit(m.bytes.len() as int, transaction.spec_edits()),
    ensures
        match m.regions[r].spec_policy() {
            EditPolicy::Readonly => m.routing(transaction, None) == RoutingOutcome::<I>::Rejected(
                DocumentEditRejection::Readonly,
            ),
            EditPolicy::Atomic => m.routing(transaction, None) == RoutingOutcome::<I>::Rejected(
                DocumentEditRejection::Atomic,
            ),
            EditPolicy::Routed => m.routing(transaction, None) == RoutingOutcome::<I>::Routed(
                m.regions[r].spec_id(),
            ),
            EditPolicy::Editable => {
                &&& !(m.routing(transaction, None) is Routed)
                &&& m.anchored.len() == 0 && m.styles.is_empty() ==> m.routing(transaction, None)
                    == RoutingOutcome::<I>::Applied
            },
        },
{
    let edits = transaction.spec_edits();
    lemma_edit_region(m, edits[0], r);
    assert(edits.last() == edits[0]);
    assert(m.target_region(edits, None) == Ok::<int, DocumentEditRejection>(r));
    assert(m.transaction_rejection(transaction) is None);
    lemma_routed_edits(m, transaction, None);
    if m.regions[r].spec_policy() == EditPolicy::Editable && m.anchored.len() == 0
        && m.styles.is_empty() {
        assert(edits_of(m, r, edits));
        law_only_rows_and_styles_refuse_edits(m, r, edits);
        let next = m.edited_in(r, edits);
        assert(next.anchored.len() == 0);
        assert(next.styles.paragraphs.len() == 0 && next.styles.inline.len() == 0);
    }
}

/// An edit of the user in a region is decided by the policy of the region too.
pub proof fn law_users_edit_what_policies_allow<I>(
    s: StateView<I>,
    transaction: EditTransaction,
    r: int,
)
    requires
        s.wf(),
        transaction.wf(),
        transaction.spec_revision() == s.model.revision,
        transaction.spec_edits().len() == 1,
        edit_on_boundaries(transaction.spec_edits()[0], s.model.bytes),
        edit_is_in(s.model, transaction.spec_edits()[0], r),
        edits_fit(s.model.bytes.len() as int, transaction.spec_edits()),
        transaction.spec_origin() == EditOrigin::User || transaction.spec_origin()
            == EditOrigin::Paste || transaction.spec_origin() == EditOrigin::Composition,
    ensures
        match s.model.regions[r].spec_policy() {
            EditPolicy::Readonly => s.decision(transaction) == EditDecision::<I>::Reject,
            EditPolicy::Atomic => s.decision(transaction) == EditDecision::<I>::Reject,
            EditPolicy::Routed => s.decision(transaction) == EditDecision::<I>::Route(
                s.model.regions[r].spec_id(),
            ),
            EditPolicy::Editable => s.model.anchored.len() == 0 && s.model.styles.is_empty()
                ==> s.decision(transaction) == EditDecision::<I>::Apply,
        },
{
    law_policies_decide_over_edits(s.model, transaction, r);
}

// ---------------------------------------------------------------------------
// Which regions a document can have
// ---------------------------------------------------------------------------

/// Regions in the order of the source, each in bounds and with an id of its
/// own, none over another, make a document.
pub proof fn law_valid_regions_are_accepted<I>(regions: Seq<DocumentRegion<I>>, source_len: usize)
    requires
        regions_valid(regions, source_len as int),
    ensures
        regions_fault(regions, source_len) is None,
{
    assert forall|i: int, j: int|
        #![trigger regions[i], regions[j]]
        0 <= i < j < regions.len() implies !rank_less(regions[j].rank(), regions[i].rank()) by {
        assert(regions[i].start() <= regions[i].end());
        assert(regions[j].start() <= regions[j].end());
        assert(regions[i].end() <= regions[j].start());
    }
    lemma_sort_keeps_ordered(regions);
    lemma_regions_faultless(regions, source_len);
}

/// Regions that make a document are all in it, in the order of the source:
/// each in bounds and with an id of its own, none over another.
pub proof fn law_accepted_regions_are_valid<I>(regions: Seq<DocumentRegion<I>>, source_len: usize)
    requires
        regions_fault(regions, source_len) is None,
    ensures
        regions_valid(stable_sort(regions), source_len as int),
        forall|r: DocumentRegion<I>| #[trigger]
            stable_sort(regions).contains(r) <==> regions.contains(r),
{
    lemma_regions_valid(regions, source_len);
    lemma_sort_members(regions);
}

} // verus!
