//! What holds of a document whatever is done to it.

use crate::document::model_edit::lemma_target_region;
use crate::document::model_lemmas::lemma_regions_grown;
use crate::document::model_view::{edit_on_boundaries, ModelView};
use crate::document::outcome::{DocumentEditRejection, RoutingOutcome};
use crate::document::region::{lemma_regions_faultless, EditPolicy};
use crate::document::state_view::StateView;
use crate::document::transaction::{
    applicable, edited, edits_fit, edits_inside, edits_on_boundaries, lemma_edited_before,
    lemma_edited_behind, net_growth, EditDecision, EditTransaction, TextEdit,
};
use vstd::prelude::*;

verus! {

// ---------------------------------------------------------------------------
// Edits of the user
// ---------------------------------------------------------------------------

/// A transaction that is rejected or routed changes nothing: its fate is told,
/// and the text, the regions, the selection, the composition, the rows, the
/// scrolling and the undo records all stay.
pub proof fn law_declined_edits_change_nothing<I>(
    s: StateView<I>,
    transaction: EditTransaction,
    composition: Option<(int, int)>,
    after: StateView<I>,
)
    requires
        s.committed(transaction, composition, after),
        s.decision(transaction) != EditDecision::<I>::Apply,
    ensures
        after == (StateView { effects: after.effects, ..s }),
        after.effects.len() == s.effects.len() + 1,
        after.effects.drop_last() == s.effects,
        after.effects.last() is Emit,
{
    assert(after.effects.drop_last() =~= s.effects);
}

/// An edit in one region leaves every other region its id, its policy and its
/// text.
pub proof fn law_edits_change_only_their_region<I>(
    m: ModelView<I>,
    transaction: EditTransaction,
    node: Option<I>,
    r: int,
)
    requires
        m.wf(),
        transaction.wf(),
        edits_fit(m.bytes.len() as int, transaction.spec_edits()),
        m.routing(transaction, node) == RoutingOutcome::<I>::Applied,
        0 <= r < m.regions.len(),
        m.target_region(transaction.spec_edits(), node)->Ok_0 != r,
    ensures
        ({
            let next = m.routed(transaction, node);
            &&& next.regions.len() == m.regions.len()
            &&& next.regions[r].spec_id() == m.regions[r].spec_id()
            &&& next.regions[r].spec_policy() == m.regions[r].spec_policy()
            &&& next.bytes.subrange(next.regions[r].start(), next.regions[r].end())
                == m.bytes.subrange(m.regions[r].start(), m.regions[r].end())
        }),
{
    let edits = transaction.spec_edits();
    let target = m.target_region(edits, node)->Ok_0;
    lemma_routed_edits(m, transaction, node);
    lemma_regions_grown(m, target, edits);
    let next = m.routed(transaction, node);
    assert(next.regions[r] == m.regions_grown(target, net_growth(edits))[r]);
    lemma_other_text(m, target, edits, r);
}

/// Edits in one region leave the text of another alone, wherever it goes.
proof fn lemma_other_text<I>(m: ModelView<I>, target: int, edits: Seq<TextEdit>, r: int)
    requires
        m.wf(),
        0 <= target < m.regions.len(),
        applicable(edits),
        edits_on_boundaries(edits, m.bytes),
        edits_inside(edits, m.regions[target].start(), m.regions[target].end()),
        edits_inside(edits, 0, m.regions[target].end()),
        0 <= r < m.regions.len(),
        r != target,
    ensures
        ({
            let growth = if r < target {
                0
            } else {
                net_growth(edits)
            };
            edited(m.bytes, edits).subrange(
                m.regions[r].start() + growth,
                m.regions[r].end() + growth,
            ) == m.bytes.subrange(m.regions[r].start(), m.regions[r].end())
        }),
{
    let region = m.regions[target];
    let other = m.regions[r];
    let after = edited(m.bytes, edits);
    assert(region.start() <= region.end() <= m.bytes.len());
    assert(other.start() <= other.end() <= m.bytes.len());
    if r < target {
        assert(other.end() <= region.start());
        lemma_edited_before(m.bytes, edits, region.start());
        lemma_same_part(after, m.bytes, region.start(), other.start(), other.end());
    } else {
        let growth = net_growth(edits);
        assert(region.end() <= other.start());
        lemma_edited_behind(m.bytes, edits, region.end());
        assert(after.subrange(region.end() + growth, after.len() as int).len() == m.bytes.len()
            - region.end());
        lemma_same_rest(
            after,
            m.bytes,
            region.end() + growth,
            region.end(),
            other.start() - region.end(),
            other.end() - region.end(),
        );
    }
}

pub(crate) proof fn lemma_same_part(a: Seq<u8>, b: Seq<u8>, to: int, i: int, j: int)
    requires
        0 <= i <= j <= to <= a.len(),
        to <= b.len(),
        a.subrange(0, to) == b.subrange(0, to),
    ensures
        a.subrange(i, j) == b.subrange(i, j),
{
    assert(a.subrange(i, j) =~= a.subrange(0, to).subrange(i, j));
    assert(b.subrange(i, j) =~= b.subrange(0, to).subrange(i, j));
}

pub(crate) proof fn lemma_same_rest(a: Seq<u8>, b: Seq<u8>, x: int, y: int, i: int, j: int)
    requires
        0 <= x <= a.len(),
        0 <= y <= b.len(),
        0 <= i <= j <= a.len() - x,
        a.subrange(x, a.len() as int) == b.subrange(y, b.len() as int),
    ensures
        a.subrange(x + i, x + j) == b.subrange(y + i, y + j),
{
    assert(a.subrange(x, a.len() as int).len() == a.len() - x);
    assert(b.subrange(y, b.len() as int).len() == b.len() - y);
    assert(a.subrange(x + i, x + j) =~= a.subrange(x, a.len() as int).subrange(i, j));
    assert(b.subrange(y + i, y + j) =~= b.subrange(y, b.len() as int).subrange(i, j));
}

/// The edits of a transaction that was applied lie in its target.
pub(crate) proof fn lemma_routed_edits<I>(m: ModelView<I>, transaction: EditTransaction, node: Option<I>)
    requires
        m.wf(),
        transaction.wf(),
        m.transaction_rejection(transaction) is None,
        m.target_region(transaction.spec_edits(), node) is Ok,
    ensures
        ({
            let edits = transaction.spec_edits();
            let target = m.target_region(edits, node)->Ok_0;
            &&& 0 <= target < m.regions.len()
            &&& applicable(edits)
            &&& edits_on_boundaries(edits, m.bytes)
            &&& edits_inside(edits, m.regions[target].start(), m.regions[target].end())
            &&& edits_inside(edits, 0, m.regions[target].end())
        }),
{
    let edits = transaction.spec_edits();
    lemma_target_region(m, edits, node);
    assert forall|i: int| 0 <= i < edits.len() implies edit_on_boundaries(
        #[trigger] edits[i],
        m.bytes,
    ) by {}
}

/// Text is edited only where that is allowed: a transaction that is applied
/// lies in one editable region.
pub proof fn law_only_editable_text_is_edited<I>(
    m: ModelView<I>,
    transaction: EditTransaction,
    node: Option<I>,
)
    requires
        m.wf(),
        transaction.wf(),
        m.routing(transaction, node) == RoutingOutcome::<I>::Applied,
    ensures
        exists|r: int|
            0 <= r < m.regions.len() && (#[trigger] m.regions[r]).spec_policy()
                == EditPolicy::Editable && edits_inside(
                transaction.spec_edits(),
                m.regions[r].start(),
                m.regions[r].end(),
            ),
{
    lemma_routed_edits(m, transaction, node);
    let r = m.target_region(transaction.spec_edits(), node)->Ok_0;
    assert(m.regions[r].spec_policy() == EditPolicy::Editable);
}

/// A transaction that no one region holds is rejected as a whole.
pub proof fn law_edits_across_regions_are_rejected<I>(
    m: ModelView<I>,
    transaction: EditTransaction,
    node: Option<I>,
)
    requires
        m.wf(),
        transaction.wf(),
        forall|r: int|
            0 <= r < m.regions.len() ==> !edits_inside(
                transaction.spec_edits(),
                (#[trigger] m.regions[r]).start(),
                m.regions[r].end(),
            ),
    ensures
        m.routing(transaction, node) is Rejected,
        m.routed(transaction, node) == m,
{
    if m.transaction_rejection(transaction) is None && m.target_region(
        transaction.spec_edits(),
        node,
    ) is Ok {
        lemma_routed_edits(m, transaction, node);
        let r = m.target_region(transaction.spec_edits(), node)->Ok_0;
        assert(!edits_inside(transaction.spec_edits(), m.regions[r].start(), m.regions[r].end()));
    }
}

/// The regions of a document never stand in the way of an edit.
pub proof fn law_edits_keep_regions_valid<I>(
    m: ModelView<I>,
    transaction: EditTransaction,
    node: Option<I>,
)
    requires
        m.wf(),
        transaction.wf(),
        edits_fit(m.bytes.len() as int, transaction.spec_edits()),
    ensures
        m.routing(transaction, node) != RoutingOutcome::<I>::Rejected(
            DocumentEditRejection::InvalidRegions,
        ),
{
    let edits = transaction.spec_edits();
    if m.transaction_rejection(transaction) is None && m.target_region(edits, node) is Ok {
        let target = m.target_region(edits, node)->Ok_0;
        lemma_routed_edits(m, transaction, node);
        lemma_regions_grown(m, target, edits);
        lemma_regions_faultless(
            m.regions_grown(target, net_growth(edits)),
            edited(m.bytes, edits).len() as usize,
        );
    } else {
        lemma_target_faults(m, edits, node);
    }
}

proof fn lemma_target_faults<I>(m: ModelView<I>, edits: Seq<TextEdit>, node: Option<I>)
    ensures
        m.target_region(edits, node) != Err::<int, DocumentEditRejection>(
            DocumentEditRejection::InvalidRegions,
        ),
    decreases edits.len(),
{
    if edits.len() > 0 {
        lemma_target_faults(m, edits.drop_last(), node);
    }
}

} // verus!
