//! Undo and redo take each other back.

use crate::document::edit_laws::{edits_of, law_only_rows_and_styles_refuse_edits};
use crate::document::model_edit::{lemma_inserted_prefix, lemma_part_applicable};
use crate::document::model_lemmas::lemma_regions_grown;
use crate::document::model_view::{rows_fault, ModelView};
use crate::document::region::{lemma_region_index, region_index_of, DocumentRegion, EditPolicy};
use crate::document::resolve::styles_fault;
use crate::document::state_edit::{lemma_only_edit, undo_changes};
use crate::document::state_undo::{
    change_fits, lemma_failed_replay, lemma_no_replay, lemma_replay_is, lemma_replayed_once,
    lemma_rest_bytes,
};
use crate::document::transaction::{
    applicable, edited, edits_conflict, edits_fit, edits_inside, edits_on_boundaries, lemma_edited,
    net_growth, TextEdit,
};
use crate::document::undo::{changes_bytes, UndoChange, UndoRecord};
use crate::text::{lemma_part_boundary, splice_bytes, starts_clean};
use std::ops::Range;
use vstd::prelude::*;
use vstd::utf8::*;

verus! {

/// Two documents of the same text and regions.
pub open spec fn same_source<I>(a: ModelView<I>, b: ModelView<I>) -> bool {
    a.bytes == b.bytes && a.regions == b.regions
}

/// A valid document, looked at from afar.
#[verifier::opaque]
spec fn sound<I>(m: ModelView<I>) -> bool {
    m.wf()
}

/// Regions after one of them has grown.
#[verifier::opaque]
pub open spec fn grown_regions<I>(
    after: Seq<DocumentRegion<I>>,
    before: Seq<DocumentRegion<I>>,
    at: int,
    growth: int,
) -> bool {
    &&& after.len() == before.len()
    &&& forall|i: int|
        0 <= i < before.len() ==> {
            &&& (#[trigger] after[i]).spec_id() == before[i].spec_id()
            &&& after[i].spec_policy() == before[i].spec_policy()
            &&& after[i].start() == before[i].start() + (if i <= at {
                0
            } else {
                growth
            })
            &&& after[i].end() == before[i].end() + (if i < at {
                0
            } else {
                growth
            })
        }
}

/// Growing twice is growing once by both.
pub(crate) proof fn lemma_grown_twice<I>(
    a: Seq<DocumentRegion<I>>,
    b: Seq<DocumentRegion<I>>,
    c: Seq<DocumentRegion<I>>,
    at: int,
    first: int,
    second: int,
)
    requires
        grown_regions(b, a, at, first),
        grown_regions(c, b, at, second),
    ensures
        grown_regions(c, a, at, first + second),
        first + second == 0 ==> c == a,
{
    reveal(grown_regions);
    assert forall|i: int| 0 <= i < a.len() implies {
        &&& (#[trigger] c[i]).spec_id() == a[i].spec_id()
        &&& c[i].spec_policy() == a[i].spec_policy()
        &&& c[i].start() == a[i].start() + (if i <= at {
            0
        } else {
            first + second
        })
        &&& c[i].end() == a[i].end() + (if i < at {
            0
        } else {
            first + second
        })
    } by {
        assert(b[i].spec_id() == a[i].spec_id());
    }
    if first + second == 0 {
        assert forall|i: int| 0 <= i < a.len() implies c[i] == #[trigger] a[i] by {
            assert(c[i].spec_id() == a[i].spec_id());
        }
        assert(c =~= a);
    }
}

/// Replacing text and replacing it back changes nothing.
pub(crate) proof fn lemma_splice_back(bytes: Seq<u8>, start: int, end: int, insert: Seq<u8>)
    requires
        0 <= start <= end <= bytes.len(),
    ensures
        splice_bytes(
            splice_bytes(bytes, start, end, insert),
            start,
            start + insert.len(),
            bytes.subrange(start, end),
        ) == bytes,
{
    let mid = splice_bytes(bytes, start, end, insert);
    assert(mid.subrange(0, start) =~= bytes.subrange(0, start));
    assert(mid.subrange(start + insert.len(), mid.len() as int) =~= bytes.subrange(
        end,
        bytes.len() as int,
    ));
    assert(splice_bytes(mid, start, start + insert.len(), bytes.subrange(start, end)) =~= bytes);
}

/// Replaying a change that fits makes one splice in the region.
proof fn lemma_replayed_text<I>(m: ModelView<I>, id: I, change: UndoChange, undo: bool, at: int)
    requires
        sound(m),
        m.replayed_once(id, change@, undo) is Some,
        region_index_of(m.regions, id) == Some(at),
        m.bytes.len() + change@.replacement(undo).len() <= isize::MAX,
    ensures
        ({
            let next = m.replayed_once(id, change@, undo)->0;
            let start = m.regions[at].start() + change@.start;
            let end = start + change@.expected(undo).len();
            let growth = change@.replacement(undo).len() - change@.expected(undo).len();
            &&& change_fits(m, id, change@, undo)
            &&& 0 <= at < m.regions.len()
            &&& m.regions[at].spec_id() == id
            &&& 0 <= start <= end <= m.bytes.len()
            &&& sound(next)
            &&& next.bytes == splice_bytes(m.bytes, start, end, change@.replacement(undo))
            &&& region_index_of(next.regions, id) == Some(at)
            &&& grown_regions(next.regions, m.regions, at, growth)
        }),
{
    reveal(sound);
    if !change_fits(m, id, change@, undo) {
        lemma_no_replay(m, id, change@, undo);
    }
    let start = m.regions[at].start() + change@.start;
    let end = start + change@.expected(undo).len();
    assert(0 <= at < m.regions.len());
    assert(m.regions[at].start() <= m.regions[at].end() <= m.bytes.len());
    let edit = TextEdit {
        range: Range { start: start as usize, end: end as usize },
        replacement: if undo {
            change.removed
        } else {
            change.inserted
        },
    };
    lemma_replay_is(m, id, change@, undo, edit);
    lemma_replayed_once(m, at, edit);
    let next = m.edited_in(at, seq![edit]);
    lemma_region_index(next.regions, next.bytes.len() as int, at);
    reveal(grown_regions);
}

/// A change that is replayed one way and then the other leaves text and
/// regions as they were.
proof fn lemma_replayed_back<I>(
    x: ModelView<I>,
    y: ModelView<I>,
    z: ModelView<I>,
    id: I,
    change: UndoChange,
    undo: bool,
)
    requires
        sound(x),
        sound(y),
        x.bytes.len() + change@.bytes() <= isize::MAX,
        x.replayed_once(id, change@, undo) is Some,
        same_source(x.replayed_once(id, change@, undo)->0, y),
        y.replayed_once(id, change@, !undo) == Some(z),
    ensures
        same_source(x, z),
        sound(z),
{
    let at = region_index_of(x.regions, id)->0;
    let expected = change@.expected(undo);
    let replacement = change@.replacement(undo);
    let growth = replacement.len() - expected.len();
    assert(change_fits(x, id, change@, undo)) by {
        if !change_fits(x, id, change@, undo) {
            lemma_no_replay(x, id, change@, undo);
        }
    }
    let start = x.regions[at].start() + change@.start;
    let end = start + expected.len();
    lemma_replayed_text(x, id, change, undo, at);
    assert(y.bytes == splice_bytes(x.bytes, start, end, replacement));
    assert(grown_regions(y.regions, x.regions, at, growth));
    assert(y.bytes.len() == x.bytes.len() + growth);
    assert(y.regions[at].start() == x.regions[at].start()) by {
        reveal(grown_regions);
        assert(y.regions[at].spec_id() == x.regions[at].spec_id());
    }
    lemma_replayed_text(y, id, change, !undo, at);
    assert(z.bytes == splice_bytes(y.bytes, start, start + replacement.len(), expected));
    assert(grown_regions(z.regions, y.regions, at, -growth));
    lemma_splice_back(x.bytes, start, end, replacement);
    lemma_grown_twice(x.regions, y.regions, z.regions, at, growth, -growth);
}

/// Every stage of a replay is valid and leaves room for the rest.
pub(crate) proof fn lemma_replayed_stage<I>(m: ModelView<I>, record: UndoRecord<I>, undo: bool, count: int)
    requires
        m.wf(),
        m.bytes.len() + record@.bytes() <= isize::MAX,
        0 <= count <= record@.changes.len(),
        m.replayed(record@.region_id, record@.changes, undo, count) is Some,
    ensures
        ({
            let n = record@.changes.len() as int;
            let stage = m.replayed(record@.region_id, record@.changes, undo, count)->0;
            &&& stage.wf()
            &&& stage.bytes.len() + changes_bytes(
                if undo {
                    record@.changes.subrange(0, n - count)
                } else {
                    record@.changes.subrange(count, n)
                },
            ) <= isize::MAX
        }),
    decreases count,
{
    let changes = record@.changes;
    let n = changes.len() as int;
    let id = record@.region_id;
    if count == 0 {
        assert(changes.subrange(0, n) =~= changes);
    } else {
        lemma_replayed_stage(m, record, undo, count - 1);
        lemma_rest_bytes(changes, undo, count - 1);
        let before = m.replayed(id, changes, undo, count - 1)->0;
        let k = if undo {
            n - count
        } else {
            count - 1
        };
        let change = record.changes@[k];
        assert(changes[k] == change@);
        if !change_fits(before, id, change@, undo) {
            lemma_no_replay(before, id, change@, undo);
        }
        assert(sound(before)) by {
            reveal(sound);
        }
        lemma_replayed_text(before, id, change, undo, region_index_of(before.regions, id)->0);
        reveal(sound);
    }
}

/// The stages of the way back are those of the way there.
proof fn lemma_replayed_ways<I>(
    m: ModelView<I>,
    mid: ModelView<I>,
    record: UndoRecord<I>,
    undo: bool,
    count: int,
)
    requires
        m.wf(),
        mid.wf(),
        m.bytes.len() + record@.bytes() <= isize::MAX,
        m.replayed(
            record@.region_id,
            record@.changes,
            undo,
            record@.changes.len() as int,
        ) is Some,
        same_source(
            m.replayed(record@.region_id, record@.changes, undo, record@.changes.len() as int)->0,
            mid,
        ),
        0 <= count <= record@.changes.len(),
        mid.replayed(record@.region_id, record@.changes, !undo, count) is Some,
    ensures
        ({
            let back = mid.replayed(record@.region_id, record@.changes, !undo, count)->0;
            let there = m.replayed(
                record@.region_id,
                record@.changes,
                undo,
                record@.changes.len() - count,
            );
            &&& back.wf()
            &&& there is Some
            &&& same_source(there->0, back)
        }),
    decreases count,
{
    let changes = record@.changes;
    let n = changes.len() as int;
    let id = record@.region_id;
    if count > 0 {
        lemma_replayed_ways(m, mid, record, undo, count - 1);
        if n - count > 0 {
            lemma_failed_replay(m, id, changes, undo, n - count, n);
        }
        lemma_replayed_stage(m, record, undo, n - count);
        lemma_rest_bytes(changes, undo, n - count);
        let x = m.replayed(id, changes, undo, n - count)->0;
        let y = mid.replayed(id, changes, !undo, count - 1)->0;
        let z = mid.replayed(id, changes, !undo, count)->0;
        let k = if undo {
            count - 1
        } else {
            n - count
        };
        let change = record.changes@[k];
        assert(changes[k] == change@);
        assert(m.replayed(id, changes, undo, n - count + 1) == x.replayed_once(
            id,
            change@,
            undo,
        ));
        reveal(sound);
        lemma_replayed_back(x, y, z, id, change, undo);
    }
}

/// Undo and redo are inverse to each other: a record that is replayed one way
/// and then the other leaves the text and the regions as they were.
pub proof fn law_undo_and_redo_are_inverse<I>(
    m: ModelView<I>,
    mid: ModelView<I>,
    end: ModelView<I>,
    record: UndoRecord<I>,
    undo: bool,
)
    requires
        m.wf(),
        mid.wf(),
        m.bytes.len() + record@.bytes() <= isize::MAX,
        m.replayed(
            record@.region_id,
            record@.changes,
            undo,
            record@.changes.len() as int,
        ) matches Some(there) && same_source(there, mid),
        mid.replayed(
            record@.region_id,
            record@.changes,
            !undo,
            record@.changes.len() as int,
        ) == Some(end),
    ensures
        end.bytes == m.bytes,
        end.regions == m.regions,
{
    lemma_replayed_ways(m, mid, record, undo, record@.changes.len() as int);
}

/// The text that an edit replaces is untouched by those before it.
pub(crate) proof fn lemma_untouched(bytes: Seq<u8>, edits: Seq<TextEdit>, k: int)
    requires
        applicable(edits),
        edits_on_boundaries(edits, bytes),
        starts_clean(bytes),
        0 <= k < edits.len(),
    ensures
        ({
            let text = edited(bytes, edits.subrange(0, k));
            &&& edits[k].end() <= text.len()
            &&& text.subrange(edits[k].start(), edits[k].end()) == bytes.subrange(
                edits[k].start(),
                edits[k].end(),
            )
        }),
{
    let rest = edits.subrange(0, k);
    let text = edited(bytes, rest);
    let edit = edits[k];
    lemma_part_applicable(edits, bytes, k);
    lemma_edited(bytes, rest);
    if k > 0 {
        assert(rest.last() == edits[k - 1]);
        assert(!edits_conflict(edits[k - 1], edits[k]));
        let low = rest.last().start();
        assert forall|j: int| edit.start() <= j < edit.end() implies text[j] == bytes[j] by {
            assert(text.subrange(0, low)[j] == bytes.subrange(0, low)[j]);
        }
    }
    assert(text.subrange(edit.start(), edit.end()) =~= bytes.subrange(edit.start(), edit.end()));
}

/// A region that has grown is found where it was.
proof fn lemma_grown_index<I>(m: ModelView<I>, after: ModelView<I>, at: int, growth: int)
    requires
        after.wf(),
        0 <= at < m.regions.len(),
        grown_regions(after.regions, m.regions, at, growth),
    ensures
        region_index_of(after.regions, m.regions[at].spec_id()) == Some(at),
        after.regions[at].start() == m.regions[at].start(),
{
    reveal(grown_regions);
    assert(after.regions[at].spec_id() == m.regions[at].spec_id());
    lemma_region_index(after.regions, after.bytes.len() as int, at);
}

/// The stages of an undo are the texts between the edits.
proof fn lemma_undone_stage<I>(
    m: ModelView<I>,
    target: int,
    edits: Seq<TextEdit>,
    after: ModelView<I>,
    record: UndoRecord<I>,
    count: int,
)
    requires
        m.wf(),
        0 <= target < m.regions.len(),
        applicable(edits),
        edits_on_boundaries(edits, m.bytes),
        edits_inside(edits, m.regions[target].start(), m.regions[target].end()),
        edits_fit(m.bytes.len() as int, edits),
        after.wf(),
        after.bytes == edited(m.bytes, edits),
        grown_regions(after.regions, m.regions, target, net_growth(edits)),
        record@.region_id == m.regions[target].spec_id(),
        record@.changes == undo_changes(m, target, edits),
        0 <= count <= edits.len(),
        after.replayed(record@.region_id, record@.changes, true, count) is Some,
    ensures
        ({
            let stage = after.replayed(record@.region_id, record@.changes, true, count)->0;
            let rest = edits.subrange(0, edits.len() - count);
            &&& stage.wf()
            &&& stage.bytes == edited(m.bytes, rest)
            &&& grown_regions(stage.regions, m.regions, target, net_growth(rest))
        }),
    decreases count,
{
    let n = edits.len() as int;
    let id = record@.region_id;
    let changes = record@.changes;
    if count == 0 {
        assert(edits.subrange(0, n) =~= edits);
    } else {
        lemma_undone_stage(m, target, edits, after, record, count - 1);
        let before = after.replayed(id, changes, true, count - 1)->0;
        let stage = after.replayed(id, changes, true, count)->0;
        let k = n - count;
        let more = edits.subrange(0, k + 1);
        let rest = edits.subrange(0, k);
        let edit = edits[k];
        assert(more.drop_last() =~= rest);
        assert(more.last() == edit);
        lemma_part_applicable(edits, m.bytes, k);
        lemma_part_applicable(edits, m.bytes, k + 1);
        lemma_edited(m.bytes, rest);
        lemma_inserted_prefix(edits, k + 1);
        let text = edited(m.bytes, rest);
        let change = record.changes@[k];
        assert(changes[k] == change@);
        lemma_untouched(m.bytes, edits, k);
        assert(before.bytes == splice_bytes(text, edit.start(), edit.end(), edit.bytes()));
        lemma_grown_index(m, before, target, net_growth(more));
        reveal(sound);
        lemma_replayed_text(before, id, change, true, target);
        lemma_splice_back(text, edit.start(), edit.end(), edit.bytes());
        assert(stage.bytes == text);
        assert(net_growth(more) == net_growth(rest) + edit.bytes().len() - (edit.end()
            - edit.start()));
        lemma_grown_twice(
            m.regions,
            before.regions,
            stage.regions,
            target,
            net_growth(more),
            edit.end() - edit.start() - edit.bytes().len(),
        );
    }
}

/// Undo takes an edit back: after edits of a region, replaying their record
/// backwards gives the text and the regions from before.
pub proof fn law_undo_takes_edits_back<I>(
    m: ModelView<I>,
    target: int,
    edits: Seq<TextEdit>,
    after: ModelView<I>,
    record: UndoRecord<I>,
    end: ModelView<I>,
)
    requires
        m.wf(),
        0 <= target < m.regions.len(),
        applicable(edits),
        edits_on_boundaries(edits, m.bytes),
        edits_inside(edits, m.regions[target].start(), m.regions[target].end()),
        edits_fit(m.bytes.len() as int, edits),
        after.wf(),
        same_source(after, m.edited_in(target, edits)),
        record@.region_id == m.regions[target].spec_id(),
        record@.changes == undo_changes(m, target, edits),
        after.replayed(
            record@.region_id,
            record@.changes,
            true,
            record@.changes.len() as int,
        ) == Some(end),
    ensures
        end.wf(),
        end.bytes == m.bytes,
        end.regions == m.regions,
{
    lemma_regions_grown(m, target, edits);
    assert(grown_regions(after.regions, m.regions, target, net_growth(edits))) by {
        reveal(grown_regions);
    }
    lemma_undone_stage(m, target, edits, after, record, edits.len() as int);
    assert(edits.subrange(0, 0) =~= Seq::empty());
    assert(grown_regions(m.regions, m.regions, target, 0)) by {
        reveal(grown_regions);
    }
    lemma_grown_twice(m.regions, m.regions, end.regions, target, 0, 0);
}

// ---------------------------------------------------------------------------
// That undo and redo go through
// ---------------------------------------------------------------------------

/// Without anchored rows and styles.
pub open spec fn unadorned<I>(m: ModelView<I>) -> bool {
    m.anchored.len() == 0 && m.styles.paragraphs.len() == 0 && m.styles.inline.len() == 0
}

/// A change whose text is there is replayed.
pub(crate) proof fn lemma_replay_succeeds<I>(m: ModelView<I>, id: I, change: UndoChange, undo: bool)
    requires
        m.wf(),
        unadorned(m),
        change_fits(m, id, change@, undo),
        m.bytes.len() + change@.replacement(undo).len() <= isize::MAX,
    ensures
        m.replayed_once(id, change@, undo) matches Some(next) && unadorned(next),
{
    let at = region_index_of(m.regions, id)->0;
    let start = m.regions[at].start() + change@.start;
    let end = start + change@.expected(undo).len();
    let edit = TextEdit {
        range: Range { start: start as usize, end: end as usize },
        replacement: if undo {
            change.removed
        } else {
            change.inserted
        },
    };
    let edits = seq![edit];
    lemma_replay_is(m, id, change@, undo, edit);
    lemma_only_edit(edits);
    assert(edits_of(m, at, edits));
    law_only_rows_and_styles_refuse_edits(m, at, edits);
    let next = m.edited_in(at, edits);
    assert(unadorned(next));
    lemma_unadorned(next);
}

/// Where there are no rows and no styles, none has a fault.
pub(crate) proof fn lemma_unadorned<I>(m: ModelView<I>)
    requires
        unadorned(m),
    ensures
        rows_fault(m.bytes, m.regions, m.projection, m.anchored) is None,
        styles_fault(m.styles, m.bytes, m.regions, m.projection, m.display()) is None,
{
}

// ---------------------------------------------------------------------------
// Undo of a draft while the rest of the document changes
// ---------------------------------------------------------------------------

/// Two documents in which a region is editable and has the same text.
pub open spec fn same_draft<I>(a: ModelView<I>, b: ModelView<I>, id: I) -> bool {
    &&& region_index_of(a.regions, id) matches Some(i)
    &&& region_index_of(b.regions, id) matches Some(j)
    &&& a.regions[i].spec_policy() == EditPolicy::Editable
    &&& b.regions[j].spec_policy() == EditPolicy::Editable
    &&& a.bytes.subrange(a.regions[i].start(), a.regions[i].end()) == b.bytes.subrange(
        b.regions[j].start(),
        b.regions[j].end(),
    )
}

/// A part of a text, replaced in the text or by itself.
proof fn lemma_part_replaced(
    bytes: Seq<u8>,
    first: int,
    last: int,
    start: int,
    end: int,
    insert: Seq<u8>,
)
    requires
        0 <= first <= start <= end <= last <= bytes.len(),
    ensures
        splice_bytes(bytes, start, end, insert).subrange(
            first,
            last + insert.len() - (end - start),
        ) == splice_bytes(bytes.subrange(first, last), start - first, end - first, insert),
{
    assert(splice_bytes(bytes, start, end, insert).subrange(
        first,
        last + insert.len() - (end - start),
    ) =~= splice_bytes(bytes.subrange(first, last), start - first, end - first, insert));
}

/// A change that fits one document fits another with the same draft.
proof fn lemma_fits_alike<I>(
    x: ModelView<I>,
    y: ModelView<I>,
    id: I,
    change: UndoChange,
    undo: bool,
)
    requires
        x.wf(),
        y.wf(),
        same_draft(x, y, id),
        change_fits(x, id, change@, undo),
    ensures
        change_fits(y, id, change@, undo),
{
    let a = x.regions[region_index_of(x.regions, id)->0];
    let b = y.regions[region_index_of(y.regions, id)->0];
    let from = change@.start;
    let to = from + change@.expected(undo).len();
    let part = x.bytes.subrange(a.start(), a.end());
    assert(a.start() <= a.end() <= x.bytes.len());
    assert(b.start() <= b.end() <= y.bytes.len());
    assert(part.len() == b.end() - b.start());
    lemma_part_boundary(x.bytes, a.start(), a.end(), from);
    lemma_part_boundary(x.bytes, a.start(), a.end(), to);
    lemma_part_boundary(y.bytes, b.start(), b.end(), from);
    lemma_part_boundary(y.bytes, b.start(), b.end(), to);
    assert(x.bytes.subrange(a.start() + from, a.start() + to) =~= part.subrange(from, to));
    assert(y.bytes.subrange(b.start() + from, b.start() + to) =~= part.subrange(from, to));
}

/// What a change leaves of its region.
proof fn lemma_draft_after<I>(m: ModelView<I>, id: I, change: UndoChange, undo: bool)
    requires
        m.wf(),
        m.bytes.len() + change@.replacement(undo).len() <= isize::MAX,
        m.replayed_once(id, change@, undo) is Some,
    ensures
        change_fits(m, id, change@, undo),
        ({
            let i = region_index_of(m.regions, id)->0;
            let next = m.replayed_once(id, change@, undo)->0;
            &&& region_index_of(next.regions, id) == Some(i)
            &&& next.regions[i].spec_policy() == EditPolicy::Editable
            &&& next.bytes.subrange(next.regions[i].start(), next.regions[i].end())
                == splice_bytes(
                m.bytes.subrange(m.regions[i].start(), m.regions[i].end()),
                change@.start,
                change@.start + change@.expected(undo).len(),
                change@.replacement(undo),
            )
        }),
{
    if !change_fits(m, id, change@, undo) {
        lemma_no_replay(m, id, change@, undo);
    }
    let i = region_index_of(m.regions, id)->0;
    let region = m.regions[i];
    assert(sound(m)) by {
        reveal(sound);
    }
    lemma_replayed_text(m, id, change, undo, i);
    let from = region.start() + change@.start;
    let to = from + change@.expected(undo).len();
    assert(region.start() <= region.end() <= m.bytes.len());
    lemma_part_replaced(
        m.bytes,
        region.start(),
        region.end(),
        from,
        to,
        change@.replacement(undo),
    );
    let next = m.replayed_once(id, change@, undo)->0;
    assert(next.regions[i].spec_policy() == region.spec_policy() && next.regions[i].start()
        == region.start() && next.regions[i].end() == region.end()
        + change@.replacement(undo).len() - change@.expected(undo).len()) by {
        reveal(grown_regions);
        assert(next.regions[i].spec_id() == region.spec_id());
    }
}

/// A change of a draft leaves the draft the same in two documents.
proof fn lemma_replayed_alike<I>(
    x: ModelView<I>,
    y: ModelView<I>,
    id: I,
    change: UndoChange,
    undo: bool,
)
    requires
        x.wf(),
        y.wf(),
        same_draft(x, y, id),
        x.bytes.len() + change@.replacement(undo).len() <= isize::MAX,
        y.bytes.len() + change@.replacement(undo).len() <= isize::MAX,
        x.replayed_once(id, change@, undo) is Some,
    ensures
        unadorned(y) ==> y.replayed_once(id, change@, undo) is Some && unadorned(
            y.replayed_once(id, change@, undo)->0,
        ),
        y.replayed_once(id, change@, undo) is Some ==> same_draft(
            x.replayed_once(id, change@, undo)->0,
            y.replayed_once(id, change@, undo)->0,
            id,
        ),
{
    lemma_draft_after(x, id, change, undo);
    lemma_fits_alike(x, y, id, change, undo);
    if unadorned(y) {
        lemma_replay_succeeds(y, id, change, undo);
    }
    if y.replayed_once(id, change@, undo) is Some {
        lemma_draft_after(y, id, change, undo);
    }
}

proof fn lemma_draft_stage<I>(
    m: ModelView<I>,
    next: ModelView<I>,
    record: UndoRecord<I>,
    undo: bool,
    count: int,
)
    requires
        m.wf(),
        next.wf(),
        same_draft(m, next, record@.region_id),
        m.bytes.len() + record@.bytes() <= isize::MAX,
        next.bytes.len() + record@.bytes() <= isize::MAX,
        0 <= count <= record@.changes.len(),
        m.replayed(record@.region_id, record@.changes, undo, count) is Some,
    ensures
        unadorned(next) ==> next.replayed(
            record@.region_id,
            record@.changes,
            undo,
            count,
        ) is Some && unadorned(
            next.replayed(record@.region_id, record@.changes, undo, count)->0,
        ),
        next.replayed(record@.region_id, record@.changes, undo, count) is Some ==> same_draft(
            m.replayed(record@.region_id, record@.changes, undo, count)->0,
            next.replayed(record@.region_id, record@.changes, undo, count)->0,
            record@.region_id,
        ),
    decreases count,
{
    let changes = record@.changes;
    let n = changes.len() as int;
    let id = record@.region_id;
    if count > 0 {
        lemma_draft_stage(m, next, record, undo, count - 1);
        if next.replayed(id, changes, undo, count - 1) is Some {
            lemma_replayed_stage(m, record, undo, count - 1);
            lemma_replayed_stage(next, record, undo, count - 1);
            lemma_rest_bytes(changes, undo, count - 1);
            let x = m.replayed(id, changes, undo, count - 1)->0;
            let y = next.replayed(id, changes, undo, count - 1)->0;
            let k = if undo {
                n - count
            } else {
                count - 1
            };
            let change = record.changes@[k];
            assert(changes[k] == change@);
            lemma_replayed_alike(x, y, id, change, undo);
        }
    }
}

/// Undo and redo follow their region: whatever has happened to the rest of a
/// document, a record whose region keeps its text leaves the region with the
/// same text when it is replayed. Only anchored rows and styles of the
/// document as it is now can stand in the way.
pub proof fn law_undo_follows_its_region<I>(
    m: ModelView<I>,
    next: ModelView<I>,
    record: UndoRecord<I>,
    undo: bool,
)
    requires
        m.wf(),
        next.wf(),
        same_draft(m, next, record@.region_id),
        m.bytes.len() + record@.bytes() <= isize::MAX,
        next.bytes.len() + record@.bytes() <= isize::MAX,
        m.replayed(
            record@.region_id,
            record@.changes,
            undo,
            record@.changes.len() as int,
        ) is Some,
    ensures
        ({
            let n = record@.changes.len() as int;
            let there = m.replayed(record@.region_id, record@.changes, undo, n)->0;
            let here = next.replayed(record@.region_id, record@.changes, undo, n);
            &&& unadorned(next) ==> here is Some
            &&& here is Some ==> same_draft(there, here->0, record@.region_id)
        }),
{
    lemma_draft_stage(m, next, record, undo, record@.changes.len() as int);
}

} // verus!
