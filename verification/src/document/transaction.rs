//! Text edits and the transactions that group them.

use crate::document::position::{moved_offset, transform_offset, AnchorBias, DocumentRevision};
use crate::order::{
    in_rank_order, lemma_sort_members, lemma_stable_sort, rank_less, sort_stable, stable_sort,
    Ranked,
};
use crate::scan::{first_fault, lemma_first_fault};
use crate::text::{
    at_boundary, byte_len, lemma_encoded, lemma_splice_boundaries, splice_bytes, starts_clean,
};
use std::ops::Range;
use vstd::prelude::*;
use vstd::string::*;
use vstd::utf8::*;

verus! {

#[derive(Clone, Copy, Debug, PartialEq, Eq, Structural, Hash)]
pub enum EditOrigin {
    User,
    Composition,
    Paste,
    Undo,
    Redo,
    Host,
}

/// One replacement expressed in the source coordinates before a transaction.
#[derive(Debug, PartialEq, Eq)]
pub struct TextEdit {
    pub(crate) range: Range<usize>,
    pub(crate) replacement: String,
}

impl TextEdit {
    /// Where the replaced bytes start.
    pub open(crate) spec fn start(self) -> int {
        self.range.start as int
    }

    /// Where the replaced bytes end.
    pub open(crate) spec fn end(self) -> int {
        self.range.end as int
    }

    /// The bytes that replace them.
    pub open(crate) spec fn bytes(self) -> Seq<u8> {
        encode_utf8(self.replacement@)
    }

    pub fn new(range: Range<usize>, replacement: &str) -> (edit: Self)
        ensures
            edit.start() == range.start,
            edit.end() == range.end,
            edit.bytes() == replacement.spec_bytes(),
    {
        TextEdit { range, replacement: replacement.to_owned() }
    }

    pub fn range(&self) -> (range: Range<usize>)
        ensures
            range.start == self.start(),
            range.end == self.end(),
    {
        self.range.start..self.range.end
    }

    pub fn replacement(&self) -> (text: &str)
        ensures
            text.spec_bytes() == self.bytes(),
    {
        self.replacement.as_str()
    }

    /// The number of bytes that the edit inserts.
    pub fn replacement_len(&self) -> (len: usize)
        ensures
            len == self.bytes().len(),
    {
        byte_len(self.replacement.as_str())
    }
}

impl Clone for TextEdit {
    fn clone(&self) -> (copy: Self)
        ensures
            copy == *self,
    {
        TextEdit {
            range: self.range.start..self.range.end,
            replacement: self.replacement.clone(),
        }
    }
}

impl Ranked for TextEdit {
    open(crate) spec fn rank(&self) -> (int, int) {
        (-self.start(), -self.end())
    }

    fn ranks_after(&self, other: &Self) -> (after: bool) {
        self.range.start < other.range.start || (self.range.start == other.range.start
            && self.range.end < other.range.end)
    }
}

/// A normalized group of disjoint edits against one source revision.
#[derive(Debug, PartialEq, Eq)]
pub struct EditTransaction {
    pub(crate) revision: DocumentRevision,
    pub(crate) origin: EditOrigin,
    pub(crate) edits: Vec<TextEdit>,
}

impl Clone for EditTransaction {
    fn clone(&self) -> (copy: Self)
        ensures
            copy.spec_revision() == self.spec_revision(),
            copy.spec_origin() == self.spec_origin(),
            copy.spec_edits() == self.spec_edits(),
    {
        let mut edits: Vec<TextEdit> = Vec::new();
        let mut i: usize = 0;
        while i < self.edits.len()
            invariant
                i <= self.edits.len(),
                edits@ == self.edits@.subrange(0, i as int),
            decreases self.edits.len() - i,
        {
            edits.push(self.edits[i].clone());
            assert(edits@ =~= self.edits@.subrange(0, i + 1));
            i += 1;
        }
        assert(edits@ =~= self.edits@);
        EditTransaction { revision: self.revision, origin: self.origin, edits }
    }
}

#[derive(Clone, Copy, Debug, PartialEq, Eq, Structural)]
pub enum TransactionError {
    Empty,
    InvalidRange { index: usize },
    OutOfBounds { index: usize, source_len: usize },
    Overlap { first: usize, second: usize },
}

/// Result of pre-mutation routing for an edit request.
#[derive(Debug, PartialEq, Eq)]
pub enum EditDecision<R> {
    Apply,
    Reject,
    Route(R),
    MaterializeAndApply,
}

impl<R: Clone> Clone for EditDecision<R> {
    fn clone(&self) -> (copy: Self)
        ensures
            match (*self, copy) {
                (EditDecision::Route(route), EditDecision::Route(other)) => cloned(route, other),
                (EditDecision::Route(_), _) => false,
                _ => copy == *self,
            },
    {
        match self {
            EditDecision::Apply => EditDecision::Apply,
            EditDecision::Reject => EditDecision::Reject,
            EditDecision::Route(route) => EditDecision::Route(route.clone()),
            EditDecision::MaterializeAndApply => EditDecision::MaterializeAndApply,
        }
    }
}

/// What is wrong with each edit by itself.
pub open spec fn edit_fault(edits: Seq<TextEdit>, source_len: usize) -> spec_fn(int) -> Option<
    TransactionError,
> {
    |i: int|
        if edits[i].start() > edits[i].end() {
            Some(TransactionError::InvalidRange { index: i as usize })
        } else if edits[i].end() > source_len {
            Some(TransactionError::OutOfBounds { index: i as usize, source_len })
        } else {
            None
        }
}

/// Two edits that cannot both be applied: the lower one reaches into the
/// upper one, or both insert at one place.
pub open spec fn edits_conflict(upper: TextEdit, lower: TextEdit) -> bool {
    ||| lower.end() > upper.start()
    ||| upper.start() == upper.end() && lower.start() == lower.end() && upper.start()
        == lower.start()
}

/// Whether an edit conflicts with the next one.
pub open spec fn overlap_fault(sorted: Seq<TextEdit>) -> spec_fn(int) -> Option<TransactionError> {
    |i: int|
        if edits_conflict(sorted[i], sorted[i + 1]) {
            Some(TransactionError::Overlap { first: i as usize, second: (i + 1) as usize })
        } else {
            None
        }
}

/// Why edits do not make a transaction against a source of `source_len`
/// bytes: there are none; one has a bad range, the first such is named; or,
/// from the highest to the lowest, one conflicts with the next.
pub open spec fn transaction_fault(edits: Seq<TextEdit>, source_len: usize) -> Option<
    TransactionError,
> {
    if edits.len() == 0 {
        Some(TransactionError::Empty)
    } else if first_fault(edit_fault(edits, source_len), 0, edits.len() as int) is Some {
        first_fault(edit_fault(edits, source_len), 0, edits.len() as int)
    } else {
        first_fault(overlap_fault(stable_sort(edits)), 0, edits.len() - 1)
    }
}

/// Edits in application order: from the highest source offset to the lowest,
/// with no two in conflict.
pub open spec fn applicable(edits: Seq<TextEdit>) -> bool {
    &&& forall|i: int| 0 <= i < edits.len() ==> (#[trigger] edits[i]).start() <= edits[i].end()
    &&& forall|i: int, j: int|
        #![trigger edits[i], edits[j]]
        0 <= i < j < edits.len() ==> !edits_conflict(edits[i], edits[j])
}

/// Edits within a source of `len` bytes.
pub open spec fn edits_within(edits: Seq<TextEdit>, len: int) -> bool {
    forall|i: int| 0 <= i < edits.len() ==> (#[trigger] edits[i]).end() <= len
}

/// Sorted edits without a conflict between neighbours have no conflict at
/// all.
proof fn lemma_applicable(edits: Seq<TextEdit>)
    requires
        in_rank_order(edits),
        forall|i: int| 0 <= i < edits.len() ==> (#[trigger] edits[i]).start() <= edits[i].end(),
        first_fault(overlap_fault(edits), 0, edits.len() - 1) is None,
    ensures
        applicable(edits),
{
    lemma_first_fault(overlap_fault(edits), 0, edits.len() - 1);
    assert forall|i: int, j: int|
        #![trigger edits[i], edits[j]]
        0 <= i < j < edits.len() implies !edits_conflict(edits[i], edits[j]) by {
        assert(overlap_fault(edits)(i) is None);
        assert(!edits_conflict(edits[i], edits[i + 1]));
        if i + 1 < j {
            assert(!rank_less(edits[j].rank(), edits[i + 1].rank()));
            assert(overlap_fault(edits)(j - 1) is None);
            assert(!edits_conflict(edits[j - 1], edits[j]));
            assert(!rank_less(edits[j - 1].rank(), edits[i].rank()));
            assert(!rank_less(edits[j - 1].rank(), edits[i + 1].rank()));
        }
    }
}

impl EditTransaction {
    pub open(crate) spec fn spec_revision(self) -> DocumentRevision {
        self.revision
    }

    pub open(crate) spec fn spec_origin(self) -> EditOrigin {
        self.origin
    }

    pub open(crate) spec fn spec_edits(self) -> Seq<TextEdit> {
        self.edits@
    }

    /// There is an edit, and the edits are in application order.
    pub open(crate) spec fn wf(self) -> bool {
        &&& self.spec_edits().len() > 0
        &&& applicable(self.spec_edits())
    }

    pub fn new(
        revision: DocumentRevision,
        origin: EditOrigin,
        edits: Vec<TextEdit>,
        source_len: usize,
    ) -> (result: Result<Self, TransactionError>)
        ensures
            match result {
                Ok(transaction) => {
                    &&& transaction_fault(edits@, source_len) is None
                    &&& transaction.spec_revision() == revision
                    &&& transaction.spec_origin() == origin
                    &&& transaction.spec_edits() == stable_sort(edits@)
                    &&& transaction.wf()
                    &&& edits_within(transaction.spec_edits(), source_len as int)
                },
                Err(error) => transaction_fault(edits@, source_len) == Some(error),
            },
    {
        if edits.len() == 0 {
            return Err(TransactionError::Empty);
        }
        let ghost given = edits@;
        let mut index: usize = 0;
        while index < edits.len()
            invariant
                index <= edits.len(),
                edits@ == given,
                given.len() > 0,
                first_fault(edit_fault(given, source_len), 0, given.len() as int) == first_fault(
                    edit_fault(given, source_len),
                    index as int,
                    given.len() as int,
                ),
            decreases edits.len() - index,
        {
            let edit = &edits[index];
            if edit.range.start > edit.range.end {
                return Err(TransactionError::InvalidRange { index });
            }
            if edit.range.end > source_len {
                return Err(TransactionError::OutOfBounds { index, source_len });
            }
            index += 1;
        }
        proof {
            lemma_first_fault(edit_fault(given, source_len), 0, given.len() as int);
            lemma_stable_sort(given);
        }
        let mut sorted = edits;
        sort_stable(&mut sorted);
        let mut index: usize = 0;
        while index + 1 < sorted.len()
            invariant
                sorted@ == stable_sort(given),
                sorted@.len() == given.len(),
                index < sorted.len(),
                edits@ == given,
                first_fault(edit_fault(given, source_len), 0, given.len() as int) is None,
                first_fault(overlap_fault(sorted@), 0, given.len() - 1) == first_fault(
                    overlap_fault(sorted@),
                    index as int,
                    given.len() - 1,
                ),
            decreases sorted.len() - index,
        {
            let upper = &sorted[index];
            let lower = &sorted[index + 1];
            let duplicate_insert = upper.range.start == upper.range.end && lower.range.start
                == lower.range.end && upper.range.start == lower.range.start;
            if lower.range.end > upper.range.start || duplicate_insert {
                return Err(TransactionError::Overlap { first: index, second: index + 1 });
            }
            index += 1;
        }
        proof {
            assert forall|i: int| 0 <= i < sorted@.len() implies (#[trigger] sorted@[i]).start()
                <= sorted@[i].end() && sorted@[i].end() <= source_len by {
                lemma_sort_members(given);
                assert(stable_sort(given).contains(sorted@[i]));
                assert(given.contains(sorted@[i]));
                let k = choose|k: int| 0 <= k < given.len() && given[k] == sorted@[i];
                assert(edit_fault(given, source_len)(k) is None);
            }
            lemma_applicable(sorted@);
        }
        Ok(EditTransaction { revision, origin, edits: sorted })
    }

    pub fn revision(&self) -> (revision: DocumentRevision)
        ensures
            revision == self.spec_revision(),
    {
        self.revision
    }

    pub fn origin(&self) -> (origin: EditOrigin)
        ensures
            origin == self.spec_origin(),
    {
        self.origin
    }

    /// Edits in application order, from highest source offset to lowest.
    pub fn edits(&self) -> (edits: &[TextEdit])
        ensures
            edits@ == self.spec_edits(),
    {
        self.edits.as_slice()
    }
}

// ---------------------------------------------------------------------------
// What edits do to text and to ranges
// ---------------------------------------------------------------------------

/// Every edit lies between boundaries of the text.
pub open spec fn edits_on_boundaries(edits: Seq<TextEdit>, bytes: Seq<u8>) -> bool {
    forall|i: int|
        0 <= i < edits.len() ==> {
            &&& (#[trigger] edits[i]).start() <= edits[i].end() <= bytes.len()
            &&& at_boundary(bytes, edits[i].start())
            &&& at_boundary(bytes, edits[i].end())
        }
}

/// The number of bytes that the edits insert.
pub open spec fn inserted_len(edits: Seq<TextEdit>) -> nat
    decreases edits.len(),
{
    if edits.len() == 0 {
        0
    } else {
        inserted_len(edits.drop_last()) + edits.last().bytes().len()
    }
}

/// By how many bytes the edits make a text longer.
pub open spec fn net_growth(edits: Seq<TextEdit>) -> int
    decreases edits.len(),
{
    if edits.len() == 0 {
        0
    } else {
        net_growth(edits.drop_last()) + edits.last().bytes().len() - (edits.last().end()
            - edits.last().start())
    }
}

/// The text after the edits, applied in order.
pub open spec fn edited(bytes: Seq<u8>, edits: Seq<TextEdit>) -> Seq<u8>
    decreases edits.len(),
{
    if edits.len() == 0 {
        bytes
    } else {
        splice_bytes(
            edited(bytes, edits.drop_last()),
            edits.last().start(),
            edits.last().end(),
            edits.last().bytes(),
        )
    }
}

/// Text and inserted text that fit into memory together.
pub open spec fn edits_fit(len: int, edits: Seq<TextEdit>) -> bool {
    len + inserted_len(edits) <= isize::MAX
}

/// Edits from the highest to the lowest change nothing before the lowest, so
/// that each edit meets the text that it was made for.
pub proof fn lemma_edited(bytes: Seq<u8>, edits: Seq<TextEdit>)
    requires
        applicable(edits),
        edits_on_boundaries(edits, bytes),
        starts_clean(bytes),
    ensures
        starts_clean(edited(bytes, edits)),
        edited(bytes, edits).len() == bytes.len() + net_growth(edits),
        edited(bytes, edits).len() <= bytes.len() + inserted_len(edits),
        edits.len() > 0 ==> forall|i: int|
            0 <= i <= edits.last().start() ==> (#[trigger] at_boundary(edited(bytes, edits), i)
                <==> at_boundary(bytes, i)),
        edits.len() > 0 ==> edited(bytes, edits).subrange(0, edits.last().start())
            == bytes.subrange(0, edits.last().start()),
        edits.len() > 0 ==> edits.last().start() <= edited(bytes, edits).len(),
    decreases edits.len(),
{
    if edits.len() > 0 {
        let front = edits.drop_last();
        let last = edits.last();
        assert forall|i: int| 0 <= i < front.len() implies front[i] == edits[i] by {}
        lemma_edited(bytes, front);
        let before = edited(bytes, front);
        lemma_encoded(last.replacement@);
        if front.len() > 0 {
            assert(!edits_conflict(edits[front.len() - 1], edits[edits.len() - 1]));
            assert(last.end() <= front.last().start());
            assert(at_boundary(before, last.start()));
            assert(at_boundary(before, last.end()));
            assert(before.subrange(0, last.start()) =~= bytes.subrange(0, last.start())) by {
                let k = front.last().start();
                assert(before.subrange(0, last.start()) =~= before.subrange(0, k).subrange(
                    0,
                    last.start(),
                ));
                assert(bytes.subrange(0, last.start()) =~= bytes.subrange(0, k).subrange(
                    0,
                    last.start(),
                ));
            }
        }
        lemma_splice_boundaries(before, last.start(), last.end(), last.bytes());
        let after = splice_bytes(before, last.start(), last.end(), last.bytes());
        assert(after.subrange(0, last.start()) =~= before.subrange(0, last.start()));
    }
}

/// Where the bytes of edit `i` begin once all edits are applied: moved by
/// what the lower edits insert and remove.
pub open spec fn landing(edits: Seq<TextEdit>, i: int) -> int {
    edits[i].start() + net_growth(edits.subrange(i + 1, edits.len() as int))
}

proof fn lemma_net_growth_split(edits: Seq<TextEdit>, i: int)
    requires
        0 <= i <= edits.len(),
    ensures
        net_growth(edits) == net_growth(edits.subrange(0, i)) + net_growth(
            edits.subrange(i, edits.len() as int),
        ),
    decreases edits.len(),
{
    if i == edits.len() {
        assert(edits.subrange(0, i) =~= edits);
        assert(edits.subrange(i, i).len() == 0);
    } else {
        let front = edits.drop_last();
        lemma_net_growth_split(front, i);
        assert(front.subrange(0, i) =~= edits.subrange(0, i));
        let tail = edits.subrange(i, edits.len() as int);
        assert(tail.drop_last() =~= front.subrange(i, front.len() as int));
        assert(tail.last() == edits.last());
    }
}

/// Applying a transaction from the highest edit to the lowest replaces every
/// edited range of the source by its replacement, and keeps every byte that no
/// edit touches: behind the highest edit, between neighbours and before the
/// lowest.
pub proof fn law_edits_replace_their_own_source(bytes: Seq<u8>, edits: Seq<TextEdit>, i: int)
    requires
        applicable(edits),
        edits_on_boundaries(edits, bytes),
        starts_clean(bytes),
        0 <= i < edits.len(),
    ensures
        0 <= landing(edits, i),
        landing(edits, i) + edits[i].bytes().len() <= edited(bytes, edits).len(),
        edited(bytes, edits).subrange(
            landing(edits, i),
            landing(edits, i) + edits[i].bytes().len(),
        ) == edits[i].bytes(),
        ({
            let kept_end = if i == 0 {
                bytes.len() as int
            } else {
                edits[i - 1].start()
            };
            let from = landing(edits, i) + edits[i].bytes().len();
            &&& edits[i].end() <= kept_end
            &&& from + (kept_end - edits[i].end()) <= edited(bytes, edits).len()
            &&& edited(bytes, edits).subrange(from, from + (kept_end - edits[i].end()))
                == bytes.subrange(edits[i].end(), kept_end)
        }),
        edited(bytes, edits).subrange(0, edits.last().start()) == bytes.subrange(
            0,
            edits.last().start(),
        ),
    decreases edits.len(),
{
    lemma_edited(bytes, edits);
    let front = edits.drop_last();
    let last = edits.last();
    assert forall|k: int| 0 <= k < front.len() implies front[k] == edits[k] by {}
    lemma_edited(bytes, front);
    let before = edited(bytes, front);
    let after = edited(bytes, edits);
    let kept_end = if i == 0 {
        bytes.len() as int
    } else {
        edits[i - 1].start()
    };
    if i > 0 {
        assert(!edits_conflict(edits[i - 1], edits[i]));
    }
    if front.len() > 0 {
        assert(!edits_conflict(edits[front.len() - 1], last));
    }
    if i == edits.len() - 1 {
        assert(edits.subrange(i + 1, edits.len() as int).len() == 0);
        assert(after.subrange(last.start(), last.start() + last.bytes().len()) =~= last.bytes());
        let from = last.start() + last.bytes().len();
        assert(before.subrange(0, kept_end) =~= bytes.subrange(0, kept_end));
        assert(after.subrange(from, from + (kept_end - last.end())) =~= before.subrange(
            0,
            kept_end,
        ).subrange(last.end(), kept_end));
        assert(after.subrange(from, from + (kept_end - last.end())) =~= bytes.subrange(
            last.end(),
            kept_end,
        ));
    } else {
        law_edits_replace_their_own_source(bytes, front, i);
        let growth = last.bytes().len() - (last.end() - last.start());
        let tail = edits.subrange(i + 1, edits.len() as int);
        assert(tail.drop_last() =~= front.subrange(i + 1, front.len() as int));
        assert(tail.last() == last);
        assert(landing(edits, i) == landing(front, i) + growth);
        assert(!edits_conflict(edits[i], last));
        lemma_low_growth(edits, i);
        let at = landing(front, i);
        let n = edits[i].bytes().len();
        let m = kept_end - edits[i].end();
        assert(at >= last.end());
        assert(after.subrange(at + growth, at + growth + n) =~= before.subrange(at, at + n));
        assert(after.subrange(at + growth + n, at + growth + n + m) =~= before.subrange(
            at + n,
            at + n + m,
        ));
    }
}

/// The edits below edit `i`, but for the last, cannot remove more than lies
/// between the last and `i`.
proof fn lemma_low_growth(edits: Seq<TextEdit>, i: int)
    requires
        applicable(edits),
        0 <= i < edits.len() - 1,
    ensures
        landing(edits.drop_last(), i) >= edits.last().end(),
    decreases edits.len(),
{
    let front = edits.drop_last();
    let last = edits.last();
    assert forall|k: int| 0 <= k < front.len() implies front[k] == edits[k] by {}
    assert(!edits_conflict(edits[i], edits[edits.len() - 1]));
    if i == front.len() - 1 {
        assert(front.subrange(i + 1, front.len() as int).len() == 0);
    } else {
        lemma_low_growth(front, i);
        let tail = front.subrange(i + 1, front.len() as int);
        assert(tail.drop_last() =~= front.drop_last().subrange(i + 1, front.len() - 1));
        assert(tail.last() == front.last());
        assert(!edits_conflict(edits[front.len() - 1], edits[edits.len() - 1]));
    }
}

/// Edits inside `start..end`.
pub open spec fn edits_inside(edits: Seq<TextEdit>, start: int, end: int) -> bool {
    forall|i: int|
        0 <= i < edits.len() ==> start <= (#[trigger] edits[i]).start() && edits[i].end() <= end
}

/// Disjoint edits cannot remove more than there is between the bounds that
/// they lie in.
pub proof fn lemma_net_growth_within(edits: Seq<TextEdit>, start: int, end: int)
    requires
        applicable(edits),
        edits_inside(edits, start, end),
        start <= end,
    ensures
        net_growth(edits) >= -(end - start),
        net_growth(edits) <= inserted_len(edits),
    decreases edits.len(),
{
    if edits.len() > 0 {
        let front = edits.drop_last();
        let last = edits.last();
        assert(edits[edits.len() - 1] == last);
        assert(start <= last.start() <= last.end() <= end);
        assert forall|i: int| 0 <= i < front.len() implies last.end() <= (
        #[trigger] front[i]).start() && front[i].end() <= end by {
            assert(front[i] == edits[i]);
            assert(!edits_conflict(edits[i], edits[edits.len() - 1]));
        }
        assert(applicable(front)) by {
            assert forall|i: int, j: int|
                #![trigger front[i], front[j]]
                0 <= i < j < front.len() implies !edits_conflict(front[i], front[j]) by {
                assert(front[i] == edits[i] && front[j] == edits[j]);
            }
        }
        lemma_net_growth_within(front, last.end(), end);
    }
}

/// Behind all edits, boundaries only move.
pub proof fn lemma_edited_behind(bytes: Seq<u8>, edits: Seq<TextEdit>, offset: int)
    requires
        applicable(edits),
        edits_on_boundaries(edits, bytes),
        starts_clean(bytes),
        0 <= offset <= bytes.len(),
        edits_inside(edits, 0, offset),
    ensures
        at_boundary(edited(bytes, edits), offset + net_growth(edits)) <==> at_boundary(
            bytes,
            offset,
        ),
        0 <= offset + net_growth(edits) <= edited(bytes, edits).len(),
        edited(bytes, edits).subrange(
            offset + net_growth(edits),
            edited(bytes, edits).len() as int,
        ) == bytes.subrange(offset, bytes.len() as int),
    decreases edits.len(),
{
    lemma_edited(bytes, edits);
    if edits.len() > 0 {
        let front = edits.drop_last();
        let last = edits.last();
        assert(edits[edits.len() - 1] == last);
        assert forall|i: int| 0 <= i < front.len() implies front[i] == edits[i] by {}
        lemma_edited(bytes, front);
        lemma_edited_behind(bytes, front, offset);
        let before = edited(bytes, front);
        lemma_encoded(last.replacement@);
        assert(edits_inside(front, last.end(), offset)) by {
            assert forall|i: int| 0 <= i < front.len() implies last.end() <= (
            #[trigger] front[i]).start() && front[i].end() <= offset by {
                assert(front[i] == edits[i]);
                assert(!edits_conflict(edits[i], edits[edits.len() - 1]));
            }
        }
        lemma_net_growth_within(front, last.end(), offset);
        let at = offset + net_growth(front);
        assert(at >= last.end());
        if front.len() > 0 {
            assert(!edits_conflict(edits[front.len() - 1], edits[edits.len() - 1]));
            assert(at_boundary(before, last.start()) && at_boundary(before, last.end()));
        }
        lemma_splice_boundaries(before, last.start(), last.end(), last.bytes());
        let after = edited(bytes, edits);
        let moved = at - (last.end() - last.start()) + last.bytes().len();
        assert(moved == offset + net_growth(edits));
        assert(at_boundary(after, moved) <==> at_boundary(before, at));
        assert(after.subrange(moved, after.len() as int) =~= before.subrange(
            at,
            before.len() as int,
        ));
    } else {
        assert(bytes.subrange(offset, bytes.len() as int) =~= edited(bytes, edits).subrange(
            offset,
            bytes.len() as int,
        ));
    }
}

/// Before all edits, nothing changes.
pub proof fn lemma_edited_before(bytes: Seq<u8>, edits: Seq<TextEdit>, offset: int)
    requires
        applicable(edits),
        edits_on_boundaries(edits, bytes),
        starts_clean(bytes),
        0 <= offset <= bytes.len(),
        forall|i: int| 0 <= i < edits.len() ==> offset <= (#[trigger] edits[i]).start(),
    ensures
        at_boundary(edited(bytes, edits), offset) <==> at_boundary(bytes, offset),
        offset <= edited(bytes, edits).len(),
        edited(bytes, edits).subrange(0, offset) == bytes.subrange(0, offset),
{
    lemma_edited(bytes, edits);
    if edits.len() > 0 {
        let last = edits.last();
        assert(edits[edits.len() - 1] == last);
        let after = edited(bytes, edits);
        assert(after.subrange(0, offset) =~= after.subrange(0, last.start()).subrange(0, offset));
        assert(bytes.subrange(0, offset) =~= bytes.subrange(0, last.start()).subrange(0, offset));
    }
}

/// Where one edit puts a range outside editable source. Its start goes right
/// and its end left, so that an insertion at either edge stays outside; an
/// empty range stays empty.
pub open spec fn carried_by(range: (int, int), edit: TextEdit) -> (int, int) {
    let len = edit.bytes().len() as int;
    let start = moved_offset(range.0, AnchorBias::Right, edit.start(), edit.end(), len);
    (
        start,
        if range.0 >= range.1 {
            start
        } else {
            moved_offset(range.1, AnchorBias::Left, edit.start(), edit.end(), len)
        },
    )
}

/// Where edits put a range outside editable source.
pub open spec fn carried(range: (int, int), edits: Seq<TextEdit>) -> (int, int)
    decreases edits.len(),
{
    if edits.len() == 0 {
        range
    } else {
        carried_by(carried(range, edits.drop_last()), edits.last())
    }
}

/// The two ends of a range.
pub open spec fn ends(range: Range<usize>) -> (int, int) {
    (range.start as int, range.end as int)
}

/// No edit ends behind what a `usize` can hold.
pub open spec fn edits_addressable(edits: Seq<TextEdit>) -> bool {
    forall|i: int|
        0 <= i < edits.len() ==> (#[trigger] edits[i]).start() + edits[i].bytes().len()
            <= usize::MAX
}

/// Where edits put a range outside editable source.
pub fn transform_source_range(range: &Range<usize>, edits: &[TextEdit]) -> (moved: Range<usize>)
    requires
        edits_addressable(edits@),
    ensures
        ends(moved) == carried(ends(*range), edits@),
{
    let mut start: usize = range.start;
    let mut end: usize = range.end;
    let mut i: usize = 0;
    assert(edits@.subrange(0, 0) =~= Seq::empty());
    while i < edits.len()
        invariant
            i <= edits@.len(),
            edits_addressable(edits@),
            (start as int, end as int) == carried(ends(*range), edits@.subrange(0, i as int)),
        decreases edits@.len() - i,
    {
        proof {
            let part = edits@.subrange(0, i + 1);
            assert(part.drop_last() =~= edits@.subrange(0, i as int));
            assert(part.last() == edits@[i as int]);
        }
        let edit = &edits[i];
        let was_empty = start >= end;
        let edit_range = edit.range();
        let len = edit.replacement_len();
        start = transform_offset(start, AnchorBias::Right, &edit_range, len);
        end = if was_empty {
            start
        } else {
            transform_offset(end, AnchorBias::Left, &edit_range, len)
        };
        i += 1;
    }
    assert(edits@.subrange(0, edits@.len() as int) =~= edits@);
    start..end
}

} // verus!
