//! Undo records and the budget that they are kept in.

use crate::document::position::{saturated, DocumentPosition};
use crate::document::transaction::EditOrigin;
use crate::identity::{lawful_eq, lawful_id, same_id};
use crate::text::{byte_len, push_text, same_text};
use std::ops::Range;
use vstd::prelude::*;
use vstd::string::*;
use vstd::utf8::*;

verus! {

pub const MAX_UNDO_RECORDS: usize = 1000;

pub const MAX_UNDO_CHANGES: usize = 1000;

pub const MAX_UNDO_BYTES: usize = 16 * 1024 * 1024;

/// The two ends of a selection, anchor first.
pub type SelectedPositions<I> = Option<(DocumentPosition<I>, DocumentPosition<I>)>;

/// One replacement in region-relative coordinates, with the text on both
/// sides of it.
#[derive(Debug)]
pub struct UndoChange {
    pub(crate) range: Range<usize>,
    pub(crate) removed: String,
    pub(crate) inserted: String,
}

/// What a change says.
#[verifier::ext_equal]
pub struct ChangeView {
    pub start: int,
    pub end: int,
    pub removed: Seq<u8>,
    pub inserted: Seq<u8>,
}

impl View for UndoChange {
    type V = ChangeView;

    open(crate) spec fn view(&self) -> ChangeView {
        ChangeView {
            start: self.range.start as int,
            end: self.range.end as int,
            removed: encode_utf8(self.removed@),
            inserted: encode_utf8(self.inserted@),
        }
    }
}

impl UndoChange {
    pub fn new(range: Range<usize>, removed: String, inserted: String) -> (change: Self)
        ensures
            change@ == (ChangeView {
                start: range.start as int,
                end: range.end as int,
                removed: encode_utf8(removed@),
                inserted: encode_utf8(inserted@),
            }),
    {
        UndoChange { range, removed, inserted }
    }

    /// The text that the change puts in.
    pub fn inserted(&self) -> (text: &str)
        ensures
            text.spec_bytes() == self@.inserted,
    {
        self.inserted.as_str()
    }
}

impl ChangeView {
    /// The bytes that the change holds.
    pub open spec fn bytes(self) -> nat {
        self.removed.len() + self.inserted.len()
    }
}

/// A record owns only replaced text, in region-relative coordinates. Multiple
/// changes are in application order; undo replays them in reverse.
#[derive(Debug)]
pub struct UndoRecord<I> {
    pub(crate) region_id: I,
    pub(crate) changes: Vec<UndoChange>,
    pub(crate) selection_before: SelectedPositions<I>,
    pub(crate) selection_after: SelectedPositions<I>,
}

/// What a record says.
#[verifier::ext_equal]
pub struct RecordView<I> {
    pub region_id: I,
    pub changes: Seq<ChangeView>,
    pub selection_before: SelectedPositions<I>,
    pub selection_after: SelectedPositions<I>,
}

/// What changes say.
pub open spec fn change_views(changes: Seq<UndoChange>) -> Seq<ChangeView> {
    changes.map_values(|c: UndoChange| c@)
}

impl<I> View for UndoRecord<I> {
    type V = RecordView<I>;

    open(crate) spec fn view(&self) -> RecordView<I> {
        RecordView {
            region_id: self.region_id,
            changes: change_views(self.changes@),
            selection_before: self.selection_before,
            selection_after: self.selection_after,
        }
    }
}

impl<I> UndoRecord<I> {
    pub fn new(
        region_id: I,
        changes: Vec<UndoChange>,
        selection_before: SelectedPositions<I>,
        selection_after: SelectedPositions<I>,
    ) -> (record: Self)
        ensures
            record@ == (RecordView {
                region_id,
                changes: change_views(changes@),
                selection_before,
                selection_after,
            }),
    {
        UndoRecord { region_id, changes, selection_before, selection_after }
    }

    /// The changes in application order.
    pub fn changes(&self) -> (changes: &[UndoChange])
        ensures
            change_views(changes@) == self@.changes,
    {
        self.changes.as_slice()
    }
}

/// The bytes that changes hold.
pub open spec fn changes_bytes(changes: Seq<ChangeView>) -> nat
    decreases changes.len(),
{
    if changes.len() == 0 {
        0
    } else {
        changes_bytes(changes.drop_last()) + changes.last().bytes()
    }
}

impl<I> RecordView<I> {
    pub open spec fn bytes(self) -> nat {
        changes_bytes(self.changes)
    }

    /// Nothing changes: every change puts back what it takes.
    pub open spec fn is_void(self) -> bool {
        forall|i: int|
            0 <= i < self.changes.len() ==> (#[trigger] self.changes[i]).removed
                == self.changes[i].inserted
    }
}

/// The bytes that records hold.
pub open spec fn records_bytes<I>(records: Seq<RecordView<I>>) -> nat
    decreases records.len(),
{
    if records.len() == 0 {
        0
    } else {
        records_bytes(records.drop_last()) + records.last().bytes()
    }
}

pub proof fn lemma_change_bytes(changes: Seq<ChangeView>, i: int)
    requires
        0 <= i < changes.len(),
    ensures
        changes[i].bytes() <= changes_bytes(changes),
    decreases changes.len(),
{
    if i < changes.len() - 1 {
        lemma_change_bytes(changes.drop_last(), i);
    }
}

pub proof fn lemma_changes_bytes_concat(a: Seq<ChangeView>, b: Seq<ChangeView>)
    ensures
        changes_bytes(a + b) == changes_bytes(a) + changes_bytes(b),
    decreases b.len(),
{
    if b.len() == 0 {
        assert(a + b =~= a);
    } else {
        lemma_changes_bytes_concat(a, b.drop_last());
        assert((a + b).drop_last() =~= a + b.drop_last());
    }
}

/// `String::capacity`: the bytes that a string has reserved, which are at
/// least those that it holds. How many more is up to the allocator.
#[verifier::external_body]
fn string_capacity(text: &String) -> (capacity: usize)
    ensures
        capacity >= encode_utf8(text@).len(),
{
    text.capacity()
}

/// Sum of sizes.
pub open spec fn total(sizes: Seq<usize>) -> nat
    decreases sizes.len(),
{
    if sizes.len() == 0 {
        0
    } else {
        sizes[0] as nat + total(sizes.subrange(1, sizes.len() as int))
    }
}

/// Capacities that texts of a record may have reserved: one for each text that
/// a change takes out and one for each that it puts in, in the order of the
/// changes, and each at least what the text holds.
pub open spec fn caps_cover<I>(caps: Seq<usize>, record: RecordView<I>) -> bool {
    &&& caps.len() == 2 * record.changes.len()
    &&& forall|i: int|
        0 <= i < record.changes.len() ==> caps[2 * i] >= (
        #[trigger] record.changes[i]).removed.len() && caps[2 * i + 1]
            >= record.changes[i].inserted.len()
}

/// A number of bytes that a record may have reserved, as far as they can be
/// counted.
pub open spec fn covers<I>(size: usize, record: RecordView<I>) -> bool {
    exists|caps: Seq<usize>| #[trigger]
        caps_cover(caps, record) && size == saturated(total(caps) as int)
}

proof fn lemma_total_push(sizes: Seq<usize>, size: usize)
    ensures
        total(sizes.push(size)) == total(sizes) + size,
    decreases sizes.len(),
{
    let all = sizes.push(size);
    let rest = all.subrange(1, all.len() as int);
    assert(total(all) == all[0] + total(rest));
    if sizes.len() == 0 {
        assert(rest =~= Seq::empty());
    } else {
        let less = sizes.subrange(1, sizes.len() as int);
        assert(all[0] == sizes[0]);
        assert(rest =~= less.push(size));
        lemma_total_push(less, size);
    }
}

/// Capacities sum up to at least what the record holds.
proof fn lemma_caps_total<I>(caps: Seq<usize>, record: RecordView<I>)
    requires
        caps_cover(caps, record),
    ensures
        total(caps) >= record.bytes(),
    decreases record.changes.len(),
{
    let n = record.changes.len() as int;
    if n > 0 {
        let front = caps.subrange(0, 2 * n - 2);
        let fewer = RecordView { changes: record.changes.drop_last(), ..record };
        assert forall|i: int| 0 <= i < fewer.changes.len() implies front[2 * i] >= (
        #[trigger] fewer.changes[i]).removed.len() && front[2 * i + 1]
            >= fewer.changes[i].inserted.len() by {
            assert(fewer.changes[i] == record.changes[i]);
        }
        lemma_caps_total(front, fewer);
        assert(caps =~= front.push(caps[2 * n - 2]).push(caps[2 * n - 1]));
        lemma_total_push(front, caps[2 * n - 2]);
        lemma_total_push(front.push(caps[2 * n - 2]), caps[2 * n - 1]);
        assert(record.changes[n - 1] == record.changes.last());
    }
}

/// What a record may have reserved is at least what it holds.
proof fn lemma_covers<I>(size: usize, record: RecordView<I>)
    requires
        covers(size, record),
    ensures
        size >= record.bytes() || size == usize::MAX,
{
    let caps = choose|caps: Seq<usize>| #[trigger]
        caps_cover(caps, record) && size == saturated(total(caps) as int);
    lemma_caps_total(caps, record);
}

/// The sum of capacities, as far as it can be counted.
pub fn reserved_bytes(capacities: &Vec<usize>) -> (bytes: usize)
    ensures
        bytes == saturated(total(capacities@) as int),
{
    let mut bytes: usize = 0;
    let mut i: usize = 0;
    assert(capacities@.subrange(0, 0) =~= Seq::empty());
    while i < capacities.len()
        invariant
            i <= capacities.len(),
            bytes == saturated(total(capacities@.subrange(0, i as int)) as int),
        decreases capacities.len() - i,
    {
        proof {
            let part = capacities@.subrange(0, i as int);
            lemma_total_push(part, capacities@[i as int]);
            assert(capacities@.subrange(0, i + 1) =~= part.push(capacities@[i as int]));
        }
        bytes = bytes.saturating_add(capacities[i]);
        i += 1;
    }
    assert(capacities@.subrange(0, capacities@.len() as int) =~= capacities@);
    bytes
}

impl<I> UndoRecord<I> {
    /// The bytes that the record holds, as far as they can be counted.
    pub fn bytes(&self) -> (bytes: usize)
        ensures
            bytes == saturated(self@.bytes() as int),
    {
        let mut bytes: usize = 0;
        let mut i: usize = 0;
        assert(change_views(self.changes@).subrange(0, 0) =~= Seq::empty());
        while i < self.changes.len()
            invariant
                i <= self.changes.len(),
                bytes == saturated(
                    changes_bytes(change_views(self.changes@).subrange(0, i as int)) as int,
                ),
            decreases self.changes.len() - i,
        {
            proof {
                let part = change_views(self.changes@).subrange(0, i + 1);
                assert(part.drop_last() =~= change_views(self.changes@).subrange(0, i as int));
                assert(part.last() == self.changes@[i as int]@);
            }
            let change = &self.changes[i];
            let held = byte_len(change.removed.as_str()).saturating_add(
                byte_len(change.inserted.as_str()),
            );
            bytes = bytes.saturating_add(held);
            i += 1;
        }
        assert(change_views(self.changes@).subrange(0, self.changes@.len() as int)
            =~= change_views(self.changes@));
        bytes
    }

    /// What each text of the record has reserved: of every change the text that
    /// it takes out, then the text that it puts in.
    pub fn capacities(&self) -> (capacities: Vec<usize>)
        ensures
            caps_cover(capacities@, self@),
    {
        let mut capacities: Vec<usize> = Vec::new();
        let mut i: usize = 0;
        while i < self.changes.len()
            invariant
                i <= self.changes.len(),
                capacities@.len() == 2 * i,
                forall|k: int|
                    0 <= k < i ==> capacities@[2 * k] >= (
                    #[trigger] self@.changes[k]).removed.len() && capacities@[2 * k + 1]
                        >= self@.changes[k].inserted.len(),
            decreases self.changes.len() - i,
        {
            let change = &self.changes[i];
            assert(self@.changes[i as int] == change@);
            capacities.push(string_capacity(&change.removed));
            capacities.push(string_capacity(&change.inserted));
            i += 1;
        }
        capacities
    }

    /// The bytes that the record has reserved, as far as they can be counted.
    pub fn allocated_bytes(&self) -> (bytes: usize)
        ensures
            exists|caps: Seq<usize>| #[trigger]
                caps_cover(caps, self@) && bytes == saturated(total(caps) as int),
    {
        let capacities = self.capacities();
        reserved_bytes(&capacities)
    }

    /// Whether every change puts back what it takes.
    fn is_void(&self) -> (void: bool)
        ensures
            void == self@.is_void(),
    {
        let mut i: usize = 0;
        while i < self.changes.len()
            invariant
                i <= self.changes.len(),
                forall|k: int|
                    0 <= k < i ==> (#[trigger] self@.changes[k]).removed
                        == self@.changes[k].inserted,
            decreases self.changes.len() - i,
        {
            let change = &self.changes[i];
            assert(self@.changes[i as int] == change@);
            if !same_text(change.removed.as_str(), change.inserted.as_str()) {
                return false;
            }
            i += 1;
        }
        true
    }
}

// ---------------------------------------------------------------------------
// Coalescing
// ---------------------------------------------------------------------------

/// How a record continues the one before.
#[derive(Clone, Copy, Debug, PartialEq, Eq, Structural)]
pub enum MergeKind {
    /// It does not.
    Separate,
    /// It replaces what a composition has inserted so far.
    Refine,
    /// It is a further step of the same composition.
    Append,
    /// It types on.
    Insert,
    /// It deletes the text before.
    DeleteBackward,
    /// It deletes the text behind.
    DeleteForward,
}

/// A line feed or a carriage return.
pub open spec fn has_line_break(bytes: Seq<u8>) -> bool {
    exists|i: int| 0 <= i < bytes.len() && (#[trigger] bytes[i] == 0x0a || bytes[i] == 0x0d)
}

/// How one change of a user continues the one before.
pub open spec fn user_merge(left: ChangeView, right: ChangeView) -> MergeKind {
    if left.bytes() + right.bytes() > MAX_UNDO_BYTES {
        MergeKind::Separate
    } else if left.removed.len() == 0 && right.removed.len() == 0 && right.start == left.start
        + left.inserted.len() && !has_line_break(left.inserted) && !has_line_break(
        right.inserted,
    ) {
        MergeKind::Insert
    } else if left.inserted.len() == 0 && right.inserted.len() == 0 && right.end == left.start {
        MergeKind::DeleteBackward
    } else if left.inserted.len() == 0 && right.inserted.len() == 0 && right.start == left.start {
        MergeKind::DeleteForward
    } else {
        MergeKind::Separate
    }
}

/// A change replaces exactly what the one before has inserted.
pub open spec fn refines(left: ChangeView, right: ChangeView) -> bool {
    right.start == left.start && right.end == left.start + left.inserted.len() && right.removed
        == left.inserted
}

/// How a record continues the one before. Typing continues typing without line
/// breaks, and deletions continue next to each other. A composition
/// replaces what it has inserted, or adds a step.
pub open spec fn merge_kind<I>(
    previous: RecordView<I>,
    record: RecordView<I>,
    origin: EditOrigin,
) -> MergeKind {
    let single = previous.changes.len() == 1 && record.changes.len() == 1;
    if origin == EditOrigin::Composition {
        if single && refines(previous.changes[0], record.changes[0]) {
            if previous.changes[0].removed.len() + record.changes[0].inserted.len()
                > MAX_UNDO_BYTES {
                MergeKind::Separate
            } else {
                MergeKind::Refine
            }
        } else if previous.changes.len() + record.changes.len() <= MAX_UNDO_CHANGES
            && previous.bytes() + record.bytes() <= MAX_UNDO_BYTES {
            MergeKind::Append
        } else {
            MergeKind::Separate
        }
    } else if origin == EditOrigin::User && single {
        user_merge(previous.changes[0], record.changes[0])
    } else {
        MergeKind::Separate
    }
}

/// Two single changes as one.
pub open spec fn merged_change(left: ChangeView, right: ChangeView, kind: MergeKind) -> ChangeView {
    match kind {
        MergeKind::Refine => ChangeView { inserted: right.inserted, ..left },
        MergeKind::Insert => ChangeView { inserted: left.inserted + right.inserted, ..left },
        MergeKind::DeleteBackward => ChangeView {
            start: right.start,
            removed: right.removed + left.removed,
            ..left
        },
        MergeKind::DeleteForward => ChangeView {
            end: saturated(left.end + right.removed.len()),
            removed: left.removed + right.removed,
            ..left
        },
        _ => left,
    }
}

/// A record and its continuation as one.
pub open spec fn merged_record<I>(
    previous: RecordView<I>,
    record: RecordView<I>,
    kind: MergeKind,
) -> RecordView<I> {
    RecordView {
        region_id: previous.region_id,
        changes: if kind == MergeKind::Append {
            previous.changes + record.changes
        } else {
            seq![merged_change(previous.changes[0], record.changes[0], kind)]
        },
        selection_before: previous.selection_before,
        selection_after: record.selection_after,
    }
}

/// Undo and redo stacks, newest last.
#[derive(Debug)]
pub struct DocumentUndoManager<I> {
    pub(crate) undo: Vec<UndoRecord<I>>,
    pub(crate) redo: Vec<UndoRecord<I>>,
    pub(crate) coalescing: Option<EditOrigin>,
}

/// What an undo manager says.
#[verifier::ext_equal]
pub struct UndoView<I> {
    pub undo: Seq<RecordView<I>>,
    pub redo: Seq<RecordView<I>>,
    pub coalescing: Option<EditOrigin>,
}

/// What records say.
pub open spec fn record_views<I>(records: Seq<UndoRecord<I>>) -> Seq<RecordView<I>> {
    records.map_values(|r: UndoRecord<I>| r@)
}

impl<I> View for DocumentUndoManager<I> {
    type V = UndoView<I>;

    open(crate) spec fn view(&self) -> UndoView<I> {
        UndoView {
            undo: record_views(self.undo@),
            redo: record_views(self.redo@),
            coalescing: self.coalescing,
        }
    }
}

/// The origins whose edits are undone together.
pub open spec fn coalescing_of(origin: EditOrigin) -> Option<EditOrigin> {
    if origin == EditOrigin::User || origin == EditOrigin::Composition {
        Some(origin)
    } else {
        None
    }
}

/// How many of the oldest records go, so that at most `records` remain and
/// their sizes stay within `bytes`.
pub open spec fn evicted(sizes: Seq<usize>, records: nat, bytes: nat) -> nat
    decreases sizes.len(),
{
    if sizes.len() > records || total(sizes) > bytes {
        if sizes.len() == 0 {
            0
        } else {
            1 + evicted(sizes.subrange(1, sizes.len() as int), records, bytes)
        }
    } else {
        0
    }
}

impl<I> UndoView<I> {
    pub open spec fn empty() -> UndoView<I> {
        UndoView { undo: Seq::empty(), redo: Seq::empty(), coalescing: None }
    }

    pub open spec fn broken(self) -> UndoView<I> {
        UndoView { coalescing: None, ..self }
    }

    /// After a composition has ended.
    pub open spec fn finished(self) -> UndoView<I> {
        if self.coalescing == Some(EditOrigin::Composition) {
            self.broken()
        } else {
            self
        }
    }

    /// A record may continue the newest one.
    pub open spec fn continues(self, record: RecordView<I>, origin: EditOrigin) -> bool {
        &&& self.undo.len() > 0
        &&& self.coalescing == Some(origin)
        &&& self.undo.last().region_id == record.region_id
        &&& self.undo.last().selection_after == record.selection_before
        &&& merge_kind(self.undo.last(), record, origin) != MergeKind::Separate
    }

    /// With a record added, before the budget is looked at. A record that
    /// changes nothing does not hide the one before.
    pub open spec fn added(self, record: RecordView<I>, origin: EditOrigin) -> UndoView<I> {
        let undo = if self.continues(record, origin) {
            self.undo.drop_last().push(
                merged_record(
                    self.undo.last(),
                    record,
                    merge_kind(self.undo.last(), record, origin),
                ),
            )
        } else {
            self.undo.push(record)
        };
        if undo.last().is_void() {
            UndoView { undo: undo.drop_last(), redo: Seq::empty(), coalescing: None }
        } else {
            UndoView { undo, redo: Seq::empty(), coalescing: coalescing_of(origin) }
        }
    }

    /// Cut to a budget, given the sizes of the records. A newest record of too
    /// many changes takes everything with it.
    pub open spec fn trimmed(self, records: nat, bytes: nat, sizes: Seq<usize>) -> UndoView<I> {
        let undo = if self.undo.len() > 0 && self.undo.last().changes.len() > MAX_UNDO_CHANGES {
            Seq::empty()
        } else {
            self.undo.subrange(evicted(sizes, records, bytes) as int, self.undo.len() as int)
        };
        UndoView {
            undo,
            redo: self.redo,
            coalescing: if undo.len() == 0 {
                None
            } else {
                self.coalescing
            },
        }
    }

    /// The records to undo and to redo are within the budget, and so is the
    /// text of each.
    pub open spec fn within_budget(self) -> bool {
        &&& self.undo.len() + self.redo.len() <= MAX_UNDO_RECORDS
        &&& forall|i: int|
            0 <= i < self.undo.len() ==> (#[trigger] self.undo[i]).bytes() <= MAX_UNDO_BYTES
        &&& forall|i: int|
            0 <= i < self.redo.len() ==> (#[trigger] self.redo[i]).bytes() <= MAX_UNDO_BYTES
    }
}

/// Sizes that records may have reserved, one for one.
pub open spec fn sizes_cover<I>(sizes: Seq<usize>, records: Seq<RecordView<I>>) -> bool {
    &&& sizes.len() == records.len()
    &&& forall|i: int| 0 <= i < sizes.len() ==> covers(#[trigger] sizes[i], records[i])
}

proof fn lemma_total_skip(sizes: Seq<usize>, k: int)
    requires
        0 <= k < sizes.len(),
    ensures
        total(sizes.subrange(k, sizes.len() as int)) == sizes[k] + total(
            sizes.subrange(k + 1, sizes.len() as int),
        ),
{
    let part = sizes.subrange(k, sizes.len() as int);
    assert(part[0] == sizes[k]);
    assert(part.subrange(1, part.len() as int) =~= sizes.subrange(k + 1, sizes.len() as int));
}

/// What remains is within the budget, and nothing goes that could stay.
pub proof fn law_eviction_is_minimal(sizes: Seq<usize>, records: nat, bytes: nat)
    ensures
        evicted(sizes, records, bytes) <= sizes.len(),
        ({
            let kept = sizes.subrange(
                evicted(sizes, records, bytes) as int,
                sizes.len() as int,
            );
            kept.len() <= records && total(kept) <= bytes
        }),
        forall|k: int|
            0 <= k < evicted(sizes, records, bytes) ==> sizes.len() - k > records || total(
                #[trigger] sizes.subrange(k, sizes.len() as int),
            ) > bytes,
    decreases sizes.len(),
{
    let n = sizes.len() as int;
    assert(sizes.subrange(0, n) =~= sizes);
    if sizes.len() > records || total(sizes) > bytes {
        let rest = sizes.subrange(1, n);
        law_eviction_is_minimal(rest, records, bytes);
        let e = evicted(rest, records, bytes) as int;
        assert(rest.subrange(e, n - 1) =~= sizes.subrange(e + 1, n));
        assert forall|k: int| 0 <= k < evicted(sizes, records, bytes) implies sizes.len() - k
            > records || total(#[trigger] sizes.subrange(k, n)) > bytes by {
            if k > 0 {
                assert(rest.subrange(k - 1, n - 1) =~= sizes.subrange(k, n));
            }
        }
    }
}

/// How many go is the first index from which the rest fits.
proof fn lemma_evicted_is(sizes: Seq<usize>, records: nat, bytes: nat, k: int)
    requires
        0 <= k <= sizes.len(),
        sizes.len() - k <= records,
        total(sizes.subrange(k, sizes.len() as int)) <= bytes,
        k > 0 ==> sizes.len() - (k - 1) > records || total(
            sizes.subrange(k - 1, sizes.len() as int),
        ) > bytes,
    ensures
        evicted(sizes, records, bytes) == k,
{
    let n = sizes.len() as int;
    law_eviction_is_minimal(sizes, records, bytes);
    let e = evicted(sizes, records, bytes) as int;
    if k < e {
        assert(sizes.len() - k > records || total(sizes.subrange(k, n)) > bytes);
    } else if e < k {
        lemma_total_order(sizes, e, k - 1);
    }
}

proof fn lemma_total_order(sizes: Seq<usize>, i: int, j: int)
    requires
        0 <= i <= j <= sizes.len(),
    ensures
        total(sizes.subrange(j, sizes.len() as int)) <= total(
            sizes.subrange(i, sizes.len() as int),
        ),
    decreases j - i,
{
    if i < j {
        lemma_total_skip(sizes, i);
        lemma_total_order(sizes, i + 1, j);
    }
}

/// Each size is at most the sum.
proof fn lemma_total_member(sizes: Seq<usize>, i: int)
    requires
        0 <= i < sizes.len(),
    ensures
        sizes[i] <= total(sizes),
{
    lemma_total_order(sizes, 0, i);
    lemma_total_skip(sizes, i);
    assert(sizes.subrange(0, sizes.len() as int) =~= sizes);
}

fn check_line_break(text: &str) -> (found: bool)
    ensures
        found == has_line_break(text.spec_bytes()),
{
    let bytes = text.as_bytes();
    let mut i: usize = 0;
    while i < bytes.len()
        invariant
            i <= bytes@.len(),
            bytes@ == text.spec_bytes(),
            forall|k: int| 0 <= k < i ==> !(#[trigger] bytes@[k] == 0x0a || bytes@[k] == 0x0d),
        decreases bytes@.len() - i,
    {
        if bytes[i] == 0x0a || bytes[i] == 0x0d {
            assert(text.spec_bytes()[i as int] == 0x0a || text.spec_bytes()[i as int] == 0x0d);
            return true;
        }
        i += 1;
    }
    false
}

impl UndoChange {
    /// The bytes that the change holds, as far as they can be counted.
    fn held(&self) -> (bytes: usize)
        ensures
            bytes == saturated(self@.bytes() as int),
    {
        byte_len(self.removed.as_str()).saturating_add(byte_len(self.inserted.as_str()))
    }

    fn user_merge(&self, right: &UndoChange) -> (kind: MergeKind)
        ensures
            kind == user_merge(self@, right@),
    {
        let left_inserted = byte_len(self.inserted.as_str());
        let left_removed = byte_len(self.removed.as_str());
        let right_inserted = byte_len(right.inserted.as_str());
        let right_removed = byte_len(right.removed.as_str());
        if self.held().saturating_add(right.held()) > MAX_UNDO_BYTES {
            return MergeKind::Separate;
        }
        if left_removed == 0 && right_removed == 0 && right.range.start >= self.range.start
            && right.range.start - self.range.start == left_inserted && !check_line_break(
            self.inserted.as_str(),
        ) && !check_line_break(right.inserted.as_str()) {
            MergeKind::Insert
        } else if left_inserted == 0 && right_inserted == 0 && right.range.end
            == self.range.start {
            MergeKind::DeleteBackward
        } else if left_inserted == 0 && right_inserted == 0 && right.range.start
            == self.range.start {
            MergeKind::DeleteForward
        } else {
            MergeKind::Separate
        }
    }

    fn refined_by(&self, right: &UndoChange) -> (refined: bool)
        ensures
            refined == refines(self@, right@),
    {
        right.range.start == self.range.start && right.range.end >= self.range.start
            && right.range.end - self.range.start == byte_len(self.inserted.as_str()) && same_text(
            right.removed.as_str(),
            self.inserted.as_str(),
        )
    }

    /// This change and the next as one.
    fn merge(self, right: UndoChange, kind: MergeKind) -> (merged: UndoChange)
        ensures
            merged@ == merged_change(self@, right@, kind),
    {
        let ghost target = merged_change(self@, right@, kind);
        let UndoChange { range, removed, inserted } = self;
        let mut range = range;
        let mut removed = removed;
        let mut inserted = inserted;
        match kind {
            MergeKind::Refine => {
                inserted = right.inserted;
            },
            MergeKind::Insert => {
                push_text(&mut inserted, right.inserted.as_str());
            },
            MergeKind::DeleteBackward => {
                let mut joined = right.removed;
                push_text(&mut joined, removed.as_str());
                removed = joined;
                range = right.range.start..range.end;
            },
            MergeKind::DeleteForward => {
                let end = range.end.saturating_add(byte_len(right.removed.as_str()));
                range = range.start..end;
                push_text(&mut removed, right.removed.as_str());
            },
            _ => {},
        }
        let merged = UndoChange { range, removed, inserted };
        assert(merged@ =~= target);
        merged
    }
}

/// Whether two optional selections are the same.
fn same_positions<I: Eq>(left: &SelectedPositions<I>, right: &SelectedPositions<I>) -> (same: bool)
    requires
        lawful_eq::<I>(),
    ensures
        same == (*left == *right),
{
    match (left, right) {
        (None, None) => true,
        (Some(left), Some(right)) => same_position(&left.0, &right.0) && same_position(
            &left.1,
            &right.1,
        ),
        _ => false,
    }
}

/// Whether two positions are the same.
pub(crate) fn same_position<I: Eq>(left: &DocumentPosition<I>, right: &DocumentPosition<I>) -> (same:
    bool)
    requires
        lawful_eq::<I>(),
    ensures
        same == (*left == *right),
{
    same_id(&left.node_id, &right.node_id) && left.offset == right.offset && left.affinity
        == right.affinity
}

impl<I: Eq> UndoRecord<I> {
    fn merge_kind(&self, record: &UndoRecord<I>, origin: EditOrigin) -> (kind: MergeKind)
        ensures
            kind == merge_kind(self@, record@, origin),
    {
        let single = self.changes.len() == 1 && record.changes.len() == 1;
        if origin == EditOrigin::Composition {
            if single && self.changes[0].refined_by(&record.changes[0]) {
                let held = byte_len(self.changes[0].removed.as_str()).saturating_add(
                    byte_len(record.changes[0].inserted.as_str()),
                );
                if held > MAX_UNDO_BYTES {
                    MergeKind::Separate
                } else {
                    MergeKind::Refine
                }
            } else if self.changes.len() <= MAX_UNDO_CHANGES && record.changes.len()
                <= MAX_UNDO_CHANGES - self.changes.len() && self.bytes().saturating_add(
                record.bytes(),
            ) <= MAX_UNDO_BYTES {
                MergeKind::Append
            } else {
                MergeKind::Separate
            }
        } else if origin == EditOrigin::User && single {
            self.changes[0].user_merge(&record.changes[0])
        } else {
            MergeKind::Separate
        }
    }

    /// This record and its continuation as one.
    fn merge(self, record: UndoRecord<I>, kind: MergeKind) -> (merged: UndoRecord<I>)
        requires
            kind != MergeKind::Append ==> self.changes@.len() == 1 && record.changes@.len() == 1,
        ensures
            merged@ == merged_record(self@, record@, kind),
    {
        let ghost target = merged_record(self@, record@, kind);
        let ghost parts = (self@.changes, record@.changes);
        let UndoRecord { region_id, changes, selection_before, selection_after: _ } = self;
        let mut changes = changes;
        let mut more = record.changes;
        if kind == MergeKind::Append {
            changes.append(&mut more);
            assert(change_views(changes@) =~= parts.0 + parts.1);
        } else {
            let left = changes.pop();
            let right = more.pop();
            if let (Some(left), Some(right)) = (left, right) {
                assert(left@ == parts.0[0]);
                assert(right@ == parts.1[0]);
                changes.push(left.merge(right, kind));
            }
            assert(change_views(changes@) =~= seq![merged_change(parts.0[0], parts.1[0], kind)]);
        }
        let merged = UndoRecord {
            region_id,
            changes,
            selection_before,
            selection_after: record.selection_after,
        };
        assert(merged@ =~= target);
        merged
    }
}

impl<I: Clone + Eq> DocumentUndoManager<I> {
    /// Nothing to undo or redo.
    pub fn new() -> (manager: Self)
        ensures
            manager@ == UndoView::<I>::empty(),
            manager@.within_budget(),
    {
        let manager = DocumentUndoManager {
            undo: Vec::new(),
            redo: Vec::new(),
            coalescing: None,
        };
        assert(manager@ =~= UndoView::<I>::empty());
        manager
    }

    /// The records that can be undone, newest last.
    pub fn undo_records(&self) -> (records: &[UndoRecord<I>])
        ensures
            record_views(records@) == self@.undo,
    {
        self.undo.as_slice()
    }

    /// The records that can be redone, newest last.
    pub fn redo_records(&self) -> (records: &[UndoRecord<I>])
        ensures
            record_views(records@) == self@.redo,
    {
        self.redo.as_slice()
    }

    /// Adds a record, before the budget is looked at.
    pub fn add(&mut self, record: UndoRecord<I>, origin: EditOrigin)
        requires
            lawful_id::<I>(),
        ensures
            final(self)@ == old(self)@.added(record@, origin),
    {
        let ghost before = self@;
        self.redo.clear();
        let mut kind = MergeKind::Separate;
        let count = self.undo.len();
        if count > 0 && self.coalescing == Some(origin) {
            let previous = &self.undo[count - 1];
            assert(previous@ == before.undo.last());
            if same_id(&previous.region_id, &record.region_id) && same_positions(
                &previous.selection_after,
                &record.selection_before,
            ) {
                kind = previous.merge_kind(&record, origin);
            }
        }
        assert(kind != MergeKind::Separate <==> before.continues(record@, origin));
        if kind == MergeKind::Separate {
            self.undo.push(record);
            assert(record_views(self.undo@) =~= before.undo.push(record@));
        } else {
            let previous = self.undo.pop();
            if let Some(previous) = previous {
                assert(previous@ == before.undo.last());
                let merged = previous.merge(record, kind);
                self.undo.push(merged);
                assert(record_views(self.undo@) =~= before.undo.drop_last().push(merged@));
            }
        }
        let ghost undo = record_views(self.undo@);
        let count = self.undo.len();
        assert(self.undo@[count - 1]@ == undo.last());
        // A canceled composition contributes no text change and must not hide
        // the previous undo entry.
        if self.undo[count - 1].is_void() {
            self.undo.truncate(count - 1);
            assert(record_views(self.undo@) =~= undo.drop_last());
            self.coalescing = None;
        } else {
            self.coalescing =
            if origin == EditOrigin::User || origin == EditOrigin::Composition {
                Some(origin)
            } else {
                None
            };
        }
        assert(self@ =~= before.added(record@, origin));
    }

    /// Adds a record and cuts to the budget. Which of the oldest records go
    /// depends on what their strings have reserved, which is at least what
    /// they hold.
    pub fn record(&mut self, record: UndoRecord<I>, origin: EditOrigin)
        requires
            lawful_id::<I>(),
            old(self)@.within_budget(),
        ensures
            exists|sizes: Seq<usize>| #[trigger]
                sizes_cover(sizes, old(self)@.added(record@, origin).undo) && final(self)@
                    == old(self)@.added(record@, origin).trimmed(
                    MAX_UNDO_RECORDS as nat,
                    MAX_UNDO_BYTES as nat,
                    sizes,
                ),
            final(self)@.within_budget(),
    {
        self.add(record, origin);
        self.trim(MAX_UNDO_RECORDS, MAX_UNDO_BYTES);
    }

    /// Cuts to a budget of records and of bytes that their strings have
    /// reserved.
    pub fn trim(&mut self, records: usize, bytes: usize)
        ensures
            exists|sizes: Seq<usize>| #[trigger]
                sizes_cover(sizes, old(self)@.undo) && final(self)@ == old(self)@.trimmed(
                    records as nat,
                    bytes as nat,
                    sizes,
                ),
            (forall|i: int|
                0 <= i < old(self)@.redo.len() ==> (#[trigger] old(self)@.redo[i]).bytes()
                    <= MAX_UNDO_BYTES) && records + old(self)@.redo.len() <= MAX_UNDO_RECORDS
                && bytes <= MAX_UNDO_BYTES ==> final(self)@.within_budget(),
    {
        let ghost before = self@;
        let mut sizes: Vec<usize> = Vec::new();
        let mut i: usize = 0;
        while i < self.undo.len()
            invariant
                i <= self.undo.len(),
                self@ == before,
                sizes.len() == i,
                forall|k: int| 0 <= k < i ==> covers(#[trigger] sizes@[k], before.undo[k]),
            decreases self.undo.len() - i,
        {
            assert(before.undo[i as int] == self.undo@[i as int]@);
            sizes.push(self.undo[i].allocated_bytes());
            i += 1;
        }
        assert(sizes_cover(sizes@, before.undo));
        self.trim_sized(records, bytes, &sizes);
        proof {
            let after = self@;
            law_eviction_is_minimal(sizes@, records as nat, bytes as nat);
            let gone = evicted(sizes@, records as nat, bytes as nat) as int;
            let kept = sizes@.subrange(gone, sizes@.len() as int);
            if bytes <= MAX_UNDO_BYTES {
                assert forall|i: int| 0 <= i < after.undo.len() implies (
                #[trigger] after.undo[i]).bytes() <= MAX_UNDO_BYTES by {
                    assert(after.undo[i] == before.undo[gone + i]);
                    lemma_total_member(kept, i);
                    assert(kept[i] == sizes@[gone + i]);
                    lemma_covers(sizes@[gone + i], before.undo[gone + i]);
                }
            }
        }
    }

    /// Cuts to a budget, given the size of each record.
    pub fn trim_sized(&mut self, records: usize, bytes: usize, sizes: &Vec<usize>)
        requires
            sizes.len() == old(self)@.undo.len(),
        ensures
            final(self)@ == old(self)@.trimmed(records as nat, bytes as nat, sizes@),
    {
        let ghost before = self@;
        let count = self.undo.len();
        if count > 0 && self.undo[count - 1].changes.len() > MAX_UNDO_CHANGES {
            assert(before.undo.last() == self.undo@[count - 1]@);
            self.undo.clear();
            self.coalescing = None;
            assert(record_views(self.undo@) =~= Seq::empty());
            assert(self@ =~= before.trimmed(records as nat, bytes as nat, sizes@));
            return;
        }
        if count > 0 {
            assert(before.undo.last() == self.undo@[count - 1]@);
        }
        let mut first: usize = count;
        let mut retained: usize = 0;
        assert(sizes@.subrange(count as int, count as int) =~= Seq::empty());
        while first > 0 && count - (first - 1) <= records && sizes[first - 1] <= bytes - retained
            invariant
                first <= count,
                count == sizes.len(),
                count - first <= records,
                retained <= bytes,
                retained == total(sizes@.subrange(first as int, count as int)),
            decreases first,
        {
            proof {
                lemma_total_skip(sizes@, first - 1);
            }
            retained = retained + sizes[first - 1];
            first -= 1;
        }
        proof {
            if first > 0 {
                lemma_total_skip(sizes@, first - 1);
            }
            lemma_evicted_is(sizes@, records as nat, bytes as nat, first as int);
        }
        let kept = self.undo.split_off(first);
        self.undo = kept;
        assert(record_views(self.undo@) =~= before.undo.subrange(first as int, count as int));
        // An individual edit larger than the budget is deliberately not retained.
        if self.undo.len() == 0 {
            self.coalescing = None;
        }
        assert(self@ =~= before.trimmed(records as nat, bytes as nat, sizes@));
    }

    pub fn finish_composition(&mut self)
        ensures
            final(self)@ == old(self)@.finished(),
    {
        if self.coalescing == Some(EditOrigin::Composition) {
            self.break_coalescing();
        }
    }

    pub fn break_coalescing(&mut self)
        ensures
            final(self)@ == old(self)@.broken(),
    {
        self.coalescing = None;
    }
}

} // verus!
