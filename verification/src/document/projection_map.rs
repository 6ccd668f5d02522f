//! The display of a projected text, and the way between the two.

use crate::document::mapping::{
    entry_ends_by, entry_holds, entry_shows, entry_starts_from, growth, lemma_growth_bound,
    lemma_rendered_len, lemma_rendered_splice, lemma_seam_shown, lemma_shown_order,
    lemma_span_showing_is, lemma_spliced, mapped_to_display, mapped_to_source, plus, rendered,
    splice_growth, splice_shape,
};
use crate::document::position::Affinity;
use crate::document::projection::{
    copy_mapping, entry_valid, lemma_span_behind, lemma_span_behind_is, mapping_valid,
    shift_mapping, shifted_mapping, DocumentProjection, ProjectionMapping, ProjectionView, SpanView,
};
use crate::scan::{
    first_where, last_where, lemma_first_where, lemma_first_where_is, lemma_last_where,
};
use crate::text::{
    at_boundary, byte_len, lemma_encoded, push_text, splice_bytes, sub_string, SourceText,
};
use std::ops::Range;
use vstd::prelude::*;
use vstd::string::*;
use vstd::utf8::*;

verus! {

#[derive(Debug, PartialEq, Eq)]
pub(crate) enum ProjectionRunKind {
    Identity,
    Replacement(Option<Vec<ProjectionMapping>>),
}

/// A piece of source and where it is shown.
#[derive(Debug)]
pub(crate) struct ProjectionRun {
    pub(crate) source: Range<usize>,
    pub(crate) display: Range<usize>,
    pub(crate) kind: ProjectionRunKind,
}

/// What a run says. An identity run has no mapping choice; a replaced one has
/// the mapping of its span.
#[verifier::ext_equal]
pub struct RunView {
    pub start: int,
    pub end: int,
    pub display_start: int,
    pub display_end: int,
    pub replaced: bool,
    pub mapping: Option<Seq<ProjectionMapping>>,
}

impl RunView {
    pub open spec fn shifted(self, source_delta: int, display_delta: int) -> RunView {
        RunView {
            start: self.start + source_delta,
            end: self.end + source_delta,
            display_start: self.display_start + display_delta,
            display_end: self.display_end + display_delta,
            replaced: self.replaced,
            mapping: shifted_mapping(self.mapping, source_delta),
        }
    }

    /// The run is a piece of unprojected text or one span of a projection,
    /// and stands where the projection shows it.
    pub open spec fn fits(self, p: ProjectionView) -> bool {
        let k = p.span_behind(self.start);
        &&& 0 <= self.start < self.end <= p.source_len
        &&& self.display_start == self.start + growth(p.spans, k)
        &&& if self.replaced {
            &&& k < p.spans.len()
            &&& p.spans[k].start == self.start
            &&& p.spans[k].end == self.end
            &&& p.spans[k].mapping == self.mapping
            &&& self.display_end == self.display_start + p.spans[k].replacement.len()
        } else {
            &&& self.mapping is None
            &&& self.display_end - self.display_start == self.end - self.start
            &&& k < p.spans.len() ==> self.end <= p.spans[k].start
        }
    }
}

impl View for ProjectionRun {
    type V = RunView;

    open(crate) spec fn view(&self) -> RunView {
        RunView {
            start: self.source.start as int,
            end: self.source.end as int,
            display_start: self.display.start as int,
            display_end: self.display.end as int,
            replaced: self.kind is Replacement,
            mapping: match self.kind {
                ProjectionRunKind::Identity => None,
                ProjectionRunKind::Replacement(None) => None,
                ProjectionRunKind::Replacement(Some(mapping)) => Some(mapping@),
            },
        }
    }
}

impl ProjectionRun {
    /// Moves a run so that what was at the old places is at the new ones.
    fn shift(&mut self, source: (usize, usize), display: (usize, usize))
        requires
            source.0 <= old(self)@.start <= old(self)@.end,
            old(self)@.end - source.0 + source.1 <= usize::MAX,
            display.0 <= old(self)@.display_start <= old(self)@.display_end,
            old(self)@.display_end - display.0 + display.1 <= usize::MAX,
            source.0 <= isize::MAX,
            source.1 <= isize::MAX,
        ensures
            final(self)@ == old(self)@.shifted(source.1 - source.0, display.1 - display.0),
    {
        let ghost before = self@;
        self.source =
        self.source.start - source.0 + source.1..self.source.end - source.0 + source.1;
        self.display =
        self.display.start - display.0 + display.1..self.display.end - display.0 + display.1;
        if let ProjectionRunKind::Replacement(Some(mapping)) = &self.kind {
            let shifted = shift_mapping(mapping, source.1 as isize - source.0 as isize);
            self.kind = ProjectionRunKind::Replacement(Some(shifted));
        }
        assert(self@ =~= before.shifted(source.1 - source.0, display.1 - display.0));
    }
}

/// What runs say.
pub(crate) open(crate) spec fn run_views(runs: Seq<ProjectionRun>) -> Seq<RunView> {
    runs.map_values(|r: ProjectionRun| r@)
}

/// Runs that follow each other without a gap, from `start` to `end` in the
/// source and from `display_start` to `display_end` in the display.
#[verifier::opaque]
pub open spec fn runs_tile(
    runs: Seq<RunView>,
    start: int,
    end: int,
    display_start: int,
    display_end: int,
) -> bool {
    &&& start <= end
    &&& display_start <= display_end
    &&& forall|i: int|
        0 <= i < runs.len() ==> start <= (#[trigger] runs[i]).start < runs[i].end <= end
            && display_start <= runs[i].display_start <= runs[i].display_end <= display_end
    &&& forall|i: int, j: int|
        #![trigger runs[i], runs[j]]
        0 <= i && j == i + 1 && j < runs.len() ==> runs[i].end == runs[j].start
            && runs[i].display_end == runs[j].display_start
    &&& forall|i: int, j: int|
        #![trigger runs[i], runs[j]]
        0 <= i < j < runs.len() ==> runs[i].end <= runs[j].start && runs[i].display_end
            <= runs[j].display_start
    &&& if runs.len() == 0 {
        start == end && display_start == display_end
    } else {
        &&& runs[0].start == start && runs[0].display_start == display_start
        &&& runs.last().end == end && runs.last().display_end == display_end
    }
}

/// Runs one behind the other.
proof fn lemma_tile_concat(
    a: Seq<RunView>,
    b: Seq<RunView>,
    start: int,
    seam: int,
    end: int,
    display_start: int,
    display_seam: int,
    display_end: int,
)
    requires
        runs_tile(a, start, seam, display_start, display_seam),
        runs_tile(b, seam, end, display_seam, display_end),
    ensures
        runs_tile(a + b, start, end, display_start, display_end),
{
    reveal(runs_tile);
    let all = a + b;
    let n = a.len() as int;
    assert forall|i: int| 0 <= i < all.len() implies start <= (#[trigger] all[i]).start
        < all[i].end <= end && display_start <= all[i].display_start <= all[i].display_end
        <= display_end by {
        if i < n {
            assert(all[i] == a[i]);
        } else {
            assert(all[i] == b[i - n]);
        }
    }
    assert forall|i: int, j: int|
        #![trigger all[i], all[j]]
        0 <= i < j < all.len() implies all[i].end <= all[j].start && all[i].display_end
        <= all[j].display_start && (j == i + 1 ==> all[i].end == all[j].start
        && all[i].display_end == all[j].display_start) by {
        if j < n {
            assert(all[i] == a[i] && all[j] == a[j]);
        } else if i >= n {
            assert(all[i] == b[i - n] && all[j] == b[j - n]);
        } else {
            assert(all[i] == a[i] && all[j] == b[j - n]);
            if j == i + 1 {
                assert(a[i] == a.last());
                assert(b[j - n] == b[0]);
            }
        }
    }
    if b.len() == 0 {
        assert(all =~= a);
    } else {
        assert(all.last() == b.last());
        if n == 0 {
            assert(all =~= b);
        } else {
            assert(all[0] == a[0]);
        }
    }
}

/// The runs before and behind an index.
proof fn lemma_tile_split(
    runs: Seq<RunView>,
    at: int,
    start: int,
    end: int,
    display_start: int,
    display_end: int,
)
    requires
        runs_tile(runs, start, end, display_start, display_end),
        0 <= at <= runs.len(),
    ensures
        ({
            let seam = if at < runs.len() {
                runs[at].start
            } else {
                end
            };
            let display_seam = if at < runs.len() {
                runs[at].display_start
            } else {
                display_end
            };
            &&& runs_tile(runs.subrange(0, at), start, seam, display_start, display_seam)
            &&& runs_tile(
                runs.subrange(at, runs.len() as int),
                seam,
                end,
                display_seam,
                display_end,
            )
        }),
{
    reveal(runs_tile);
    let seam = if at < runs.len() {
        runs[at].start
    } else {
        end
    };
    let display_seam = if at < runs.len() {
        runs[at].display_start
    } else {
        display_end
    };
    let a = runs.subrange(0, at);
    let b = runs.subrange(at, runs.len() as int);
    assert forall|i: int| 0 <= i < a.len() implies start <= (#[trigger] a[i]).start < a[i].end
        <= seam && display_start <= a[i].display_start <= a[i].display_end <= display_seam by {
        assert(a[i] == runs[i]);
        if at < runs.len() {
            assert(runs[i].end <= runs[at].start);
        }
    }
    assert forall|i: int| 0 <= i < b.len() implies seam <= (#[trigger] b[i]).start < b[i].end
        <= end && display_seam <= b[i].display_start <= b[i].display_end <= display_end by {
        assert(b[i] == runs[at + i]);
        if i > 0 {
            assert(runs[at].end <= runs[at + i].start);
            assert(runs[at].start < runs[at].end);
        }
    }
    assert forall|i: int, j: int|
        #![trigger a[i], a[j]]
        0 <= i < j < a.len() implies a[i].end <= a[j].start && a[i].display_end
        <= a[j].display_start && (j == i + 1 ==> a[i].end == a[j].start && a[i].display_end
        == a[j].display_start) by {
        assert(a[i] == runs[i] && a[j] == runs[j]);
    }
    assert forall|i: int, j: int|
        #![trigger b[i], b[j]]
        0 <= i < j < b.len() implies b[i].end <= b[j].start && b[i].display_end
        <= b[j].display_start && (j == i + 1 ==> b[i].end == b[j].start && b[i].display_end
        == b[j].display_start) by {
        assert(b[i] == runs[at + i] && b[j] == runs[at + j]);
    }
    if at > 0 {
        assert(a.last() == runs[at - 1]);
        assert(a[0] == runs[0]);
        if at < runs.len() {
            assert(runs[at - 1].end == runs[at].start);
        } else {
            assert(runs[at - 1] == runs.last());
        }
    }
    if at < runs.len() {
        assert(b[0] == runs[at]);
        assert(b.last() == runs.last());
    }
    if runs.len() > 0 {
        assert(runs[0].start == start);
        assert(start <= seam <= end);
        assert(display_start <= display_seam <= display_end);
    }
}

/// Runs, all moved.
pub open spec fn shifted_runs(runs: Seq<RunView>, source_delta: int, display_delta: int) -> Seq<
    RunView,
> {
    runs.map_values(|r: RunView| r.shifted(source_delta, display_delta))
}

proof fn lemma_tile_shift(
    runs: Seq<RunView>,
    start: int,
    end: int,
    display_start: int,
    display_end: int,
    source_delta: int,
    display_delta: int,
)
    requires
        runs_tile(runs, start, end, display_start, display_end),
    ensures
        runs_tile(
            shifted_runs(runs, source_delta, display_delta),
            start + source_delta,
            end + source_delta,
            display_start + display_delta,
            display_end + display_delta,
        ),
{
    reveal(runs_tile);
    let all = shifted_runs(runs, source_delta, display_delta);
    assert forall|i: int, j: int|
        #![trigger all[i], all[j]]
        0 <= i < j < all.len() implies all[i].end <= all[j].start && all[i].display_end
        <= all[j].display_start && (j == i + 1 ==> all[i].end == all[j].start
        && all[i].display_end == all[j].display_start) by {
        assert(runs[i].end <= runs[j].start);
    }
    if runs.len() > 0 {
        assert(all[0] == runs[0].shifted(source_delta, display_delta));
        assert(all.last() == runs.last().shifted(source_delta, display_delta));
    }
}

/// No runs.
proof fn lemma_tile_none(runs: Seq<RunView>)
    requires
        runs.len() == 0,
    ensures
        runs_tile(runs, 0, 0, 0, 0),
{
    reveal(runs_tile);
}

/// Where runs lie, and which of two comes first.
proof fn lemma_tile_order(runs: Seq<RunView>, start: int, end: int, ds: int, de: int, i: int, j: int)
    requires
        runs_tile(runs, start, end, ds, de),
        0 <= i <= j < runs.len(),
    ensures
        start <= runs[i].start < runs[i].end <= end,
        ds <= runs[i].display_start <= runs[i].display_end <= de,
        i < j ==> runs[i].end <= runs[j].start && runs[i].display_end <= runs[j].display_start,
        j == i + 1 ==> runs[i].end == runs[j].start && runs[i].display_end
            == runs[j].display_start,
        i == runs.len() - 1 ==> runs[i].end == end && runs[i].display_end == de,
{
    reveal(runs_tile);
}

/// A single run.
proof fn lemma_tile_one(run: RunView)
    requires
        run.start < run.end,
        run.display_start <= run.display_end,
    ensures
        runs_tile(seq![run], run.start, run.end, run.display_start, run.display_end),
{
    reveal(runs_tile);
}

/// The displayed text and the runs that relate it to the source.
pub struct ProjectionMap {
    pub(crate) display: String,
    pub(crate) source_len: usize,
    pub(crate) runs: Vec<ProjectionRun>,
    /// The text that is shown, and through which projection.
    pub(crate) shown: Ghost<(Seq<u8>, ProjectionView)>,
}

impl ProjectionMap {
    pub open(crate) spec fn display_bytes(self) -> Seq<u8> {
        encode_utf8(self.display@)
    }

    /// The text that the map shows.
    pub open(crate) spec fn source(self) -> Seq<u8> {
        self.shown@.0
    }

    /// The projection through which the map shows its text.
    pub open(crate) spec fn projection(self) -> ProjectionView {
        self.shown@.1
    }

    /// The display and the runs are those of the text and its projection.
    pub open(crate) spec fn wf(self) -> bool {
        self.shows(self.source(), self.projection())
    }

    /// The map shows a text through a projection.
    pub open(crate) spec fn shows(self, bytes: Seq<u8>, p: ProjectionView) -> bool {
        &&& self.source() == bytes
        &&& self.projection() == p
        &&& p.valid()
        &&& p.source_len == bytes.len()
        &&& p.source_len == self.source_len
        &&& self.display_bytes() == rendered(bytes, p.spans)
        &&& self.fits(p)
    }

    /// The runs are those of a projection.
    pub open(crate) spec fn fits(self, p: ProjectionView) -> bool {
        &&& runs_tile(run_views(self.runs@), 0, p.source_len, 0, p.display_len())
        &&& forall|i: int| 0 <= i < self.runs@.len() ==> (#[trigger] run_views(self.runs@)[i]).fits(p)
    }
}

// ---------------------------------------------------------------------------
// Making a map
// ---------------------------------------------------------------------------

/// Appending a run keeps runs without a gap.
proof fn lemma_tile_push(runs: Seq<RunView>, len: int, display_len: int, run: RunView)
    requires
        runs_tile(runs, 0, len, 0, display_len),
        run.start == len,
        run.display_start == display_len,
        run.start < run.end,
        run.display_start <= run.display_end,
    ensures
        runs_tile(runs.push(run), 0, run.end, 0, run.display_end),
{
    lemma_tile_one(run);
    lemma_tile_concat(
        runs,
        seq![run],
        0,
        len,
        run.end,
        0,
        display_len,
        run.display_end,
    );
    assert(runs.push(run) =~= runs + seq![run]);
}

/// The text that the first `k` spans project, up to `cursor`.
proof fn lemma_rendered_step(bytes: Seq<u8>, p: ProjectionView, k: int, cursor: int)
    requires
        p.valid(),
        p.source_len == bytes.len(),
        0 <= k <= p.spans.len(),
        k > 0 ==> p.spans[k - 1].end <= cursor,
        0 <= cursor <= bytes.len(),
    ensures
        k < p.spans.len() && cursor <= p.spans[k].start ==> rendered(
            bytes.subrange(0, p.spans[k].end),
            p.spans.subrange(0, k + 1),
        ) == rendered(bytes.subrange(0, cursor), p.spans.subrange(0, k)) + bytes.subrange(
            cursor,
            p.spans[k].start,
        ) + p.spans[k].replacement,
        forall|to: int|
            cursor <= to <= bytes.len() ==> #[trigger] rendered(
                bytes.subrange(0, to),
                p.spans.subrange(0, k),
            ) == rendered(bytes.subrange(0, cursor), p.spans.subrange(0, k)) + bytes.subrange(
                cursor,
                to,
            ),
{
    let before = p.spans.subrange(0, k);
    assert forall|to: int| cursor <= to <= bytes.len() implies #[trigger] rendered(
        bytes.subrange(0, to),
        before,
    ) == rendered(bytes.subrange(0, cursor), before) + bytes.subrange(cursor, to) by {
        if k == 0 {
            assert(bytes.subrange(0, to) =~= bytes.subrange(0, cursor) + bytes.subrange(
                cursor,
                to,
            ));
        } else {
            let last = before.last();
            assert(last == p.spans[k - 1]);
            assert(bytes.subrange(0, to).subrange(0, last.start) =~= bytes.subrange(
                0,
                cursor,
            ).subrange(0, last.start));
            assert(bytes.subrange(0, to).subrange(last.end, to) =~= bytes.subrange(
                0,
                cursor,
            ).subrange(last.end, cursor) + bytes.subrange(cursor, to));
            assert(rendered(bytes.subrange(0, to), before) =~= rendered(
                bytes.subrange(0, cursor),
                before,
            ) + bytes.subrange(cursor, to));
        }
    }
    if k < p.spans.len() && cursor <= p.spans[k].start {
        let span = p.spans[k];
        let next = p.spans.subrange(0, k + 1);
        let text = bytes.subrange(0, span.end);
        assert(next.drop_last() =~= before);
        assert(next.last() == span);
        assert(text.subrange(0, span.start) =~= bytes.subrange(0, span.start));
        assert(text.subrange(span.end, span.end) =~= Seq::<u8>::empty());
        assert(span.start < span.end <= bytes.len());
        assert(rendered(bytes.subrange(0, span.start), before) == rendered(
            bytes.subrange(0, cursor),
            before,
        ) + bytes.subrange(cursor, span.start));
        assert(rendered(text, next) =~= rendered(bytes.subrange(0, cursor), before)
            + bytes.subrange(cursor, span.start) + span.replacement);
    }
}

/// A span is the first that ends behind its own start.
proof fn lemma_at_span(p: ProjectionView, k: int)
    requires
        p.valid(),
        0 <= k < p.spans.len(),
    ensures
        p.span_behind(p.spans[k].start) == k,
{
    assert(p.spans[k].start < p.spans[k].end);
    assert forall|i: int| 0 <= i < k implies (#[trigger] p.spans[i]).end <= p.spans[k].start by {}
    lemma_span_behind_is(p, p.spans[k].start, k);
}

/// An offset between two spans.
proof fn lemma_before_span(p: ProjectionView, k: int, offset: int)
    requires
        p.valid(),
        0 <= k <= p.spans.len(),
        k > 0 ==> p.spans[k - 1].end <= offset,
        k < p.spans.len() ==> offset < p.spans[k].end,
    ensures
        p.span_behind(offset) == k,
{
    assert forall|i: int| 0 <= i < k implies (#[trigger] p.spans[i]).end <= offset by {
        if i < k - 1 {
            assert(p.spans[i].end <= p.spans[k - 1].start);
            assert(p.spans[k - 1].start < p.spans[k - 1].end);
        }
    }
    lemma_span_behind_is(p, offset, k);
}

impl ProjectionMap {
    /// The display of a text through a projection. A projection that lies
    /// between characters has the length of the text and fits in memory.
    pub fn new(source: &SourceText, projection: &DocumentProjection) -> (map: Self)
        requires
            source.wf(),
            projection@.valid(),
            projection@.source_len == source.bytes().len(),
            projection@.on_boundaries(source.bytes()),
        ensures
            map.shows(source.bytes(), projection@),
    {
        let ghost bytes = source.bytes();
        let ghost p = projection@;
        let len = source.len();
        let mut display = String::new();
        let mut display_len: usize = 0;
        let mut runs: Vec<ProjectionRun> = Vec::new();
        let mut cursor: usize = 0;
        let mut i: usize = 0;
        proof {
            lemma_encoded(display@);
            assert(bytes.subrange(0, 0) =~= Seq::<u8>::empty());
            assert(p.spans.subrange(0, 0) =~= Seq::<SpanView>::empty());
            assert(encode_utf8(display@) =~= Seq::<u8>::empty());
            lemma_tile_none(run_views(runs@));
        }
        while i < projection.spans.len()
            invariant
                source.wf(),
                bytes == source.bytes(),
                p == projection@,
                p.valid(),
                p.source_len == bytes.len(),
                p.on_boundaries(bytes),
                len == bytes.len(),
                i <= projection.spans.len(),
                cursor <= len,
                cursor == (if i == 0 {
                    0
                } else {
                    p.spans[i - 1].end
                }),
                at_boundary(bytes, cursor as int),
                encode_utf8(display@) == rendered(
                    bytes.subrange(0, cursor as int),
                    p.spans.subrange(0, i as int),
                ),
                display_len == encode_utf8(display@).len(),
                display_len == cursor + growth(p.spans, i as int),
                runs_tile(run_views(runs@), 0, cursor as int, 0, display_len as int),
                forall|k: int| 0 <= k < runs@.len() ==> (#[trigger] run_views(runs@)[k]).fits(p),
            decreases projection.spans.len() - i,
        {
            let span = &projection.spans[i];
            let ghost view = p.spans[i as int];
            proof {
                assert(view == span@);
                if i > 0 {
                    assert(p.spans[i - 1].end <= p.spans[i as int].start);
                }
                assert(at_boundary(bytes, view.start) && at_boundary(bytes, view.end));
                lemma_rendered_step(bytes, p, i as int, cursor as int);
            }
            if cursor < span.source.start {
                let part = cursor..span.source.start;
                let text = source.slice(&part);
                let display_start = display_len;
                push_text(&mut display, text.as_str());
                display_len = byte_len(display.as_str());
                let run = ProjectionRun {
                    source: part,
                    display: display_start..display_len,
                    kind: ProjectionRunKind::Identity,
                };
                proof {
                    lemma_before_span(p, i as int, cursor as int);
                    lemma_tile_push(
                        run_views(runs@),
                        cursor as int,
                        display_start as int,
                        run@,
                    );
                    assert(run_views(runs@.push(run)) =~= run_views(runs@).push(run@));
                    assert(run@.fits(p));
                }
                runs.push(run);
            }
            let ghost shown = encode_utf8(display@);
            let display_start = display_len;
            push_text(&mut display, span.replacement.as_str());
            display_len = byte_len(display.as_str());
            let run = ProjectionRun {
                source: span.source(),
                display: display_start..display_len,
                kind: ProjectionRunKind::Replacement(
                    match &span.mapping {
                        Some(mapping) => Some(copy_mapping(mapping)),
                        None => None,
                    },
                ),
            };
            proof {
                assert(shown =~= rendered(
                    bytes.subrange(0, cursor as int),
                    p.spans.subrange(0, i as int),
                ) + bytes.subrange(cursor as int, view.start));
                lemma_at_span(p, i as int);
                assert(display_start == view.start + growth(p.spans, i as int));
                lemma_tile_push(run_views(runs@), view.start, display_start as int, run@);
                assert(run_views(runs@.push(run)) =~= run_views(runs@).push(run@));
                assert(run@.mapping == view.mapping);
                assert(run@.fits(p));
            }
            runs.push(run);
            cursor = span.source.end;
            i += 1;
        }
        proof {
            lemma_rendered_step(bytes, p, i as int, cursor as int);
            assert(p.spans.subrange(0, i as int) =~= p.spans);
            assert(bytes.subrange(0, bytes.len() as int) =~= bytes);
            lemma_rendered_len(bytes, p);
        }
        if cursor < len {
            let part = cursor..len;
            let text = source.slice(&part);
            let display_start = display_len;
            push_text(&mut display, text.as_str());
            display_len = byte_len(display.as_str());
            let run = ProjectionRun {
                source: part,
                display: display_start..display_len,
                kind: ProjectionRunKind::Identity,
            };
            proof {
                lemma_before_span(p, i as int, cursor as int);
                lemma_tile_push(run_views(runs@), cursor as int, display_start as int, run@);
                assert(run_views(runs@.push(run)) =~= run_views(runs@).push(run@));
                assert(run@.fits(p));
            }
            runs.push(run);
        } else {
            assert(bytes.subrange(cursor as int, len as int) =~= Seq::<u8>::empty());
        }
        let map = ProjectionMap { display, source_len: len, runs, shown: Ghost((bytes, p)) };
        assert(map.display_bytes() =~= rendered(bytes, p.spans));
        map
    }
}

// ---------------------------------------------------------------------------
// Looking up
// ---------------------------------------------------------------------------

/// An offset as an integer.
pub open spec fn int_of(offset: Option<usize>) -> Option<int> {
    match offset {
        Some(offset) => Some(offset as int),
        None => None,
    }
}

/// Where mapping entries show a source offset.
fn mapped_source_to_display(
    mapping: &Vec<ProjectionMapping>,
    display_start: usize,
    offset: usize,
    affinity: Affinity,
    Ghost(span): Ghost<SpanView>,
) -> (display: Option<usize>)
    requires
        span.mapping == Some(mapping@),
        mapping_valid(span),
        display_start + span.replacement.len() <= usize::MAX,
    ensures
        int_of(display) == plus(
            display_start as int,
            mapped_to_display(mapping@, offset as int, affinity),
        ),
{
    let ghost holds = entry_holds(offset as int, affinity);
    let mut i: usize = 0;
    while i < mapping.len()
        invariant
            i <= mapping.len(),
            span.mapping == Some(mapping@),
            mapping_valid(span),
            holds == entry_holds(offset as int, affinity),
            display_start + span.replacement.len() <= usize::MAX,
            forall|k: int| 0 <= k < i ==> !(#[trigger] holds(mapping@[k])),
        decreases mapping.len() - i,
    {
        let entry = &mapping[i];
        assert(entry_valid(mapping@, span, i as int));
        if entry.source.start <= offset && (offset < entry.source.end || (offset
            == entry.source.end && affinity == Affinity::Before)) {
            proof {
                assert(holds(mapping@[i as int]));
                lemma_first_where_is(mapping@, holds, 0, i as int);
            }
            let source_len = entry.source.end - entry.source.start;
            let display_len = entry.display.end - entry.display.start;
            let local = if source_len == display_len {
                let inside = offset - entry.source.start;
                entry.display.start + (if inside <= display_len {
                    inside
                } else {
                    display_len
                })
            } else if offset == entry.source.start || affinity == Affinity::Before {
                entry.display.start
            } else {
                entry.display.end
            };
            return Some(display_start + local);
        }
        assert(!holds(mapping@[i as int]));
        i += 1;
    }
    proof {
        lemma_first_where_is(mapping@, holds, 0, mapping.len() as int);
    }
    let count = mapping.len();
    if count == 0 {
        return None;
    }
    assert(entry_valid(mapping@, span, count - 1));
    assert(entry_valid(mapping@, span, 0));
    if affinity == Affinity::Before {
        let ghost from = entry_starts_from(offset as int);
        let mut i: usize = 0;
        while i < mapping.len()
            invariant
                i <= mapping.len(),
                span.mapping == Some(mapping@),
                mapping_valid(span),
                from == entry_starts_from(offset as int),
                forall|k: int| 0 <= k < i ==> !(#[trigger] from(mapping@[k])),
                display_start + span.replacement.len() <= usize::MAX,
                affinity == Affinity::Before,
                first_where(mapping@, entry_holds(offset as int, affinity), 0) == mapping.len(),
            decreases mapping.len() - i,
        {
            assert(entry_valid(mapping@, span, i as int));
            if mapping[i].source.start >= offset {
                proof {
                    assert(from(mapping@[i as int]));
                    lemma_first_where_is(mapping@, from, 0, i as int);
                }
                return Some(display_start + mapping[i].display.start);
            }
            assert(!from(mapping@[i as int]));
            i += 1;
        }
        proof {
            lemma_first_where_is(mapping@, from, 0, mapping.len() as int);
        }
        Some(display_start + mapping[count - 1].display.end)
    } else {
        let ghost ends = entry_ends_by(offset as int);
        let mut i: usize = count;
        while i > 0
            invariant
                i <= mapping.len(),
                span.mapping == Some(mapping@),
                mapping_valid(span),
                ends == entry_ends_by(offset as int),
                last_where(mapping@, ends, mapping.len() as int) == last_where(
                    mapping@,
                    ends,
                    i as int,
                ),
                display_start + span.replacement.len() <= usize::MAX,
                affinity == Affinity::After,
                mapping.len() > 0,
                first_where(mapping@, entry_holds(offset as int, affinity), 0) == mapping.len(),
            decreases i,
        {
            assert(entry_valid(mapping@, span, i - 1));
            if mapping[i - 1].source.end <= offset {
                assert(ends(mapping@[i - 1]));
                return Some(display_start + mapping[i - 1].display.end);
            }
            assert(!ends(mapping@[i - 1]));
            i -= 1;
        }
        Some(display_start + mapping[0].display.start)
    }
}

/// What source mapping entries have at a display offset.
fn mapped_display_to_source(
    mapping: &Vec<ProjectionMapping>,
    display_start: usize,
    offset: usize,
    affinity: Affinity,
    Ghost(span): Ghost<SpanView>,
) -> (source: Option<usize>)
    requires
        span.mapping == Some(mapping@),
        mapping_valid(span),
        display_start <= offset,
    ensures
        int_of(source) == mapped_to_source(mapping@, offset - display_start, affinity),
{
    let local = offset - display_start;
    let ghost shows = entry_shows(local as int, affinity);
    let mut i: usize = 0;
    while i < mapping.len()
        invariant
            i <= mapping.len(),
            span.mapping == Some(mapping@),
            mapping_valid(span),
            local == offset - display_start,
            shows == entry_shows(local as int, affinity),
            forall|k: int| 0 <= k < i ==> !(#[trigger] shows(mapping@[k])),
        decreases mapping.len() - i,
    {
        let entry = &mapping[i];
        assert(entry_valid(mapping@, span, i as int));
        if entry.display.start <= local && (local < entry.display.end || (local
            == entry.display.end && affinity == Affinity::Before)) {
            proof {
                assert(shows(mapping@[i as int]));
                lemma_first_where_is(mapping@, shows, 0, i as int);
            }
            let source_len = entry.source.end - entry.source.start;
            let display_len = entry.display.end - entry.display.start;
            return Some(
                if source_len == display_len {
                    let inside = local - entry.display.start;
                    entry.source.start + (if inside <= source_len {
                        inside
                    } else {
                        source_len
                    })
                } else if local == entry.display.start || affinity == Affinity::Before {
                    entry.source.start
                } else {
                    entry.source.end
                },
            );
        }
        assert(!shows(mapping@[i as int]));
        i += 1;
    }
    proof {
        lemma_first_where_is(mapping@, shows, 0, mapping.len() as int);
    }
    None
}

/// The run that holds a source offset.
proof fn lemma_run_holding(runs: Seq<RunView>, start: int, end: int, ds: int, de: int, offset: int)
    requires
        runs_tile(runs, start, end, ds, de),
        start <= offset < end,
    ensures
        exists|q: int| 0 <= q < runs.len() && (#[trigger] runs[q]).start <= offset < runs[q].end,
    decreases runs.len(),
{
    reveal(runs_tile);
    if offset >= runs.last().start {
        assert(runs[runs.len() - 1].start <= offset < runs[runs.len() - 1].end);
    } else {
        let at = runs.len() - 1;
        lemma_tile_split(runs, at, start, end, ds, de);
        let front = runs.subrange(0, at);
        lemma_run_holding(front, start, runs[at].start, ds, runs[at].display_start, offset);
        let q = choose|q: int|
            0 <= q < front.len() && (#[trigger] front[q]).start <= offset < front[q].end;
        assert(runs[q] == front[q]);
    }
}

/// Every span is a run.
proof fn lemma_run_of_span(map: ProjectionMap, p: ProjectionView, j: int)
    requires
        p.valid(),
        map.fits(p),
        0 <= j < p.spans.len(),
    ensures
        exists|q: int|
            0 <= q < map.runs@.len() && (#[trigger] run_views(map.runs@)[q]).start
                == p.spans[j].start && run_views(map.runs@)[q].end == p.spans[j].end && run_views(
                map.runs@,
            )[q].display_start == p.display_start(j) && run_views(map.runs@)[q].display_end
                == p.display_end(j),
{
    reveal(runs_tile);
    let runs = run_views(map.runs@);
    let at = p.spans[j].start;
    assert(0 <= at < p.spans[j].end <= p.source_len);
    lemma_run_holding(runs, 0, p.source_len, 0, p.display_len(), at);
    let q = choose|q: int| 0 <= q < runs.len() && (#[trigger] runs[q]).start <= at < runs[q].end;
    let run = runs[q];
    assert(run.fits(p));
    let k = p.span_behind(run.start);
    lemma_span_behind(p, run.start);
    assert(k <= j) by {
        if j < k {
            assert(p.spans[j].end <= run.start);
        }
    }
    if k < j {
        assert(p.spans[k].end <= p.spans[j].start);
    }
}

impl ProjectionMap {
    pub fn display_text(&self) -> (text: &str)
        ensures
            text.spec_bytes() == self.display_bytes(),
    {
        self.display.as_str()
    }

    /// The run that holds a source offset.
    fn run_at_source(&self, offset: usize, Ghost(p): Ghost<ProjectionView>) -> (index: usize)
        requires
            self.fits(p),
            offset < p.source_len,
        ensures
            index < self.runs@.len(),
            self.runs@[index as int]@.start <= offset < self.runs@[index as int]@.end,
    {
        let ghost runs = run_views(self.runs@);
        proof {
            reveal(runs_tile);
        }
        let mut low: usize = 0;
        let mut high: usize = self.runs.len();
        while low < high
            invariant
                low <= high <= self.runs.len(),
                runs == run_views(self.runs@),
                runs_tile(runs, 0, p.source_len, 0, p.display_len()),
                forall|k: int| 0 <= k < low ==> (#[trigger] runs[k]).end <= offset,
                forall|k: int| high <= k < runs.len() ==> (#[trigger] runs[k]).end > offset,
            decreases high - low,
        {
            proof {
                reveal(runs_tile);
            }
            let middle = low + (high - low) / 2;
            assert(runs[middle as int] == self.runs@[middle as int]@);
            if self.runs[middle].source.end <= offset {
                assert forall|k: int| 0 <= k < middle + 1 implies (#[trigger] runs[k]).end
                    <= offset by {
                    if k < middle {
                        assert(runs[k].end <= runs[middle as int].start);
                    }
                }
                low = middle + 1;
            } else {
                assert forall|k: int| middle <= k < runs.len() implies (#[trigger] runs[k]).end
                    > offset by {
                    if middle < k {
                        assert(runs[middle as int].end <= runs[k].start);
                    }
                }
                high = middle;
            }
        }
        proof {
            if low == runs.len() {
                assert(runs[runs.len() - 1].end <= offset);
            }
            assert(runs[low as int] == self.runs@[low as int]@);
            if low > 0 {
                assert(runs[low - 1].end == runs[low as int].start);
            }
        }
        low
    }

    /// The first run that is shown behind a display offset; with `empty`, or
    /// that shows nothing at it.
    fn run_at_display(
        &self,
        offset: usize,
        empty: bool,
        Ghost(p): Ghost<ProjectionView>,
    ) -> (index: usize)
        requires
            self.fits(p),
            offset < p.display_len(),
        ensures
            index < self.runs@.len(),
            self.runs@[index as int]@.display_start <= offset,
            run_shown(self.runs@[index as int]@, offset as int, empty),
            forall|k: int|
                0 <= k < index ==> !run_shown(
                    #[trigger] run_views(self.runs@)[k],
                    offset as int,
                    empty,
                ),
    {
        let ghost runs = run_views(self.runs@);
        proof {
            reveal(runs_tile);
        }
        let mut low: usize = 0;
        let mut high: usize = self.runs.len();
        while low < high
            invariant
                low <= high <= self.runs.len(),
                runs == run_views(self.runs@),
                runs_tile(runs, 0, p.source_len, 0, p.display_len()),
                forall|k: int|
                    0 <= k < low ==> !run_shown(#[trigger] runs[k], offset as int, empty),
                forall|k: int|
                    high <= k < runs.len() ==> run_shown(#[trigger] runs[k], offset as int, empty),
            decreases high - low,
        {
            proof {
                reveal(runs_tile);
            }
            let middle = low + (high - low) / 2;
            assert(runs[middle as int] == self.runs@[middle as int]@);
            let display = &self.runs[middle].display;
            if display.end > offset || (empty && display.end == offset && display.start
                == display.end) {
                assert forall|k: int| middle <= k < runs.len() implies run_shown(
                    #[trigger] runs[k],
                    offset as int,
                    empty,
                ) by {
                    if middle < k {
                        assert(runs[middle as int].display_end <= runs[k].display_start);
                    }
                }
                high = middle;
            } else {
                assert forall|k: int| 0 <= k < middle + 1 implies !run_shown(
                    #[trigger] runs[k],
                    offset as int,
                    empty,
                ) by {
                    if k < middle {
                        assert(runs[k].display_end <= runs[middle as int].display_start);
                    }
                }
                low = middle + 1;
            }
        }
        proof {
            if low == runs.len() {
                assert(!run_shown(runs[runs.len() - 1], offset as int, empty));
            }
            assert(runs[low as int] == self.runs@[low as int]@);
            if low > 0 {
                assert(!run_shown(runs[low - 1], offset as int, empty));
                assert(runs[low - 1].display_end == runs[low as int].display_start);
            }
        }
        low
    }

    /// Where a source offset is shown.
    pub fn source_to_display(
        &self,
        offset: usize,
        affinity: Affinity,
    ) -> (display: Option<usize>)
        requires
            self.wf(),
        ensures
            int_of(display) == self.projection().source_to_display(offset as int, affinity),
            int_of(display) matches Some(d) ==> 0 <= d <= self.display_bytes().len(),
    {
        let ghost p = self.projection();
        let display_len = byte_len(self.display.as_str());
        proof {
            lemma_rendered_len(self.source(), p);
        }
        if offset > self.source_len {
            return None;
        }
        if offset == self.source_len {
            return Some(display_len);
        }
        let index = self.run_at_source(offset, Ghost(p));
        let run = &self.runs[index];
        let ghost k = p.span_behind(run@.start);
        proof {
            assert(run_views(self.runs@)[index as int] == run@);
            assert(run@.fits(p));
            lemma_tile_order(
                run_views(self.runs@),
                0,
                p.source_len,
                0,
                p.display_len(),
                index as int,
                index as int,
            );
            lemma_span_behind(p, run@.start);
            if k > 0 {
                assert(p.spans[k - 1].end <= run@.start);
            }
            lemma_before_span(p, k, offset as int);
        }
        match &run.kind {
            ProjectionRunKind::Identity => Some(run.display.start + (offset - run.source.start)),
            ProjectionRunKind::Replacement(None) => {
                if offset == run.source.start || affinity == Affinity::Before {
                    Some(run.display.start)
                } else {
                    Some(run.display.end)
                }
            },
            ProjectionRunKind::Replacement(Some(mapping)) => {
                let ghost span = p.spans[k];
                proof {
                    assert(mapping_valid(span));
                    lemma_mapped_bound(span, offset as int, affinity);
                }
                mapped_source_to_display(
                    mapping,
                    run.display.start,
                    offset,
                    affinity,
                    Ghost(span),
                )
            },
        }
    }

    /// Where a source offset stands in the display.
    pub fn place(&self, offset: usize, affinity: Affinity) -> (display: usize)
        requires
            self.wf(),
            offset <= self.projection().source_len,
        ensures
            display == self.projection().place(offset as int, affinity),
            display <= self.display_bytes().len(),
    {
        let ghost p = self.projection();
        proof {
            lemma_rendered_len(self.source(), p);
        }
        match self.source_to_display(offset, affinity) {
            Some(display) => display,
            None => {
                let index = self.run_at_source(offset, Ghost(p));
                let run = &self.runs[index];
                proof {
                    let k = p.span_behind(run@.start);
                    assert(run_views(self.runs@)[index as int] == run@);
                    assert(run@.fits(p));
                    lemma_tile_order(
                        run_views(self.runs@),
                        0,
                        p.source_len,
                        0,
                        p.display_len(),
                        index as int,
                        index as int,
                    );
                    lemma_span_behind(p, run@.start);
                    if k > 0 {
                        assert(p.spans[k - 1].end <= run@.start);
                    }
                    lemma_before_span(p, k, offset as int);
                }
                run.display.start
            },
        }
    }

    /// What source is shown at a display offset.
    pub fn display_to_source(
        &self,
        offset: usize,
        affinity: Affinity,
    ) -> (source: Option<usize>)
        requires
            self.wf(),
        ensures
            int_of(source) == self.projection().display_to_source(offset as int, affinity),
    {
        let ghost p = self.projection();
        let display_len = byte_len(self.display.as_str());
        proof {
            lemma_rendered_len(self.source(), p);
        }
        if offset > display_len {
            return None;
        }
        if offset == display_len {
            return Some(self.source_len);
        }
        let before = affinity == Affinity::Before;
        let index = self.run_at_display(offset, before, Ghost(p));
        let run = &self.runs[index];
        let ghost k = p.span_behind(run@.start);
        proof {
            lemma_shown_run(*self, p, index as int, offset as int, before);
        }
        match &run.kind {
            ProjectionRunKind::Identity => Some(run.source.start + (offset - run.display.start)),
            ProjectionRunKind::Replacement(None) => {
                if before || (offset == run.display.start && run.display.start
                    < run.display.end) {
                    Some(run.source.start)
                } else {
                    Some(run.source.end)
                }
            },
            ProjectionRunKind::Replacement(Some(mapping)) => mapped_display_to_source(
                mapping,
                run.display.start,
                offset,
                affinity,
                Ghost(p.spans[k]),
            ),
        }
    }
}

/// A run that is shown behind a display offset; with `empty`, or that shows
/// nothing at it.
pub open spec fn run_shown(run: RunView, offset: int, empty: bool) -> bool {
    run.display_end > offset || (empty && run.display_end == offset && run.display_start
        == run.display_end)
}

/// A mapping shows offsets inside its replacement.
pub(crate) proof fn lemma_mapped_bound(span: SpanView, offset: int, affinity: Affinity)
    requires
        span.mapping is Some,
        mapping_valid(span),
    ensures
        mapped_to_display(span.mapping->0, offset, affinity) matches Some(d) ==> 0 <= d
            <= span.replacement.len(),
{
    let entries = span.mapping->0;
    let holds = entry_holds(offset, affinity);
    lemma_first_where(entries, holds, 0);
    let hit = first_where(entries, holds, 0);
    if hit < entries.len() {
        assert(entry_valid(entries, span, hit));
        assert(holds(entries[hit]));
    } else if entries.len() > 0 {
        assert(entry_valid(entries, span, 0));
        assert(entry_valid(entries, span, entries.len() - 1));
        let from = entry_starts_from(offset);
        lemma_first_where(entries, from, 0);
        let next = first_where(entries, from, 0);
        if next < entries.len() {
            assert(entry_valid(entries, span, next));
        }
        let by_end = entry_ends_by(offset);
        lemma_last_where(entries, by_end, entries.len() as int);
        let previous = last_where(entries, by_end, entries.len() as int);
        if previous >= 0 {
            assert(entry_valid(entries, span, previous));
        }
    }
}

/// The first run that is shown at an offset is what the projection shows
/// there.
proof fn lemma_shown_run(map: ProjectionMap, p: ProjectionView, index: int, offset: int, empty: bool)
    requires
        p.valid(),
        map.fits(p),
        0 <= index < map.runs@.len(),
        map.runs@[index]@.display_start <= offset,
        run_shown(map.runs@[index]@, offset, empty),
        forall|k: int|
            0 <= k < index ==> !run_shown(#[trigger] run_views(map.runs@)[k], offset, empty),
    ensures
        ({
            let run = map.runs@[index]@;
            let k = p.span_behind(run.start);
            &&& run.fits(p)
            &&& p.span_showing(offset, empty, 0) == k
            &&& k <= p.spans.len()
            &&& run.replaced ==> k < p.spans.len() && p.display_start(k) == run.display_start
                && mapping_valid(p.spans[k])
            &&& !run.replaced && k < p.spans.len() ==> p.display_start(k) > offset
        }),
{
    reveal(runs_tile);
    let runs = run_views(map.runs@);
    let run = runs[index];
    let k = p.span_behind(run.start);
    assert(run == map.runs@[index]@);
    assert(run.fits(p));
    lemma_span_behind(p, run.start);
    assert forall|j: int| 0 <= j < k implies #[trigger] p.display_end(j) <= offset && !(empty
        && p.display_end(j) == offset && p.spans[j].replacement.len() == 0) by {
        assert(p.spans[j].end <= run.start);
        if j + 1 < k {
            assert(p.spans[j].end <= p.spans[j + 1].start);
            assert(p.spans[k - 1].end <= run.start);
        }
        lemma_growth_bound(p, j + 1, k, p.spans[j].end, run.start);
        assert(p.display_end(j) <= run.display_start);
        if empty && p.display_end(j) == offset && p.spans[j].replacement.len() == 0 {
            lemma_run_of_span(map, p, j);
            let q = choose|q: int|
                0 <= q < runs.len() && (#[trigger] runs[q]).start == p.spans[j].start
                    && runs[q].end == p.spans[j].end && runs[q].display_start == p.display_start(j)
                    && runs[q].display_end == p.display_end(j);
            assert(q < index) by {
                if q > index {
                    assert(runs[index].end <= runs[q].start);
                }
            }
            assert(!run_shown(runs[q], offset, empty));
        }
    }
    if k < p.spans.len() {
        assert(mapping_valid(p.spans[k]));
        if !run.replaced {
            assert(p.display_start(k) >= run.display_end);
        }
    }
    lemma_span_showing_is(p, offset, empty, 0, k);
}

// ---------------------------------------------------------------------------
// Replacing a part
// ---------------------------------------------------------------------------

/// A run before a replaced part stays what it is.
proof fn lemma_fits_before(p: ProjectionView, start: int, end: int, r: ProjectionView, run: RunView)
    requires
        p.valid(),
        r.valid(),
        0 <= start <= end <= p.source_len,
        p.outside(start),
        p.outside(end),
        p.source_len + r.source_len <= usize::MAX,
        run.fits(p),
        run.end <= start,
    ensures
        run.fits(p.spliced(start, end, r)),
{
    reveal(splice_shape);
    reveal(splice_growth);
    let q = p.spliced(start, end, r);
    let from = p.span_behind(start);
    let k = p.span_behind(run.start);
    lemma_spliced(p, start, end, r);
    lemma_span_behind(p, run.start);
    lemma_span_behind(p, start);
    assert(k <= from) by {
        if from < k {
            assert(p.spans[from].end <= run.start);
        }
    }
    if k < from {
        assert(q.spans[k] == p.spans[k]);
    } else if k < q.spans.len() {
        assert(q.spans[k].start >= start);
    }
    assert forall|i: int| 0 <= i < k implies (#[trigger] q.spans[i]).end <= run.start by {
        assert(q.spans[i] == p.spans[i]);
    }
    if k < q.spans.len() {
        assert(q.spans[k].start < q.spans[k].end);
    }
    lemma_span_behind_is(q, run.start, k);
    assert(growth(q.spans, k) == growth(p.spans, k));
}

/// A run of the replacing projection is moved to the replaced part.
proof fn lemma_fits_inside(p: ProjectionView, start: int, end: int, r: ProjectionView, run: RunView)
    requires
        p.valid(),
        r.valid(),
        0 <= start <= end <= p.source_len,
        p.outside(start),
        p.outside(end),
        p.source_len + r.source_len <= usize::MAX,
        run.fits(r),
    ensures
        run.shifted(start, p.shown_at(start)).fits(p.spliced(start, end, r)),
{
    reveal(splice_shape);
    reveal(splice_growth);
    let q = p.spliced(start, end, r);
    let from = p.span_behind(start);
    let m = r.spans.len() as int;
    let k = r.span_behind(run.start);
    lemma_spliced(p, start, end, r);
    lemma_span_behind(r, run.start);
    let moved = run.shifted(start, p.shown_at(start));
    assert forall|i: int| 0 <= i < from + k implies (#[trigger] q.spans[i]).end <= moved.start by {
        if i >= from {
            assert(q.spans[i].end == r.spans[i - from].end + start);
        }
    }
    if k < m {
        assert(q.spans[from + k] == r.spans[k].shifted(start));
        assert(q.spans[from + k].end == r.spans[k].end + start);
        assert(q.spans[from + k].start == r.spans[k].start + start);
    } else if from + m < q.spans.len() {
        assert(q.spans[from + m].start >= start + r.source_len);
        assert(q.spans[from + m].start < q.spans[from + m].end);
    }
    lemma_span_behind_is(q, moved.start, from + k);
    assert(growth(q.spans, from + k) == growth(p.spans, from) + growth(r.spans, k));
}

/// A run behind a replaced part is moved.
proof fn lemma_fits_behind(p: ProjectionView, start: int, end: int, r: ProjectionView, run: RunView)
    requires
        p.valid(),
        r.valid(),
        0 <= start <= end <= p.source_len,
        p.outside(start),
        p.outside(end),
        p.source_len + r.source_len <= usize::MAX,
        run.fits(p),
        end <= run.start,
    ensures
        run.shifted(
            r.source_len - (end - start),
            p.shown_at(start) + r.display_len() - p.shown_at(end),
        ).fits(p.spliced(start, end, r)),
{
    reveal(splice_shape);
    reveal(splice_growth);
    let q = p.spliced(start, end, r);
    let from = p.span_behind(start);
    let to = p.span_behind(end);
    let m = r.spans.len() as int;
    let k = p.span_behind(run.start);
    let delta = r.source_len - (end - start);
    lemma_spliced(p, start, end, r);
    lemma_span_behind(p, run.start);
    lemma_shown_order(p, end, run.start);
    let moved = run.shifted(delta, p.shown_at(start) + r.display_len() - p.shown_at(end));
    let at = from + m + (k - to);
    assert forall|i: int| 0 <= i < at implies (#[trigger] q.spans[i]).end <= moved.start by {
        if i < from {
            assert(q.spans[i].end <= start);
        } else if i < from + m {
            assert(q.spans[i].end == r.spans[i - from].end + start);
        } else {
            assert(q.spans[i].end == p.spans[to + (i - from - m)].end + delta);
        }
    }
    if k < p.spans.len() {
        assert(q.spans[at] == p.spans[k].shifted(delta));
        assert(q.spans[at].end == p.spans[k].end + delta);
        assert(q.spans[at].start == p.spans[k].start + delta);
    }
    lemma_span_behind_is(q, moved.start, at);
    assert(growth(q.spans, at) == growth(p.spans, from) + growth(r.spans, m) + growth(p.spans, k)
        - growth(p.spans, to));
}

/// At the end of the source all spans lie before.
proof fn lemma_shown_end(p: ProjectionView)
    requires
        p.valid(),
    ensures
        p.shown_at(p.source_len) == p.display_len(),
{
    assert forall|i: int| 0 <= i < p.spans.len() implies (#[trigger] p.spans[i]).end
        <= p.source_len by {}
    lemma_span_behind_is(p, p.source_len, p.spans.len() as int);
}

/// A run that an offset outside every span divides is unprojected, and its
/// parts fit.
proof fn lemma_fits_divided(p: ProjectionView, run: RunView, offset: int)
    requires
        p.valid(),
        run.fits(p),
        p.outside(offset),
        run.start < offset < run.end,
    ensures
        !run.replaced,
        run.display_start <= p.shown_at(offset) <= run.display_end,
        (RunView { end: offset, display_end: p.shown_at(offset), ..run }).fits(p),
        (RunView { start: offset, display_start: p.shown_at(offset), ..run }).fits(p),
{
    let k = p.span_behind(run.start);
    lemma_span_behind(p, run.start);
    if run.replaced {
        assert(p.spans[k].inside(offset));
    }
    if k > 0 {
        assert(p.spans[k - 1].end <= run.start);
    }
    if k < p.spans.len() {
        assert(p.spans[k].start < p.spans[k].end);
    }
    lemma_before_span(p, k, offset);
}

/// The string with the bytes between two boundaries replaced.
pub(crate) fn splice_string(text: &str, start: usize, end: usize, insert: &str) -> (out: String)
    requires
        start <= end <= text.spec_bytes().len(),
        at_boundary(text.spec_bytes(), start as int),
        at_boundary(text.spec_bytes(), end as int),
    ensures
        encode_utf8(out@) == splice_bytes(
            text.spec_bytes(),
            start as int,
            end as int,
            insert.spec_bytes(),
        ),
{
    let len = byte_len(text);
    let mut out = sub_string(text, 0, start);
    push_text(&mut out, insert);
    let tail = sub_string(text, end, len);
    push_text(&mut out, tail.as_str());
    out
}

fn shift_runs(runs: &mut Vec<ProjectionRun>, source: (usize, usize), display: (usize, usize))
    requires
        source.0 <= isize::MAX,
        source.1 <= isize::MAX,
        forall|i: int|
            0 <= i < old(runs)@.len() ==> {
                let run = #[trigger] run_views(old(runs)@)[i];
                &&& source.0 <= run.start <= run.end
                &&& run.end - source.0 + source.1 <= usize::MAX
                &&& display.0 <= run.display_start <= run.display_end
                &&& run.display_end - display.0 + display.1 <= usize::MAX
            },
    ensures
        run_views(final(runs)@) == shifted_runs(
            run_views(old(runs)@),
            source.1 - source.0,
            display.1 - display.0,
        ),
{
    let ghost before = run_views(runs@);
    let ghost target = shifted_runs(before, source.1 - source.0, display.1 - display.0);
    let mut i: usize = 0;
    while i < runs.len()
        invariant
            i <= runs.len(),
            runs.len() == before.len(),
            source.0 <= isize::MAX,
            source.1 <= isize::MAX,
            target == shifted_runs(before, source.1 - source.0, display.1 - display.0),
            forall|k: int|
                0 <= k < before.len() ==> {
                    let run = #[trigger] before[k];
                    &&& source.0 <= run.start <= run.end
                    &&& run.end - source.0 + source.1 <= usize::MAX
                    &&& display.0 <= run.display_start <= run.display_end
                    &&& run.display_end - display.0 + display.1 <= usize::MAX
                },
            forall|k: int| 0 <= k < i ==> (#[trigger] runs@[k])@ == target[k],
            forall|k: int| i <= k < before.len() ==> (#[trigger] runs@[k])@ == before[k],
        decreases runs.len() - i,
    {
        assert(runs@[i as int]@ == before[i as int]);
        runs[i].shift(source, display);
        i += 1;
    }
    assert(run_views(runs@) =~= target);
}

impl ProjectionMap {
    /// The first run that ends behind an offset.
    fn first_run_behind(&self, offset: usize) -> (index: usize)
        requires
            self.wf(),
            offset <= self.projection().source_len,
        ensures
            index <= self.runs@.len(),
            offset == self.projection().source_len ==> index == self.runs@.len(),
            offset < self.projection().source_len ==> index < self.runs@.len()
                && self.runs@[index as int]@.start <= offset < self.runs@[index as int]@.end,
    {
        if offset == self.source_len {
            self.runs.len()
        } else {
            self.run_at_source(offset, Ghost(self.projection()))
        }
    }

    /// The runs that stay before an offset outside every span, with what
    /// remains of the run that the offset divides.
    fn cut_before(
        &self,
        source: usize,
        display: usize,
        Ghost(end): Ghost<int>,
        Ghost(r): Ghost<ProjectionView>,
    ) -> (cut: (usize, Option<ProjectionRun>))
        requires
            self.wf(),
            splice_input(self.projection(), source as int, end, r),
            display == self.projection().shown_at(source as int),
        ensures
            cut.0 <= self.runs@.len(),
            cut.0 < self.runs@.len() ==> run_views(self.runs@)[cut.0 as int].start <= source
                < run_views(self.runs@)[cut.0 as int].end,
            cut.0 == self.runs@.len() ==> source == self.projection().source_len,
            head_fits(
                self.projection(),
                source as int,
                end,
                r,
                run_views(self.runs@).subrange(0, cut.0 as int) + optional_run(cut.1),
            ),
    {
        let ghost p = self.projection();
        let ghost runs = run_views(self.runs@);
        let from = self.first_run_behind(source);
        let mut left: Option<ProjectionRun> = None;
        if from < self.runs.len() {
            let run = &self.runs[from];
            assert(run@ == runs[from as int]);
            if run.source.start < source {
                proof {
                    lemma_fits_divided(p, run@, source as int);
                }
                left = Some(
                    ProjectionRun {
                        source: run.source.start..source,
                        display: run.display.start..display,
                        kind: ProjectionRunKind::Identity,
                    },
                );
                assert(optional_run(left) =~= seq![
                    RunView { end: source as int, display_end: display as int, ..runs[from as int] },
                ]);
            }
        }
        proof {
            lemma_splice_left(
                p,
                source as int,
                end,
                r,
                runs,
                from as int,
                optional_run(left),
            );
        }
        (from, left)
    }

    /// The runs that stay behind an offset outside every span, and what
    /// remains, at its new place, of the run that the offset divides.
    fn cut_behind(
        &self,
        source: (usize, usize),
        display: (usize, usize),
        Ghost(start): Ghost<int>,
        Ghost(r): Ghost<ProjectionView>,
    ) -> (cut: (usize, Option<ProjectionRun>))
        requires
            self.wf(),
            splice_input(self.projection(), start, source.0 as int, r),
            source.1 == start + r.source_len,
            display.0 == self.projection().shown_at(source.0 as int),
            display.1 == self.projection().shown_at(start) + r.display_len(),
            self.projection().display_len() - display.0 + display.1 <= usize::MAX,
            self.projection().source_len + r.source_len <= usize::MAX,
        ensures
            cut.0 <= self.runs@.len(),
            tail_fits(
                self.projection(),
                start,
                source.0 as int,
                r,
                optional_run(cut.1) + shifted_runs(
                    run_views(self.runs@).subrange(cut.0 as int, self.runs@.len() as int),
                    source.1 - source.0,
                    display.1 - display.0,
                ),
            ),
            forall|i: int|
                cut.0 <= i < self.runs@.len() ==> {
                    let run = #[trigger] run_views(self.runs@)[i];
                    &&& source.0 <= run.start < run.end <= self.projection().source_len
                    &&& display.0 <= run.display_start <= run.display_end
                        <= self.projection().display_len()
                },
    {
        let ghost p = self.projection();
        let ghost runs = run_views(self.runs@);
        let mut to = self.first_run_behind(source.0);
        let mut right: Option<ProjectionRun> = None;
        if to < self.runs.len() {
            let run = &self.runs[to];
            assert(run@ == runs[to as int]);
            if run.source.start < source.0 {
                proof {
                    lemma_fits_divided(p, run@, source.0 as int);
                    lemma_tile_order(
                        runs,
                        0,
                        p.source_len,
                        0,
                        p.display_len(),
                        to as int,
                        to as int,
                    );
                }
                right = Some(
                    ProjectionRun {
                        source: source.1..run.source.end - source.0 + source.1,
                        display: display.1..run.display.end - display.0 + display.1,
                        kind: ProjectionRunKind::Identity,
                    },
                );
                assert(optional_run(right) =~= seq![
                    (RunView {
                        start: source.0 as int,
                        display_start: p.shown_at(source.0 as int),
                        ..runs[to as int]
                    }).shifted(source.1 - source.0, display.1 - display.0),
                ]);
                to = to + 1;
                if to < self.runs.len() {
                    proof {
                        lemma_tile_order(runs, 0, p.source_len, 0, p.display_len(), to - 1, to as int);
                    }
                }
            } else if to > 0 {
                proof {
                    lemma_tile_order(runs, 0, p.source_len, 0, p.display_len(), to - 1, to as int);
                }
            }
        } else if to > 0 {
            proof {
                lemma_tile_order(runs, 0, p.source_len, 0, p.display_len(), to - 1, to - 1);
            }
        }
        assert forall|i: int| to <= i < runs.len() implies (#[trigger] runs[i]).start
            < runs[i].end <= p.source_len && runs[i].display_start <= runs[i].display_end
            <= p.display_len() by {
            lemma_tile_order(runs, 0, p.source_len, 0, p.display_len(), i, i);
        }
        proof {
            lemma_splice_right(
                p,
                start,
                source.0 as int,
                r,
                runs,
                to as int,
                optional_run(right),
            );
        }
        (to, right)
    }

    /// Replaces a part of the source, which no span reaches into, and of the
    /// display by what another map shows.
    pub(crate) fn splice(
        &mut self,
        source: &Range<usize>,
        display: &Range<usize>,
        replacement: Self,
    )
        requires
            old(self).wf(),
            replacement.wf(),
            source.start <= source.end <= old(self).projection().source_len,
            old(self).projection().outside(source.start as int),
            old(self).projection().outside(source.end as int),
            display.start == old(self).projection().shown_at(source.start as int),
            display.end == old(self).projection().shown_at(source.end as int),
            at_boundary(old(self).display_bytes(), display.start as int),
            at_boundary(old(self).display_bytes(), display.end as int),
            old(self).projection().source_len + replacement.projection().source_len <= isize::MAX,
        ensures
            final(self).shows(
                splice_bytes(
                    old(self).source(),
                    source.start as int,
                    source.end as int,
                    replacement.source(),
                ),
                old(self).projection().spliced(
                    source.start as int,
                    source.end as int,
                    replacement.projection(),
                ),
            ),
    {
        let ghost p = self.projection();
        let ghost r = replacement.projection();
        let ghost start = source.start as int;
        let ghost end = source.end as int;
        let ghost q = p.spliced(start, end, r);
        let ghost next = splice_bytes(self.source(), start, end, replacement.source());
        let ghost runs = run_views(self.runs@);
        let ghost others = run_views(replacement.runs@);
        proof {
            lemma_splice_display(self.source(), p, start, end, replacement.source(), r);
        }
        let shown = splice_string(
            self.display.as_str(),
            display.start,
            display.end,
            replacement.display.as_str(),
        );
        let shown_len = byte_len(shown.as_str());
        let added = byte_len(replacement.display.as_str());
        let seam = source.start + replacement.source_len;
        let display_seam = display.start + added;
        let (from, left) = self.cut_before(source.start, display.start, Ghost(end), Ghost(r));
        let (to, right) = self.cut_behind(
            (source.end, seam),
            (display.end, display_seam),
            Ghost(start),
            Ghost(r),
        );
        let ghost before = optional_run(left);
        let ghost behind = optional_run(right);
        proof {
            assert(from <= to) by {
                if to < from {
                    assert(runs[to as int].start >= end);
                    let last = if from < runs.len() {
                        from as int
                    } else {
                        to as int
                    };
                    lemma_tile_order(runs, 0, p.source_len, 0, p.display_len(), to as int, last);
                }
            }
            assert forall|i: int| 0 <= i < others.len() implies 0 <= (#[trigger] others[i]).start
                <= others[i].end && others[i].end <= r.source_len && 0 <= others[i].display_start
                <= others[i].display_end <= r.display_len() by {
                lemma_tile_order(others, 0, r.source_len, 0, r.display_len(), i, i);
            }
        }
        let mut tail = self.runs.split_off(to);
        proof {
            assert(run_views(tail@) =~= runs.subrange(to as int, runs.len() as int));
            assert forall|i: int| 0 <= i < tail@.len() implies (#[trigger] run_views(tail@)[i])
                == runs[to + i] by {}
        }
        shift_runs(&mut tail, (source.end, seam), (display.end, display_seam));
        self.runs.truncate(from);
        assert(run_views(self.runs@) =~= runs.subrange(0, from as int));
        let mut middle = replacement.runs;
        shift_runs(&mut middle, (0, source.start), (0, display.start));
        join_runs(&mut self.runs, left, middle, right, tail);
        self.display = shown;
        self.source_len = self.source_len - (source.end - source.start) + replacement.source_len;
        self.shown = Ghost((next, q));
        proof {
            lemma_splice_runs(
                p,
                start,
                end,
                r,
                runs,
                others,
                from as int,
                to as int,
                before,
                behind,
            );
            lemma_spliced(p, start, end, r);
        }
    }

    /// A copy of the map.
    pub fn copy(&self) -> (copy: Self)
        requires
            self.wf(),
        ensures
            copy.shows(self.source(), self.projection()),
    {
        let mut runs: Vec<ProjectionRun> = Vec::new();
        let mut i: usize = 0;
        while i < self.runs.len()
            invariant
                i <= self.runs.len(),
                runs.len() == i,
                forall|k: int| 0 <= k < i ==> (#[trigger] runs@[k])@ == self.runs@[k]@,
            decreases self.runs.len() - i,
        {
            let run = &self.runs[i];
            let kind = match &run.kind {
                ProjectionRunKind::Identity => ProjectionRunKind::Identity,
                ProjectionRunKind::Replacement(None) => ProjectionRunKind::Replacement(None),
                ProjectionRunKind::Replacement(Some(mapping)) => ProjectionRunKind::Replacement(
                    Some(copy_mapping(mapping)),
                ),
            };
            let copied = ProjectionRun {
                source: run.source.start..run.source.end,
                display: run.display.start..run.display.end,
                kind,
            };
            assert(copied@ =~= run@);
            runs.push(copied);
            i += 1;
        }
        assert(run_views(runs@) =~= run_views(self.runs@));
        ProjectionMap {
            display: self.display.clone(),
            source_len: self.source_len,
            runs,
            shown: Ghost(self.shown@),
        }
    }
}

/// Joins runs, with a run or none between.
fn join_runs(
    runs: &mut Vec<ProjectionRun>,
    left: Option<ProjectionRun>,
    middle: Vec<ProjectionRun>,
    right: Option<ProjectionRun>,
    tail: Vec<ProjectionRun>,
)
    ensures
        run_views(final(runs)@) == run_views(old(runs)@) + optional_run(left) + run_views(middle@)
            + optional_run(right) + run_views(tail@),
{
    let ghost parts = (
        run_views(runs@),
        optional_run(left),
        run_views(middle@),
        optional_run(right),
        run_views(tail@),
    );
    let mut middle = middle;
    let mut tail = tail;
    if let Some(run) = left {
        runs.push(run);
    }
    assert(run_views(runs@) =~= parts.0 + parts.1);
    runs.append(&mut middle);
    assert(run_views(runs@) =~= parts.0 + parts.1 + parts.2);
    if let Some(run) = right {
        runs.push(run);
    }
    assert(run_views(runs@) =~= parts.0 + parts.1 + parts.2 + parts.3);
    runs.append(&mut tail);
    assert(run_views(runs@) =~= parts.0 + parts.1 + parts.2 + parts.3 + parts.4);
}

/// A part of the source that can be replaced.
pub open spec fn splice_input(p: ProjectionView, start: int, end: int, r: ProjectionView) -> bool {
    &&& p.valid()
    &&& r.valid()
    &&& 0 <= start <= end <= p.source_len
    &&& p.outside(start)
    &&& p.outside(end)
    &&& p.source_len + r.source_len <= usize::MAX
}

/// Runs that fill the spliced projection up to the replaced part.
#[verifier::opaque]
pub open spec fn head_fits(
    p: ProjectionView,
    start: int,
    end: int,
    r: ProjectionView,
    runs: Seq<RunView>,
) -> bool {
    &&& runs_tile(runs, 0, start, 0, p.shown_at(start))
    &&& forall|i: int| 0 <= i < runs.len() ==> (#[trigger] runs[i]).fits(p.spliced(start, end, r))
}

/// Runs that fill the spliced projection from the replaced part on.
#[verifier::opaque]
pub open spec fn tail_fits(
    p: ProjectionView,
    start: int,
    end: int,
    r: ProjectionView,
    runs: Seq<RunView>,
) -> bool {
    let q = p.spliced(start, end, r);
    &&& runs_tile(
        runs,
        start + r.source_len,
        q.source_len,
        p.shown_at(start) + r.display_len(),
        q.display_len(),
    )
    &&& forall|i: int| 0 <= i < runs.len() ==> (#[trigger] runs[i]).fits(q)
}

/// What is displayed after a part was replaced.
proof fn lemma_splice_display(
    bytes: Seq<u8>,
    p: ProjectionView,
    start: int,
    end: int,
    insert: Seq<u8>,
    r: ProjectionView,
)
    requires
        splice_input(p, start, end, r),
        bytes.len() == p.source_len,
        insert.len() == r.source_len,
    ensures
        ({
            let q = p.spliced(start, end, r);
            let next = splice_bytes(bytes, start, end, insert);
            &&& 0 <= p.shown_at(start) <= p.shown_at(end) <= p.display_len()
            &&& rendered(bytes, p.spans).len() == p.display_len()
            &&& rendered(insert, r.spans).len() == r.display_len()
            &&& rendered(next, q.spans).len() == q.display_len()
            &&& rendered(next, q.spans) == splice_bytes(
                rendered(bytes, p.spans),
                p.shown_at(start),
                p.shown_at(end),
                rendered(insert, r.spans),
            )
            &&& q.display_len() == p.shown_at(start) + r.display_len() + (p.display_len()
                - p.shown_at(end))
            &&& next.len() == q.source_len
        }),
{
    lemma_rendered_splice(bytes, p, start, end, insert, r);
    lemma_rendered_len(insert, r);
    lemma_spliced(p, start, end, r);
    lemma_rendered_len(splice_bytes(bytes, start, end, insert), p.spliced(start, end, r));
    reveal(splice_growth);
}

/// A map of which a part was replaced shows what a new map of the new source
/// shows: the same display, in which the display of the part is replaced, and
/// each offset at the same place, in both directions.
pub proof fn law_spliced_maps_show_what_new_maps_do(
    map: ProjectionMap,
    start: int,
    end: int,
    display: (int, int),
    replacement: ProjectionMap,
    spliced: ProjectionMap,
    fresh: ProjectionMap,
)
    requires
        map.wf(),
        replacement.wf(),
        0 <= start <= end <= map.source().len(),
        map.projection().outside(start),
        map.projection().outside(end),
        map.projection().source_to_display(start, Affinity::Before) == Some(display.0),
        map.projection().source_to_display(end, Affinity::Before) == Some(display.1),
        map.source().len() + replacement.source().len() <= usize::MAX,
        ({
            let bytes = splice_bytes(map.source(), start, end, replacement.source());
            let p = map.projection().spliced(start, end, replacement.projection());
            spliced.shows(bytes, p) && fresh.shows(bytes, p)
        }),
    ensures
        map.projection().spliced(start, end, replacement.projection()).valid(),
        spliced.display_bytes() == fresh.display_bytes(),
        spliced.display_bytes() == splice_bytes(
            map.display_bytes(),
            display.0,
            display.1,
            replacement.display_bytes(),
        ),
        forall|offset: int, affinity: Affinity|
            spliced.projection().source_to_display(offset, affinity)
                == #[trigger] fresh.projection().source_to_display(offset, affinity),
        forall|offset: int, affinity: Affinity|
            spliced.projection().display_to_source(offset, affinity)
                == #[trigger] fresh.projection().display_to_source(offset, affinity),
{
    let p = map.projection();
    lemma_splice_display(map.source(), p, start, end, replacement.source(), replacement.projection());
    lemma_seam_shown(p, start, Affinity::Before);
    lemma_seam_shown(p, end, Affinity::Before);
}

/// No run or one.
spec fn optional_run(run: Option<ProjectionRun>) -> Seq<RunView> {
    match run {
        Some(run) => seq![run@],
        None => Seq::empty(),
    }
}

/// The runs before the first seam.
proof fn lemma_splice_left(
    p: ProjectionView,
    start: int,
    end: int,
    r: ProjectionView,
    runs: Seq<RunView>,
    from: int,
    before: Seq<RunView>,
)
    requires
        p.valid(),
        r.valid(),
        0 <= start <= end <= p.source_len,
        p.outside(start),
        p.outside(end),
        p.source_len + r.source_len <= usize::MAX,
        runs_tile(runs, 0, p.source_len, 0, p.display_len()),
        forall|i: int| 0 <= i < runs.len() ==> (#[trigger] runs[i]).fits(p),
        0 <= from <= runs.len(),
        start == p.source_len ==> from == runs.len(),
        start < p.source_len ==> from < runs.len() && runs[from].start <= start < runs[from].end,
        from < runs.len() && runs[from].start < start ==> before == seq![
            RunView { end: start, display_end: p.shown_at(start), ..runs[from] },
        ],
        from == runs.len() || runs[from].start == start ==> before == Seq::<RunView>::empty(),
    ensures
        head_fits(p, start, end, r, runs.subrange(0, from) + before),
{
    reveal(head_fits);
    let q = p.spliced(start, end, r);
    let front = runs.subrange(0, from);
    let all = front + before;
    lemma_tile_split(runs, from, 0, p.source_len, 0, p.display_len());
    lemma_shown_end(p);
    if from < runs.len() && runs[from].start < start {
        lemma_fits_divided(p, runs[from], start);
        lemma_tile_one(before[0]);
        lemma_tile_concat(
            front,
            before,
            0,
            runs[from].start,
            start,
            0,
            runs[from].display_start,
            p.shown_at(start),
        );
    } else {
        assert(all =~= front);
        if from < runs.len() {
            assert(runs[from].fits(p));
        }
    }
    assert forall|i: int| 0 <= i < all.len() implies (#[trigger] all[i]).fits(q) by {
        if i < from {
            assert(all[i] == runs[i]);
            if from < runs.len() {
                lemma_tile_order(runs, 0, p.source_len, 0, p.display_len(), i, from);
            } else {
                lemma_tile_order(runs, 0, p.source_len, 0, p.display_len(), i, i);
            }
        } else {
            assert(all[i] == before[i - from]);
        }
        lemma_fits_before(p, start, end, r, all[i]);
    }
}

/// The runs behind the second seam.
proof fn lemma_splice_right(
    p: ProjectionView,
    start: int,
    end: int,
    r: ProjectionView,
    runs: Seq<RunView>,
    to: int,
    behind: Seq<RunView>,
)
    requires
        p.valid(),
        r.valid(),
        0 <= start <= end <= p.source_len,
        p.outside(start),
        p.outside(end),
        p.source_len + r.source_len <= usize::MAX,
        runs_tile(runs, 0, p.source_len, 0, p.display_len()),
        forall|i: int| 0 <= i < runs.len() ==> (#[trigger] runs[i]).fits(p),
        0 <= to <= runs.len(),
        to < runs.len() ==> runs[to].start >= end,
        to > 0 ==> runs[to - 1].start < end || end == p.source_len,
        (to > 0 && runs[to - 1].end > end) ==> behind == seq![
            (RunView { start: end, display_start: p.shown_at(end), ..runs[to - 1] }).shifted(
                r.source_len - (end - start),
                p.shown_at(start) + r.display_len() - p.shown_at(end),
            ),
        ],
        to == 0 || runs[to - 1].end <= end ==> behind == Seq::<RunView>::empty(),
    ensures
        tail_fits(
            p,
            start,
            end,
            r,
            behind + shifted_runs(
                runs.subrange(to, runs.len() as int),
                r.source_len - (end - start),
                p.shown_at(start) + r.display_len() - p.shown_at(end),
            ),
        ),
        forall|i: int|
            to <= i < runs.len() ==> end <= (#[trigger] runs[i]).start && p.shown_at(end)
                <= runs[i].display_start,
{
    reveal(tail_fits);
    lemma_spliced(p, start, end, r);
    assert(p.spliced(start, end, r).display_len() == p.shown_at(start) + r.display_len() + (
    p.display_len() - p.shown_at(end))) by {
        reveal(splice_growth);
    }
    let q = p.spliced(start, end, r);
    let delta = r.source_len - (end - start);
    let display_delta = p.shown_at(start) + r.display_len() - p.shown_at(end);
    let n = runs.len() as int;
    let tail = runs.subrange(to, n);
    let moved = shifted_runs(tail, delta, display_delta);
    let all = behind + moved;
    lemma_tile_split(runs, to, 0, p.source_len, 0, p.display_len());
    lemma_shown_end(p);
    let seam = if to < n {
        runs[to].start
    } else {
        p.source_len
    };
    let display_seam = if to < n {
        runs[to].display_start
    } else {
        p.display_len()
    };
    lemma_tile_shift(
        tail,
        seam,
        p.source_len,
        display_seam,
        p.display_len(),
        delta,
        display_delta,
    );
    if to > 0 && runs[to - 1].end > end {
        let run = runs[to - 1];
        lemma_fits_divided(p, run, end);
        if to < n {
            lemma_tile_order(runs, 0, p.source_len, 0, p.display_len(), to - 1, to);
        } else {
            lemma_tile_order(runs, 0, p.source_len, 0, p.display_len(), to - 1, to - 1);
        }
        lemma_tile_one(behind[0]);
        lemma_tile_concat(
            behind,
            moved,
            end + delta,
            seam + delta,
            p.source_len + delta,
            p.shown_at(end) + display_delta,
            display_seam + display_delta,
            p.display_len() + display_delta,
        );
        lemma_fits_behind(
            p,
            start,
            end,
            r,
            RunView { start: end, display_start: p.shown_at(end), ..run },
        );
    } else {
        assert(all =~= moved);
        if to > 0 {
            if to < n {
                lemma_tile_order(runs, 0, p.source_len, 0, p.display_len(), to - 1, to);
            } else {
                lemma_tile_order(runs, 0, p.source_len, 0, p.display_len(), to - 1, to - 1);
            }
        } else {
            reveal(runs_tile);
        }
        assert(seam == end);
        if to < n {
            assert(runs[to].fits(p));
        }
    }
    assert forall|i: int| 0 <= i < all.len() implies (#[trigger] all[i]).fits(q) by {
        if i < behind.len() {
            assert(all[i] == behind[i]);
        } else {
            let k = i - behind.len();
            assert(all[i] == moved[k]);
            assert(tail[k] == runs[to + k]);
            if k > 0 {
                lemma_tile_order(runs, 0, p.source_len, 0, p.display_len(), to, to + k);
                lemma_tile_order(runs, 0, p.source_len, 0, p.display_len(), to, to);
            }
            lemma_fits_behind(p, start, end, r, tail[k]);
        }
    }
    assert forall|i: int| to <= i < n implies end <= (#[trigger] runs[i]).start && p.shown_at(end)
        <= runs[i].display_start by {
        lemma_tile_order(runs, 0, p.source_len, 0, p.display_len(), to, i);
        lemma_tile_order(runs, 0, p.source_len, 0, p.display_len(), to, to);
        if to > 0 && runs[to - 1].end > end {
            lemma_fits_divided(p, runs[to - 1], end);
            lemma_tile_order(runs, 0, p.source_len, 0, p.display_len(), to - 1, to);
        }
    }
}

/// All runs after a part was replaced.
proof fn lemma_splice_runs(
    p: ProjectionView,
    start: int,
    end: int,
    r: ProjectionView,
    runs: Seq<RunView>,
    others: Seq<RunView>,
    from: int,
    to: int,
    before: Seq<RunView>,
    behind: Seq<RunView>,
)
    requires
        p.valid(),
        r.valid(),
        0 <= start <= end <= p.source_len,
        p.outside(start),
        p.outside(end),
        p.source_len + r.source_len <= usize::MAX,
        0 <= from <= to <= runs.len(),
        head_fits(p, start, end, r, runs.subrange(0, from) + before),
        runs_tile(others, 0, r.source_len, 0, r.display_len()),
        forall|i: int| 0 <= i < others.len() ==> (#[trigger] others[i]).fits(r),
        tail_fits(
            p,
            start,
            end,
            r,
            behind + shifted_runs(
                runs.subrange(to, runs.len() as int),
                r.source_len - (end - start),
                p.shown_at(start) + r.display_len() - p.shown_at(end),
            ),
        ),
    ensures
        ({
            let q = p.spliced(start, end, r);
            let all = runs.subrange(0, from) + before + shifted_runs(
                others,
                start,
                p.shown_at(start),
            ) + behind + shifted_runs(
                runs.subrange(to, runs.len() as int),
                r.source_len - (end - start),
                p.shown_at(start) + r.display_len() - p.shown_at(end),
            );
            &&& runs_tile(all, 0, q.source_len, 0, q.display_len())
            &&& forall|i: int| 0 <= i < all.len() ==> (#[trigger] all[i]).fits(q)
        }),
{
    reveal(head_fits);
    reveal(tail_fits);
    let q = p.spliced(start, end, r);
    let delta = r.source_len - (end - start);
    let display_delta = p.shown_at(start) + r.display_len() - p.shown_at(end);
    let a = runs.subrange(0, from) + before;
    let b = shifted_runs(others, start, p.shown_at(start));
    let c = behind + shifted_runs(runs.subrange(to, runs.len() as int), delta, display_delta);
    lemma_spliced(p, start, end, r);
    assert(q.display_len() == p.display_len() + display_delta) by {
        reveal(splice_growth);
    }
    lemma_tile_shift(others, 0, r.source_len, 0, r.display_len(), start, p.shown_at(start));
    let seam = start + r.source_len;
    let display_seam = p.shown_at(start) + r.display_len();
    lemma_tile_concat(a, b, 0, start, seam, 0, p.shown_at(start), display_seam);
    lemma_tile_concat(a + b, c, 0, seam, q.source_len, 0, display_seam, q.display_len());
    let all = a + b + c;
    assert forall|i: int| 0 <= i < all.len() implies (#[trigger] all[i]).fits(q) by {
        if i < a.len() {
            assert(all[i] == a[i]);
        } else if i < a.len() + b.len() {
            let k = i - a.len();
            assert(all[i] == b[k]);
            lemma_fits_inside(p, start, end, r, others[k]);
        } else {
            assert(all[i] == c[i - a.len() - b.len()]);
        }
    }
    assert(runs.subrange(0, from) + before + b + behind + shifted_runs(
        runs.subrange(to, runs.len() as int),
        delta,
        display_delta,
    ) =~= all);
}

} // verus!
