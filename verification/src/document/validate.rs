//! Whether ranges, regions and projections fit a text.

use crate::document::projection::{
    DocumentProjection, ProjectionError, ProjectionSpan, ProjectionView, SpanView,
};
use crate::document::region::{
    regions_on_boundaries, DocumentRegion, DocumentRegions, EditPolicy, RegionError,
};
use crate::document::transaction::ends;
use crate::scan::{first_fault, lemma_first_fault};
use crate::text::{at_boundary, boundary_range, SourceText};
use std::ops::Range;
use vstd::prelude::*;

verus! {

/// Whether a range lies in a text, between characters.
pub fn valid_source_range(source: &SourceText, range: &Range<usize>) -> (valid: bool)
    ensures
        valid == boundary_range(source.bytes(), *range),
{
    range.start <= range.end && range.end <= source.len() && source.is_boundary(range.start)
        && source.is_boundary(range.end)
}

/// A region that does not lie between characters.
pub open spec fn boundary_fault<I>(regions: Seq<DocumentRegion<I>>, bytes: Seq<u8>) -> spec_fn(
    int,
) -> Option<RegionError> {
    |i: int|
        if regions[i].start() <= regions[i].end() <= bytes.len() && at_boundary(
            bytes,
            regions[i].start(),
        ) && at_boundary(bytes, regions[i].end()) {
            None
        } else {
            Some(RegionError::InvalidBoundary { index: i as usize })
        }
}

/// The first region that does not lie between characters.
pub open spec fn boundaries_fault<I>(regions: Seq<DocumentRegion<I>>, bytes: Seq<u8>) -> Option<
    RegionError,
> {
    first_fault(boundary_fault(regions, bytes), 0, regions.len() as int)
}

/// Whether all regions lie between characters.
pub fn validate_region_boundaries<I>(regions: &DocumentRegions<I>, source: &SourceText) -> (result:
    Result<(), RegionError>)
    ensures
        match result {
            Ok(()) => boundaries_fault(regions.items(), source.bytes()) is None
                && regions_on_boundaries(regions.items(), source.bytes()),
            Err(error) => boundaries_fault(regions.items(), source.bytes()) == Some(error),
        },
{
    let ghost fault = boundary_fault(regions.items(), source.bytes());
    let mut i: usize = 0;
    while i < regions.regions.len()
        invariant
            i <= regions.regions.len(),
            fault == boundary_fault(regions.items(), source.bytes()),
            boundaries_fault(regions.items(), source.bytes()) == first_fault(
                fault,
                i as int,
                regions.items().len() as int,
            ),
        decreases regions.regions.len() - i,
    {
        let range = regions.regions[i].range();
        if !valid_source_range(source, &range) {
            assert(fault(i as int) is Some);
            return Err(RegionError::InvalidBoundary { index: i });
        }
        assert(fault(i as int) is None);
        i += 1;
    }
    proof {
        lemma_first_fault(fault, 0, regions.items().len() as int);
        assert forall|k: int| 0 <= k < regions.items().len() implies at_boundary(
            source.bytes(),
            (#[trigger] regions.items()[k]).start(),
        ) && at_boundary(source.bytes(), regions.items()[k].end()) by {
            assert(fault(k) is None);
        }
    }
    Ok(())
}

/// The mapping entries of a span lie between characters.
pub open spec fn mapping_on_boundaries(span: SpanView, bytes: Seq<u8>) -> bool {
    match span.mapping {
        Some(entries) => forall|k: int|
            0 <= k < entries.len() ==> at_boundary(bytes, (#[trigger] entries[k]).spec_source().0)
                && at_boundary(bytes, entries[k].spec_source().1),
        None => true,
    }
}

/// A span reaches into an editable region.
pub open spec fn touches_editable<I>(span: SpanView, regions: Seq<DocumentRegion<I>>) -> bool {
    exists|r: int|
        0 <= r < regions.len() && (#[trigger] regions[r]).spec_policy() == EditPolicy::Editable
            && span.start < regions[r].end() && regions[r].start() < span.end
}

/// What keeps a span from being projected: it or its mapping does not lie
/// between characters, or it reaches into an editable region.
pub open spec fn projected_fault<I>(
    projection: ProjectionView,
    regions: Seq<DocumentRegion<I>>,
    bytes: Seq<u8>,
) -> spec_fn(int) -> Option<ProjectionError> {
    |i: int|
        {
            let span = projection.spans[i];
            if !(span.start <= span.end <= bytes.len() && at_boundary(bytes, span.start)
                && at_boundary(bytes, span.end)) {
                Some(ProjectionError::InvalidBoundary(span.range()))
            } else if !mapping_on_boundaries(span, bytes) {
                Some(ProjectionError::InvalidMapping(span.range()))
            } else if touches_editable(span, regions) {
                Some(ProjectionError::EditableOverlap(span.range()))
            } else {
                None
            }
        }
}

/// Why a projection does not fit a text and its regions: it was made for
/// another length, or a span has a fault; the first such is named.
pub open spec fn projection_fault<I>(
    projection: ProjectionView,
    regions: Seq<DocumentRegion<I>>,
    bytes: Seq<u8>,
) -> Option<ProjectionError> {
    if projection.source_len != bytes.len() {
        Some(
            ProjectionError::SourceLength {
                expected: bytes.len() as usize,
                actual: projection.source_len as usize,
            },
        )
    } else {
        first_fault(
            projected_fault(projection, regions, bytes),
            0,
            projection.spans.len() as int,
        )
    }
}

/// No span of a projection that fits reaches into an editable region.
pub proof fn law_projection_spares_editable_text<I>(
    projection: ProjectionView,
    regions: Seq<DocumentRegion<I>>,
    bytes: Seq<u8>,
    span: int,
    region: int,
)
    requires
        projection_fault(projection, regions, bytes) is None,
        0 <= span < projection.spans.len(),
        0 <= region < regions.len(),
        regions[region].spec_policy() == EditPolicy::Editable,
    ensures
        projection.spans[span].end <= regions[region].start() || regions[region].end()
            <= projection.spans[span].start,
{
    lemma_first_fault(
        projected_fault(projection, regions, bytes),
        0,
        projection.spans.len() as int,
    );
    assert(projected_fault(projection, regions, bytes)(span) is None);
}

/// A projection that fits lies between characters, and its spans reach into
/// no editable region.
pub proof fn lemma_projection_fits<I>(
    projection: ProjectionView,
    regions: Seq<DocumentRegion<I>>,
    bytes: Seq<u8>,
)
    requires
        projection_fault(projection, regions, bytes) is None,
    ensures
        projection.source_len == bytes.len(),
        projection.on_boundaries(bytes),
        forall|i: int|
            0 <= i < projection.spans.len() ==> mapping_on_boundaries(
                #[trigger] projection.spans[i],
                bytes,
            ) && !touches_editable(projection.spans[i], regions),
{
    let fault = projected_fault(projection, regions, bytes);
    lemma_first_fault(fault, 0, projection.spans.len() as int);
    assert forall|i: int| 0 <= i < projection.spans.len() implies at_boundary(
        bytes,
        (#[trigger] projection.spans[i]).start,
    ) && at_boundary(bytes, projection.spans[i].end) && mapping_on_boundaries(
        projection.spans[i],
        bytes,
    ) && !touches_editable(projection.spans[i], regions) by {
        assert(fault(i) is None);
    }
}

/// Whether the mapping entries of a span lie between characters.
fn check_mapping_boundaries(span: &ProjectionSpan, source: &SourceText) -> (ok: bool)
    ensures
        ok == mapping_on_boundaries(span@, source.bytes()),
{
    match &span.mapping {
        None => true,
        Some(entries) => {
            let mut i: usize = 0;
            while i < entries.len()
                invariant
                    i <= entries@.len(),
                    span@.mapping == Some(entries@),
                    forall|k: int|
                        0 <= k < i ==> at_boundary(
                            source.bytes(),
                            (#[trigger] entries@[k]).spec_source().0,
                        ) && at_boundary(source.bytes(), entries@[k].spec_source().1),
                decreases entries@.len() - i,
            {
                let range = entries[i].source();
                if !source.is_boundary(range.start) || !source.is_boundary(range.end) {
                    proof {
                        let bad = entries@[i as int];
                        assert(ends(range) == bad.spec_source());
                        assert(!(at_boundary(source.bytes(), bad.spec_source().0) && at_boundary(
                            source.bytes(),
                            bad.spec_source().1,
                        )));
                        let all = span@.mapping->0;
                        assert(all[i as int] == bad);
                        assert(!mapping_on_boundaries(span@, source.bytes()));
                    }
                    return false;
                }
                i += 1;
            }
            true
        },
    }
}

/// Whether a span reaches into an editable region.
fn check_touches_editable<I>(span: &Range<usize>, regions: &DocumentRegions<I>, Ghost(view): Ghost<
    SpanView,
>) -> (touches: bool)
    requires
        view.start == span.start,
        view.end == span.end,
    ensures
        touches == touches_editable(view, regions.items()),
{
    let mut i: usize = 0;
    while i < regions.regions.len()
        invariant
            i <= regions.regions.len(),
            view.start == span.start,
            view.end == span.end,
            forall|r: int|
                0 <= r < i ==> !((#[trigger] regions.items()[r]).spec_policy()
                    == EditPolicy::Editable && view.start < regions.items()[r].end()
                    && regions.items()[r].start() < view.end),
        decreases regions.regions.len() - i,
    {
        let region = &regions.regions[i];
        if region.policy == EditPolicy::Editable && span.start < region.range.end
            && region.range.start < span.end {
            assert(regions.items()[i as int].spec_policy() == EditPolicy::Editable);
            return true;
        }
        i += 1;
    }
    false
}

/// Whether a projection fits a text and its regions.
pub fn validate_projection<I>(
    projection: &DocumentProjection,
    regions: &DocumentRegions<I>,
    source: &SourceText,
) -> (result: Result<(), ProjectionError>)
    ensures
        match result {
            Ok(()) => projection_fault(projection@, regions.items(), source.bytes()) is None,
            Err(error) => projection_fault(projection@, regions.items(), source.bytes()) == Some(
                error,
            ),
        },
{
    let len = source.len();
    if projection.source_len != len {
        return Err(
            ProjectionError::SourceLength { expected: len, actual: projection.source_len },
        );
    }
    let ghost fault = projected_fault(projection@, regions.items(), source.bytes());
    let mut i: usize = 0;
    while i < projection.spans.len()
        invariant
            i <= projection.spans.len(),
            len == source.bytes().len(),
            projection@.source_len == len,
            fault == projected_fault(projection@, regions.items(), source.bytes()),
            projection_fault(projection@, regions.items(), source.bytes()) == first_fault(
                fault,
                i as int,
                projection@.spans.len() as int,
            ),
        decreases projection.spans.len() - i,
    {
        let span = &projection.spans[i];
        let range = span.source();
        assert(projection@.spans[i as int] == span@);
        assert(range == span@.range());
        if !valid_source_range(source, &range) {
            assert(fault(i as int) == Some(ProjectionError::InvalidBoundary(range)));
            return Err(ProjectionError::InvalidBoundary(range));
        }
        if !check_mapping_boundaries(span, source) {
            assert(fault(i as int) == Some(ProjectionError::InvalidMapping(range)));
            return Err(ProjectionError::InvalidMapping(range));
        }
        if check_touches_editable(&range, regions, Ghost(span@)) {
            assert(fault(i as int) == Some(ProjectionError::EditableOverlap(range)));
            return Err(ProjectionError::EditableOverlap(range));
        }
        assert(fault(i as int) is None);
        i += 1;
    }
    Ok(())
}

} // verus!
