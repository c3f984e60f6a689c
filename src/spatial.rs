//! Bulk-loaded R-tree over segment bounding boxes, answering rectangular
//! region queries.
use rstar::primitives::{GeomWithData, Rectangle};
use rstar::{RTree, AABB};
use vstd::multiset::Multiset;
use vstd::prelude::*;

use crate::segment::AlignmentSegment;

verus! {

/// An R-tree of boxes, each tagged with the position of its segment.
/// Verus does not take rstar's trait bounds in a type declaration, so the
/// tree is held opaquely here and described by `tree_entries`.
#[verifier::external_body]
pub struct BoxTree {
    tree: RTree<GeomWithData<Rectangle<[i64; 2]>, usize>>,
}

/// An entry of a box tree: (tag, lowest x, lowest y, highest x, highest y).
pub type BoxEntry = (usize, i64, i64, i64, i64);

/// The entries a box tree holds.
pub uninterp spec fn tree_entries(t: BoxTree) -> Multiset<(usize, i64, i64, i64, i64)>;

/// The box of `e` shares at least one point with `[x0, x1] × [y0, y1]`.
pub open spec fn entry_meets(e: BoxEntry, x0: int, y0: int, x1: int, y1: int) -> bool {
    &&& e.1 <= x1
    &&& x0 <= e.3
    &&& e.2 <= y1
    &&& y0 <= e.4
}

/// The box has its lower corner at or below its upper corner.
pub open spec fn entry_ordered(e: BoxEntry) -> bool {
    e.1 <= e.3 && e.2 <= e.4
}

/// Relies on rstar::RTree::bulk_load (with Rectangle::from_corners and
/// GeomWithData::new): the tree holds exactly the given boxes with their tags.
#[verifier::external_body]
fn bulk_load_boxes(entries: Vec<BoxEntry>) -> (t: BoxTree)
    requires
        forall|i: int| 0 <= i < entries@.len() ==> entry_ordered(#[trigger] entries@[i]),
    ensures
        tree_entries(t) == entries@.to_multiset(),
{
    BoxTree {
        tree: RTree::bulk_load(
            entries.into_iter().map(
                |(tag, x0, y0, x1, y1)| GeomWithData::new(Rectangle::from_corners([x0, y0], [x1, y1]), tag),
            ).collect(),
        ),
    }
}

/// Relies on rstar::RTree::locate_in_envelope_intersecting: it yields each
/// element whose box touches or overlaps the query box, once.
#[verifier::external_body]
fn locate_meeting(t: &BoxTree, x0: i64, y0: i64, x1: i64, y1: i64) -> (r: Vec<BoxEntry>)
    requires
        x0 <= x1,
        y0 <= y1,
    ensures
        forall|e: BoxEntry| #[trigger]
            r@.to_multiset().count(e) == if entry_meets(e, x0 as int, y0 as int, x1 as int, y1 as int) {
                tree_entries(*t).count(e)
            } else {
                0
            },
{
    t.tree.locate_in_envelope_intersecting(&AABB::from_corners([x0, y0], [x1, y1])).map(
        |g| (g.data, g.geom().lower()[0], g.geom().lower()[1], g.geom().upper()[0], g.geom().upper()[1]),
    ).collect()
}

/// An integer query rectangle `[x, x + w] × [y, y + h]`.
#[derive(Debug, Clone, Copy, PartialEq, Eq, Structural)]
pub struct Region {
    pub x: i64,
    pub y: i64,
    pub w: i64,
    pub h: i64,
}

impl Region {
    pub fn new(x: i64, y: i64, w: i64, h: i64) -> (r: Region)
        ensures
            r == (Region { x, y, w, h }),
    {
        Region { x, y, w, h }
    }

    /// The rectangle has positive area.
    pub open spec fn has_area(self) -> bool {
        self.w > 0 && self.h > 0
    }

    /// The bounding box of `s` shares a point with this rectangle, which
    /// has positive area.
    pub open spec fn hits(self, s: AlignmentSegment) -> bool {
        &&& self.has_area()
        &&& s.a_low() <= self.x + self.w
        &&& self.x <= s.a_high()
        &&& s.b_low() <= self.y + self.h
        &&& self.y <= s.b_high()
    }
}

/// The box entry of the segment at position `i`.
pub open spec fn entry_of(i: int, s: AlignmentSegment) -> BoxEntry {
    (i as usize, s.a_low(), s.b_low(), s.a_high(), s.b_high())
}

pub open spec fn entries_of(segs: Seq<AlignmentSegment>) -> Seq<BoxEntry> {
    Seq::new(segs.len(), |i: int| entry_of(i, segs[i]))
}

/// `ix` lists, once each, exactly the positions of the segments of `segs`
/// that `v` hits.
pub open spec fn hit_positions(ix: Seq<usize>, segs: Seq<AlignmentSegment>, v: Region) -> bool {
    &&& ix.no_duplicates()
    &&& forall|k: int| 0 <= k < ix.len() ==> ix[k] < segs.len() && v.hits(segs[ix[k] as int])
    &&& forall|i: int| 0 <= i < segs.len() && v.hits(segs[i]) ==> ix.contains(i as usize)
}

/// A segment set with its bulk-loaded R-tree; immutable once built.
pub struct SpatialIndex {
    tree: BoxTree,
    segments: Vec<AlignmentSegment>,
}

impl View for SpatialIndex {
    type V = Seq<AlignmentSegment>;

    closed spec fn view(&self) -> Seq<AlignmentSegment> {
        self.segments@
    }
}

impl SpatialIndex {
    #[verifier::type_invariant]
    spec fn inv(&self) -> bool {
        &&& self.segments@.len() <= usize::MAX
        &&& tree_entries(self.tree) == entries_of(self.segments@).to_multiset()
    }

    /// Bulk-loads the index over `segments`.
    pub fn build(segments: Vec<AlignmentSegment>) -> (r: SpatialIndex)
        ensures
            r@ == segments@,
    {
        let mut entries: Vec<BoxEntry> = Vec::new();
        let mut i: usize = 0;
        while i < segments.len()
            invariant
                0 <= i <= segments@.len(),
                entries@ == entries_of(segments@).subrange(0, i as int),
            decreases segments@.len() - i,
        {
            let s = segments[i];
            let alo = if s.abeg <= s.aend { s.abeg } else { s.aend };
            let ahi = if s.abeg <= s.aend { s.aend } else { s.abeg };
            let blo = if s.bbeg <= s.bend { s.bbeg } else { s.bend };
            let bhi = if s.bbeg <= s.bend { s.bend } else { s.bbeg };
            entries.push((i, alo, blo, ahi, bhi));
            i = i + 1;
            assert(entries@ =~= entries_of(segments@).subrange(0, i as int));
        }
        assert(entries@ =~= entries_of(segments@));
        let tree = bulk_load_boxes(entries);
        SpatialIndex { tree, segments }
    }

    /// The indexed segments.
    pub fn segments(&self) -> (r: &Vec<AlignmentSegment>)
        ensures
            r@ == self@,
    {
        &self.segments
    }

    /// Positions of the segments whose bounding box shares a point with
    /// the query rectangle; empty for a rectangle without area.
    pub fn query_indices(&self, v: &Region) -> (r: Vec<usize>)
        ensures
            hit_positions(r@, self@, *v),
    {
        proof {
            use_type_invariant(self);
        }
        let mut out: Vec<usize> = Vec::new();
        if v.w <= 0 || v.h <= 0 {
            return out;
        }
        let x1 = if v.x > i64::MAX - v.w { i64::MAX } else { v.x + v.w };
        let y1 = if v.y > i64::MAX - v.h { i64::MAX } else { v.y + v.h };
        let found = locate_meeting(&self.tree, v.x, v.y, x1, y1);
        let ghost segs = self.segments@;
        let ghost es = entries_of(segs);
        proof {
            assert(es.no_duplicates()) by {
                assert forall|a: int, b: int| 0 <= a < es.len() && 0 <= b < es.len() && a != b
                    implies es[a] != es[b] by {
                    assert(es[a].0 == a as usize);
                    assert(es[b].0 == b as usize);
                }
            }
            es.lemma_multiset_has_no_duplicates();
            found@.to_multiset_ensures();
            es.to_multiset_ensures();
            assert forall|e: BoxEntry| found@.to_multiset().contains(e) implies found@.to_multiset().count(e) == 1 by {
                assert(es.to_multiset().contains(e));
            }
            found@.lemma_multiset_has_no_duplicates_conv();
            assert forall|j: int| 0 <= j < found@.len() implies es.contains(#[trigger] found@[j]) by {
                assert(found@.contains(found@[j]));
                assert(found@.to_multiset().count(found@[j]) > 0);
            }
        }
        let mut k: usize = 0;
        while k < found.len()
            invariant
                0 <= k <= found@.len(),
                found@.no_duplicates(),
                out@.len() == k,
                forall|j: int| 0 <= j < k ==> out@[j] == #[trigger] found@[j].0,
                forall|j: int| 0 <= j < found@.len() ==> es.contains(#[trigger] found@[j]),
            decreases found@.len() - k,
        {
            out.push(found[k].0);
            k = k + 1;
        }
        proof {
            assert forall|j: int| 0 <= j < found@.len() implies #[trigger] found@[j] == es[found@[j].0 as int]
                && found@[j].0 < segs.len() by {
                let t = choose|t: int| 0 <= t < es.len() && es[t] == found@[j];
                assert(es[t].0 == t as usize);
            }
            assert forall|a: int, b: int| 0 <= a < out@.len() && 0 <= b < out@.len() && a != b
                implies out@[a] != out@[b] by {
                assert(found@[a] != found@[b]);
            }
            assert forall|j: int| 0 <= j < out@.len() implies out@[j] < segs.len() && v.hits(
                segs[out@[j] as int],
            ) by {
                let e = found@[j];
                assert(found@.contains(e));
                assert(found@.to_multiset().count(e) > 0);
            }
            assert forall|i: int| 0 <= i < segs.len() && v.hits(segs[i]) implies out@.contains(
                i as usize,
            ) by {
                let e = es[i];
                assert(es.contains(e));
                assert(entry_meets(e, v.x as int, v.y as int, x1 as int, y1 as int));
                assert(found@.to_multiset().count(e) > 0);
                let j = choose|j: int| 0 <= j < found@.len() && found@[j] == e;
                assert(out@[j] == i as usize);
            }
        }
        out
    }
}

} // verus!
