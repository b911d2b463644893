//! The map: a fixed number of section slots, filled one at a time and then
//! completed, which chains the sections into one path.
use vstd::prelude::*;
use crate::section::{MapSection, MapSectionShape, MapSectionStraigth, TrackGeometry};

verus! {

pub const MAP_SECTIONS_MAX_COUNT: usize = 20;

/// Description of a map (a track)
#[derive(Clone, Copy)]
pub struct TrackMap<P> {
    /// Number of used sections
    pub length: usize,
    /// Sections (index zero is the starting one)
    pub sections: [MapSection<P>; MAP_SECTIONS_MAX_COUNT],
}

/// One past the highest slot below `n` that holds a valid section; zero
/// when there is none.
pub open spec fn valid_extent<P: TrackGeometry>(sections: Seq<MapSection<P>>, n: int) -> int
    decreases n,
{
    if n <= 0 {
        0
    } else if sections[n - 1].valid() {
        n
    } else {
        valid_extent(sections, n - 1)
    }
}

/// An unused slot: a straight of no length and no width (not valid), its
/// geometry at the origin pose.
pub open spec fn is_empty_slot<P: TrackGeometry>(s: MapSection<P>) -> bool {
    &&& s.shape == MapSectionShape::Straigth(MapSectionStraigth { length: 0 })
    &&& s.width_start == 0 && s.width_end == 0
    &&& s.start == P::origin_pose() && s.end == P::origin_pose() && s.center == P::origin_pose()
    &&& !s.valid()
}

/// Two section lists hold the same configuration: shapes and widths.
pub open spec fn same_configuration<P>(a: Seq<MapSection<P>>, b: Seq<MapSection<P>>) -> bool {
    &&& a.len() == b.len()
    &&& forall|i: int|
        0 <= i < a.len() ==> (#[trigger] a[i]).shape == b[i].shape && a[i].width_start
            == b[i].width_start && a[i].width_end == b[i].width_end
}

/// Index `i` brought into the map: modulo the length, once there is one.
pub open spec fn wrap_index(length: int, i: int) -> int {
    if length > 0 {
        i % length
    } else {
        i
    }
}

/// What completing the configuration of `before` gives: the length is one
/// past the last valid section; shapes and widths stay; a valid result is
/// chained and placed by the geometry; an invalid one keeps every section as it was; slots past the
/// length are untouched.
pub open spec fn completion<P: TrackGeometry>(before: TrackMap<P>, after: TrackMap<P>) -> bool {
    &&& after.length == valid_extent(before.sections@, MAP_SECTIONS_MAX_COUNT as int)
    &&& same_configuration(after.sections@, before.sections@)
    &&& after.valid() ==> after.chained() && after.placed()
    &&& !after.valid() ==> after.sections == before.sections
    &&& forall|i: int|
        after.length <= i < MAP_SECTIONS_MAX_COUNT ==> #[trigger] after.sections@[i]
            == before.sections@[i]
}

impl<P: TrackGeometry> TrackMap<P> {
    /// The map rule: at least one section, and every used one valid.
    pub open spec fn valid(&self) -> bool {
        &&& 0 < self.length <= MAP_SECTIONS_MAX_COUNT
        &&& forall|i: int| 0 <= i < self.length ==> (#[trigger] self.sections@[i]).valid()
    }

    /// Each used section starts where the one before it ends.
    pub open spec fn chained(&self) -> bool {
        forall|i: int|
            0 <= i < self.length - 1 ==> #[trigger] self.sections@[i + 1].start
                == self.sections@[i].end
    }

    /// The first used section starts at the origin pose, and each used
    /// section ends and is centered where the geometry puts it from its
    /// start.
    pub open spec fn placed(&self) -> bool {
        &&& self.length > 0 ==> self.sections@[0].start == P::origin_pose()
        &&& forall|i: int|
            0 <= i < self.length ==> (#[trigger] self.sections@[i]).end == P::advanced(
                self.sections@[i].start,
                self.sections@[i].shape,
            ).0 && self.sections@[i].center == P::advanced(
                self.sections@[i].start,
                self.sections@[i].shape,
            ).1
    }

    fn empty_section() -> (r: MapSection<P>)
        ensures
            is_empty_slot(r),
    {
        MapSection::new(MapSectionShape::Straigth(MapSectionStraigth { length: 0 }), 0, 0)
    }

    /// Create an empty (invalid) map
    pub fn new() -> (r: Self)
        ensures
            r.length == 0,
            forall|i: int| 0 <= i < MAP_SECTIONS_MAX_COUNT ==> is_empty_slot(#[trigger] r.sections@[i]),
    {
        let e = Self::empty_section();
        TrackMap { length: 0, sections: [e; MAP_SECTIONS_MAX_COUNT] }
    }

    /// Reset map to an empty (invalid) state
    pub fn reset(&mut self)
        ensures
            final(self).length == 0,
            forall|i: int|
                0 <= i < MAP_SECTIONS_MAX_COUNT ==> is_empty_slot(#[trigger] final(self).sections@[i]),
    {
        self.length = 0;
        let mut i: usize = 0;
        while i < MAP_SECTIONS_MAX_COUNT
            invariant
                self.length == 0,
                i <= MAP_SECTIONS_MAX_COUNT,
                forall|j: int| 0 <= j < i ==> is_empty_slot(#[trigger] self.sections@[j]),
            decreases MAP_SECTIONS_MAX_COUNT - i,
        {
            self.sections[i] = Self::empty_section();
            i += 1;
        }
    }

    /// Configure section at index: its shape and widths are stored, its
    /// geometry is reset to the origin pose.
    pub fn configure_section(&mut self, index: usize, section: &MapSection<P>)
        requires
            index < MAP_SECTIONS_MAX_COUNT,
        ensures
            final(self).length == old(self).length,
            final(self).sections@ == old(self).sections@.update(
                index as int,
                MapSection {
                    shape: section.shape,
                    width_start: section.width_start,
                    width_end: section.width_end,
                    start: P::origin_pose(),
                    end: P::origin_pose(),
                    center: P::origin_pose(),
                },
            ),
    {
        self.sections[index] = MapSection::new(section.shape, section.width_start, section.width_end);
    }

    /// The section at `index` taken around the map: modulo the length, once
    /// there is one.
    pub fn section_at(&self, index: usize) -> (r: MapSection<P>)
        requires
            self.length <= MAP_SECTIONS_MAX_COUNT,
            self.length > 0 || index < MAP_SECTIONS_MAX_COUNT,
        ensures
            r == self.sections@[wrap_index(self.length as int, index as int)],
    {
        self.sections[self.fix_index(index)]
    }

    /// Complete configuration after all sections have been defined: the
    /// length becomes one past the last valid section; then, only if the map
    /// is valid, each section is placed after the one before it, the first
    /// at the origin pose.
    pub fn complete_configuration(&mut self)
        ensures
            completion(*old(self), *final(self)),
    {
        self.length = 0;
        let mut i: usize = 0;
        while i < MAP_SECTIONS_MAX_COUNT
            invariant
                i <= MAP_SECTIONS_MAX_COUNT,
                self.sections == old(self).sections,
                self.length == valid_extent(old(self).sections@, i as int),
            decreases MAP_SECTIONS_MAX_COUNT - i,
        {
            if self.sections[i].is_valid() {
                self.length = i + 1;
            }
            i += 1;
        }
        proof {
            lemma_valid_extent_bound(old(self).sections@, MAP_SECTIONS_MAX_COUNT as int);
        }
        if self.is_valid() {
            let mut start = P::origin();
            let mut i: usize = 0;
            while i < self.length
                invariant
                    0 < self.length <= MAP_SECTIONS_MAX_COUNT,
                    self.length == valid_extent(old(self).sections@, MAP_SECTIONS_MAX_COUNT as int),
                    i <= self.length,
                    i > 0 ==> self.sections@[i - 1].end == start,
                    i == 0 ==> start == P::origin_pose(),
                    i > 0 ==> self.sections@[0].start == P::origin_pose(),
                    forall|j: int|
                        0 <= j < i - 1 ==> #[trigger] self.sections@[j + 1].start
                            == self.sections@[j].end,
                    forall|j: int|
                        0 <= j < i ==> (#[trigger] self.sections@[j]).end == P::advanced(
                            self.sections@[j].start,
                            self.sections@[j].shape,
                        ).0 && self.sections@[j].center == P::advanced(
                            self.sections@[j].start,
                            self.sections@[j].shape,
                        ).1,
                    same_configuration(self.sections@, old(self).sections@),
                    forall|j: int|
                        i <= j < MAP_SECTIONS_MAX_COUNT ==> #[trigger] self.sections@[j]
                            == old(self).sections@[j],
                decreases self.length - i,
            {
                let mut section = self.sections[i];
                section.start = start;
                let (end, center) = P::advance(&start, &section.shape);
                section.end = end;
                section.center = center;
                self.sections[i] = section;
                start = end;
                i += 1;
            }
        }
    }

    /// Check if map is valid
    pub fn is_valid(&self) -> (r: bool)
        ensures
            r == self.valid(),
    {
        if self.length == 0 || self.length > MAP_SECTIONS_MAX_COUNT {
            return false;
        }
        let mut i: usize = 0;
        while i < self.length
            invariant
                0 < self.length <= MAP_SECTIONS_MAX_COUNT,
                i <= self.length,
                forall|j: int| 0 <= j < i ==> (#[trigger] self.sections@[j]).valid(),
            decreases self.length - i,
        {
            if !self.sections[i].is_valid() {
                return false;
            }
            i += 1;
        }
        true
    }

    /// Make sure section index is inside map (wrap it if needed)
    pub fn fix_index(&self, index: usize) -> (r: usize)
        ensures
            r == wrap_index(self.length as int, index as int),
    {
        if self.length > 0 {
            index % self.length
        } else {
            index
        }
    }

    /// Compute next section index
    pub fn next_index(&self, index: usize) -> (r: usize)
        requires
            self.length > 0 || index < usize::MAX,
        ensures
            r == wrap_index(self.length as int, index + 1),
    {
        if self.length > 0 {
            let i = index % self.length;
            proof {
                lemma_mod_successor(index as int, self.length as int);
            }
            if i + 1 == self.length {
                0
            } else {
                i + 1
            }
        } else {
            index + 1
        }
    }

    /// Compute previous section index, around the map once it has a
    /// length; without one, one less.
    pub fn previous_index(&self, index: usize) -> (r: usize)
        requires
            index > 0 || self.length > 0,
        ensures
            self.length > 0 ==> r == (index + self.length - 1) % (self.length as int),
            self.length == 0 ==> r == index - 1,
    {
        if index == 0 {
            proof {
                lemma_mod_self_minus_one(self.length as int);
            }
            self.length - 1
        } else if self.length > 0 {
            proof {
                lemma_mod_predecessor(index as int, self.length as int);
            }
            (index - 1) % self.length
        } else {
            index - 1
        }
    }
}

/// A valid section at `later` puts the length past it.
pub proof fn lemma_valid_extent_reaches<P: TrackGeometry>(sections: Seq<MapSection<P>>, n: int, later: int)
    requires
        0 <= later < n,
        sections[later].valid(),
    ensures
        valid_extent(sections, n) > later,
    decreases n,
{
    if n - 1 > later && !sections[n - 1].valid() {
        lemma_valid_extent_reaches(sections, n - 1, later);
    }
}

/// Once a map is completed and valid, the first section starts at the
/// origin pose, each section ends where the geometry puts it from its
/// start, and the next one starts there: position and heading, as one pose.
pub proof fn lemma_completed_map_chained<P: TrackGeometry>(before: TrackMap<P>, after: TrackMap<P>, i: int)
    requires
        completion(before, after),
        after.valid(),
        0 <= i < after.length - 1,
    ensures
        after.sections@[0].start == P::origin_pose(),
        after.sections@[i].end == P::advanced(after.sections@[i].start, after.sections@[i].shape).0,
        after.sections@[i + 1].start == after.sections@[i].end,
{
}

/// An invalid slot below a later valid one leaves the map invalid, and
/// completing it places no section: every section keeps the geometry it had.
pub proof fn lemma_gap_skips_chaining<P: TrackGeometry>(
    before: TrackMap<P>,
    after: TrackMap<P>,
    gap: int,
    later: int,
)
    requires
        completion(before, after),
        0 <= gap < later < MAP_SECTIONS_MAX_COUNT,
        !before.sections@[gap].valid(),
        before.sections@[later].valid(),
    ensures
        !after.valid(),
        after.sections == before.sections,
{
    lemma_valid_extent_reaches(before.sections@, MAP_SECTIONS_MAX_COUNT as int, later);
    if after.valid() {
        assert(after.sections@[gap].valid());
        assert(after.sections@[gap].shape == before.sections@[gap].shape);
    }
}

pub proof fn lemma_valid_extent_bound<P: TrackGeometry>(sections: Seq<MapSection<P>>, n: int)
    ensures
        0 <= valid_extent(sections, n) <= if n > 0 { n } else { 0 },
        0 < valid_extent(sections, n) ==> sections[valid_extent(sections, n) - 1].valid(),
    decreases n,
{
    if n > 0 {
        lemma_valid_extent_bound(sections, n - 1);
    }
}

proof fn lemma_mod_self_minus_one(n: int)
    requires
        0 < n,
    ensures
        (n - 1) % n == n - 1,
{
    assert((n - 1) % n == n - 1) by (nonlinear_arith)
        requires
            0 < n,
    ;
}

proof fn lemma_mod_predecessor(i: int, n: int)
    requires
        0 < i,
        0 < n,
    ensures
        (i - 1) % n == (i + n - 1) % n,
{
    assert((i - 1) % n == (i + n - 1) % n) by (nonlinear_arith)
        requires
            0 < i,
            0 < n,
    ;
}

proof fn lemma_mod_successor(i: int, n: int)
    requires
        0 <= i,
        0 < n,
    ensures
        (i + 1) % n == (if i % n + 1 == n { 0 } else { i % n + 1 }),
{
    assert((i + 1) % n == (if i % n + 1 == n { 0 } else { i % n + 1 })) by (nonlinear_arith)
        requires
            0 <= i,
            0 < n,
    ;
}

} // verus!
