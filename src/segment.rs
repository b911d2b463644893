//! Segmentation plan: how many drawable segments each section is cut into,
//! and how each is shaded. A straight or a slope is one lighter segment; a
//! turn is cut into equal angular steps of at most 15 degrees, an odd
//! number of them, shaded alternately starting with a darker one.
use vstd::prelude::*;
use crate::section::{MapSection, MapSectionShape, TrackGeometry};
use crate::map::{TrackMap, MAP_SECTIONS_MAX_COUNT};

verus! {

/// Largest angle of one turn step, in degrees
pub const TURN_STEP_DEGREES: u64 = 15;

/// One segment of the plan: step `step` of the `steps` a section is cut
/// into. The segment covers the fraction `(2 * step + 1) / (2 * steps)` of
/// the section at its middle.
#[derive(Clone, Copy, PartialEq, Eq, Debug, Structural)]
pub struct SegmentSlot {
    pub section: usize,
    pub step: u64,
    pub steps: u64,
    pub is_lighter: bool,
}

/// Steps of a turn: the angle over 15 degrees, rounded up, then up to the
/// next odd number.
pub open spec fn turn_step_count(angle: int) -> int {
    let a = if angle < 0 {
        -angle
    } else {
        angle
    };
    let c = (a + TURN_STEP_DEGREES - 1) / TURN_STEP_DEGREES as int;
    if c % 2 == 0 {
        c + 1
    } else {
        c
    }
}

pub open spec fn segment_count(shape: MapSectionShape) -> int {
    match shape {
        MapSectionShape::Turn(t) => turn_step_count(t.turning_angle as int),
        _ => 1,
    }
}

pub open spec fn lighter_at(shape: MapSectionShape, step: int) -> bool {
    match shape {
        MapSectionShape::Turn(_) => step % 2 == 1,
        _ => true,
    }
}

/// The segments of section `i`.
pub open spec fn section_slots(i: int, shape: MapSectionShape) -> Seq<SegmentSlot> {
    Seq::new(
        segment_count(shape) as nat,
        |j: int|
            SegmentSlot {
                section: i as usize,
                step: j as u64,
                steps: segment_count(shape) as u64,
                is_lighter: lighter_at(shape, j),
            },
    )
}

/// The segments of the first `n` sections, in order.
pub open spec fn plan_of<P: TrackGeometry>(sections: Seq<MapSection<P>>, n: int) -> Seq<SegmentSlot>
    decreases n,
{
    if n <= 0 {
        Seq::empty()
    } else {
        plan_of(sections, n - 1) + section_slots(n - 1, sections[n - 1].shape)
    }
}

/// A turn is cut into an odd number of steps, at least one; its first step
/// is darker, and the shading alternates from step to step.
pub proof fn lemma_turn_subdivision(i: int, shape: MapSectionShape)
    requires
        shape is Turn,
    ensures
        segment_count(shape) >= 1,
        segment_count(shape) % 2 == 1,
        !section_slots(i, shape)[0].is_lighter,
        forall|j: int|
            0 <= j < segment_count(shape) - 1 ==> #[trigger] section_slots(i, shape)[j + 1].is_lighter
                != section_slots(i, shape)[j].is_lighter,
{
}

/// Number of steps a turn of `turning_angle` degrees is cut into.
pub fn turn_steps(turning_angle: i64) -> (r: u64)
    ensures
        r == turn_step_count(turning_angle as int),
{
    let a: u64 = if turning_angle < 0 {
        ((-(turning_angle + 1)) as u64) + 1
    } else {
        turning_angle as u64
    };
    let c = (a + (TURN_STEP_DEGREES - 1)) / TURN_STEP_DEGREES;
    if c % 2 == 0 {
        c + 1
    } else {
        c
    }
}

/// Number of segments a section is cut into.
pub fn section_segment_count(shape: &MapSectionShape) -> (r: u64)
    ensures
        r == segment_count(*shape),
{
    match shape {
        MapSectionShape::Turn(t) => turn_steps(t.turning_angle),
        _ => 1,
    }
}

/// The segments of every used section of `map`, section by section.
pub fn map_segment_plan<P: TrackGeometry>(map: &TrackMap<P>) -> (r: Vec<SegmentSlot>)
    requires
        map.length <= MAP_SECTIONS_MAX_COUNT,
    ensures
        r@ == plan_of(map.sections@, map.length as int),
{
    let mut out: Vec<SegmentSlot> = Vec::new();
    let mut i: usize = 0;
    while i < map.length
        invariant
            map.length <= MAP_SECTIONS_MAX_COUNT,
            i <= map.length,
            out@ == plan_of(map.sections@, i as int),
        decreases map.length - i,
    {
        let shape = map.sections[i].shape;
        let steps = section_segment_count(&shape);
        let ghost before = out@;
        let mut j: u64 = 0;
        while j < steps
            invariant
                steps == segment_count(shape),
                j <= steps,
                out@ == before + section_slots(i as int, shape).take(j as int),
            decreases steps - j,
        {
            let is_lighter = match shape {
                MapSectionShape::Turn(_) => j % 2 == 1,
                _ => true,
            };
            out.push(SegmentSlot { section: i, step: j, steps, is_lighter });
            assert(section_slots(i as int, shape).take(j + 1) =~= section_slots(i as int, shape).take(
                j as int,
            ).push(SegmentSlot { section: i, step: j, steps, is_lighter }));
            j += 1;
        }
        assert(section_slots(i as int, shape).take(steps as int) =~= section_slots(i as int, shape));
        i += 1;
    }
    out
}

} // verus!
