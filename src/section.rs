//! Track sections: the three shapes, their validity, and how a section
//! described on the wire becomes one.
//!
//! Lengths are in millimeters and angles in degrees, as on the wire. A
//! turning angle is negative for a left turn and positive for a right turn
//! once converted; a slope's height is negative when it descends.
use vstd::prelude::*;
use crate::command::ProtocolMapSectionData;

verus! {

/// Straight map section
#[derive(Clone, Copy, PartialEq, Eq, Debug, Structural)]
pub struct MapSectionStraigth {
    pub length: i64,
}

/// Sloping map section
#[derive(Clone, Copy, PartialEq, Eq, Debug, Structural)]
pub struct MapSectionSlope {
    /// Flat length
    pub length: i64,
    /// Height (negative if descending)
    pub height: i64,
}

/// Turning map section
#[derive(Clone, Copy, PartialEq, Eq, Debug, Structural)]
pub struct MapSectionTurn {
    pub radius_start: i64,
    pub radius_end: i64,
    /// Turning angle in degrees: negative to the left, positive to the right
    pub turning_angle: i64,
}

/// Map section shape
#[derive(Clone, Copy, PartialEq, Eq, Debug, Structural)]
pub enum MapSectionShape {
    Straigth(MapSectionStraigth),
    Slope(MapSectionSlope),
    Turn(MapSectionTurn),
}

/// A pose in space (a position and a heading) as some geometry computes it.
/// Sections are chained by handing the end pose of one to the next.
///
/// `origin_pose` and `advanced` name what the two methods return: an
/// implementation gives the same result for the same arguments.
pub trait TrackGeometry: Sized + Copy {
    /// The pose the first section starts from.
    spec fn origin_pose() -> Self;

    /// The end pose and center pose of `shape` started at `start`.
    spec fn advanced(start: Self, shape: MapSectionShape) -> (Self, Self);

    /// The pose the first section starts from; geometry that was never
    /// computed holds it too.
    fn origin() -> (r: Self)
        ensures
            r == Self::origin_pose(),
    ;

    /// The pose at the end of `shape` when it starts at `start`, and the
    /// pose of its center (the middle of a straight or slope, the center of
    /// rotation of a turn).
    fn advance(start: &Self, shape: &MapSectionShape) -> (r: (Self, Self))
        ensures
            r == Self::advanced(*start, *shape),
    ;
}

/// `x` degrees brought into (-180, 180].
pub open spec fn normalize_degrees(x: int) -> int {
    let m = x % 360;
    if m > 180 {
        m - 360
    } else {
        m
    }
}

/// The heading part of a pose, in whole degrees: what turns do to the
/// direction of travel, exactly. Straights and slopes keep the heading; a
/// turn adds its angle; the result lies in (-180, 180].
#[derive(Clone, Copy, PartialEq, Eq, Debug, Structural)]
pub struct Heading {
    pub degrees: i64,
}

impl TrackGeometry for Heading {
    open spec fn origin_pose() -> Self {
        Heading { degrees: 0 }
    }

    open spec fn advanced(start: Self, shape: MapSectionShape) -> (Self, Self) {
        match shape {
            MapSectionShape::Turn(t) => (
                Heading {
                    degrees: normalize_degrees(start.degrees + t.turning_angle) as i64,
                },
                start,
            ),
            _ => (start, start),
        }
    }

    fn origin() -> (r: Self) {
        Heading { degrees: 0 }
    }

    fn advance(start: &Self, shape: &MapSectionShape) -> (r: (Self, Self)) {
        match shape {
            MapSectionShape::Turn(t) => {
                let x: i128 = start.degrees as i128 + t.turning_angle as i128;
                let m: i128 = if x >= 0 {
                    x % 360
                } else {
                    (360 - ((0 - x) % 360)) % 360
                };
                proof {
                    lemma_mod_of_negative(x as int);
                }
                let d: i128 = if m > 180 {
                    m - 360
                } else {
                    m
                };
                (Heading { degrees: d as i64 }, *start)
            },
            _ => (*start, *start),
        }
    }
}

proof fn lemma_mod_of_negative(x: int)
    ensures
        x < 0 ==> (360 - ((-x) % 360)) % 360 == x % 360,
        0 <= x % 360 < 360,
{
    if x < 0 {
        let y = -x;
        let q = y / 360;
        let r = y % 360;
        assert(y == q * 360 + r && 0 <= r < 360) by (nonlinear_arith)
            requires
                y > 0,
                q == y / 360,
                r == y % 360,
        ;
        assert(x == (-q - 1) * 360 + (360 - r));
        if r == 0 {
            assert(x == (-q) * 360);
            assert(x % 360 == 0) by (nonlinear_arith)
                requires
                    x == (-q) * 360,
            ;
        } else {
            assert(x % 360 == 360 - r) by (nonlinear_arith)
                requires
                    x == (-q - 1) * 360 + (360 - r),
                    0 < 360 - r < 360,
            ;
        }
    }
}

/// Map section
#[derive(Clone, Copy)]
pub struct MapSection<P> {
    pub shape: MapSectionShape,
    pub width_start: i64,
    pub width_end: i64,
    /// Pose at the section start
    pub start: P,
    /// Pose at the section end
    pub end: P,
    /// Either the middle of the section (for straights and slopes) or the
    /// center of rotation (for turns)
    pub center: P,
}

/// The shape rule: lengths and radii positive, slopes not flat.
pub open spec fn shape_valid(shape: MapSectionShape) -> bool {
    match shape {
        MapSectionShape::Straigth(s) => s.length > 0,
        MapSectionShape::Slope(s) => s.length > 0 && s.height != 0,
        MapSectionShape::Turn(s) => s.radius_start > 0 && s.radius_end > 0,
    }
}

/// The shape of a section described on the wire.
pub open spec fn shape_of(data: ProtocolMapSectionData) -> MapSectionShape {
    match data {
        ProtocolMapSectionData::Straight(s) => MapSectionShape::Straigth(
            MapSectionStraigth { length: s.length as i64 },
        ),
        ProtocolMapSectionData::TurnRight(s) => MapSectionShape::Turn(
            MapSectionTurn {
                radius_start: s.radius_start as i64,
                radius_end: s.radius_end as i64,
                turning_angle: (-(s.angle as int)) as i64,
            },
        ),
        ProtocolMapSectionData::TurnLeft(s) => MapSectionShape::Turn(
            MapSectionTurn {
                radius_start: s.radius_start as i64,
                radius_end: s.radius_end as i64,
                turning_angle: s.angle as i64,
            },
        ),
        ProtocolMapSectionData::SlopeUp(s) => MapSectionShape::Slope(
            MapSectionSlope { length: s.length as i64, height: s.height as i64 },
        ),
        ProtocolMapSectionData::SlopeDown(s) => MapSectionShape::Slope(
            MapSectionSlope { length: s.length as i64, height: (-(s.height as int)) as i64 },
        ),
    }
}

/// The widths of a section described on the wire.
pub open spec fn widths_of(data: ProtocolMapSectionData) -> (i64, i64) {
    match data {
        ProtocolMapSectionData::Straight(s) => (s.width_start as i64, s.width_end as i64),
        ProtocolMapSectionData::TurnRight(s) => (s.width_start as i64, s.width_end as i64),
        ProtocolMapSectionData::TurnLeft(s) => (s.width_start as i64, s.width_end as i64),
        ProtocolMapSectionData::SlopeUp(s) => (s.width_start as i64, s.width_end as i64),
        ProtocolMapSectionData::SlopeDown(s) => (s.width_start as i64, s.width_end as i64),
    }
}

impl<P: TrackGeometry> MapSection<P> {
    /// The section rule: widths positive, and the shape rule.
    pub open spec fn valid(&self) -> bool {
        self.width_start > 0 && self.width_end > 0 && shape_valid(self.shape)
    }

    /// Build a new section with its configuration; its geometry is the
    /// origin pose until the map is completed.
    pub fn new(shape: MapSectionShape, width_start: i64, width_end: i64) -> (r: Self)
        ensures
            r.shape == shape,
            r.width_start == width_start,
            r.width_end == width_end,
            r.start == P::origin_pose() && r.end == P::origin_pose() && r.center == P::origin_pose(),
    {
        let origin = P::origin();
        MapSection { shape, width_start, width_end, start: origin, end: origin, center: origin }
    }

    /// Check if section is valid
    pub fn is_valid(&self) -> (r: bool)
        ensures
            r == self.valid(),
    {
        if self.width_start <= 0 || self.width_end <= 0 {
            return false;
        }
        match self.shape {
            MapSectionShape::Straigth(s) => s.length > 0,
            MapSectionShape::Slope(s) => s.length > 0 && s.height != 0,
            MapSectionShape::Turn(s) => s.radius_start > 0 && s.radius_end > 0,
        }
    }

    /// The section a wire description stands for: a right turn's angle
    /// changes sign, a descending slope's height too.
    pub fn from_protocol_data(data: &ProtocolMapSectionData) -> (r: Self)
        ensures
            r.shape == shape_of(*data),
            (r.width_start, r.width_end) == widths_of(*data),
            r.start == P::origin_pose() && r.end == P::origin_pose() && r.center == P::origin_pose(),
    {
        match data {
            ProtocolMapSectionData::Straight(s) => MapSection::new(
                MapSectionShape::Straigth(MapSectionStraigth { length: s.length as i64 }),
                s.width_start as i64,
                s.width_end as i64,
            ),
            ProtocolMapSectionData::TurnRight(s) => MapSection::new(
                MapSectionShape::Turn(
                    MapSectionTurn {
                        radius_start: s.radius_start as i64,
                        radius_end: s.radius_end as i64,
                        turning_angle: -(s.angle as i64),
                    },
                ),
                s.width_start as i64,
                s.width_end as i64,
            ),
            ProtocolMapSectionData::TurnLeft(s) => MapSection::new(
                MapSectionShape::Turn(
                    MapSectionTurn {
                        radius_start: s.radius_start as i64,
                        radius_end: s.radius_end as i64,
                        turning_angle: s.angle as i64,
                    },
                ),
                s.width_start as i64,
                s.width_end as i64,
            ),
            ProtocolMapSectionData::SlopeUp(s) => MapSection::new(
                MapSectionShape::Slope(
                    MapSectionSlope { length: s.length as i64, height: s.height as i64 },
                ),
                s.width_start as i64,
                s.width_end as i64,
            ),
            ProtocolMapSectionData::SlopeDown(s) => MapSection::new(
                MapSectionShape::Slope(
                    MapSectionSlope { length: s.length as i64, height: -(s.height as i64) },
                ),
                s.width_start as i64,
                s.width_end as i64,
            ),
        }
    }
}

} // verus!
