use racebot::command::BotCommand;
use racebot::map::{TrackMap, MAP_SECTIONS_MAX_COUNT};
use racebot::section::{
    Heading, MapSection, MapSectionShape, MapSectionSlope, MapSectionStraigth, MapSectionTurn,
    TrackGeometry,
};
use racebot::segment::{map_segment_plan, section_segment_count, turn_steps, SegmentSlot};
use racebot::wire::{new_protocol_buffer, ProtocolBuffer};
use std::f32::consts::{FRAC_PI_2, PI};
use vek::{Quaternion, Vec3};

type V3 = Vec3<f32>;
type Q = Quaternion<f32>;

/// A pose in meters and radians, placed the way the simulator places
/// sections.
#[derive(Clone, Copy, Debug)]
struct Pose {
    position: V3,
    heading: f32,
}

fn meters(mm: i64) -> f32 {
    mm as f32 / 1000.0
}

fn radians(deg: i64) -> f32 {
    deg as f32 * PI / 180.0
}

fn normalize_angle(angle: f32) -> f32 {
    let mut angle = angle;
    while angle > PI {
        angle -= PI * 2.0;
    }
    while angle <= -PI {
        angle += PI * 2.0;
    }
    angle
}

impl TrackGeometry for Pose {
    // What `origin` and `advance` return, under the names the library's
    // contracts use.
    fn origin_pose() -> Self {
        Self::origin()
    }

    fn advanced(start: Self, shape: MapSectionShape) -> (Self, Self) {
        Self::advance(&start, &shape)
    }

    fn origin() -> Self {
        Pose { position: V3::zero(), heading: 0.0 }
    }

    fn advance(start: &Self, shape: &MapSectionShape) -> (Self, Self) {
        let heading = start.heading;
        match shape {
            MapSectionShape::Straigth(s) => {
                let delta = Q::rotation_y(heading) * V3::unit_z() * meters(s.length);
                let end = Pose { position: start.position + delta, heading };
                let center = Pose { position: start.position + delta / 2.0, heading };
                (end, center)
            }
            MapSectionShape::Slope(s) => {
                let flat = Q::rotation_y(heading) * V3::unit_z() * meters(s.length);
                let delta = flat + V3::unit_y() * meters(s.height);
                let end = Pose { position: start.position + delta, heading };
                let center = Pose { position: start.position + delta / 2.0, heading };
                (end, center)
            }
            MapSectionShape::Turn(s) => {
                let angle = radians(s.turning_angle);
                let front = Q::rotation_y(heading) * V3::unit_z();
                let to_center = if angle > 0.0 {
                    Q::rotation_y(FRAC_PI_2) * front
                } else {
                    Q::rotation_y(-FRAC_PI_2) * front
                };
                let center = start.position + to_center * meters(s.radius_start);
                let to_end = Q::rotation_y(angle) * (-to_center * meters(s.radius_end));
                let end = Pose { position: center + to_end, heading: normalize_angle(heading + angle) };
                (end, Pose { position: center, heading })
            }
        }
    }
}

fn buffer_from_str(s: &str) -> ProtocolBuffer {
    let mut buffer = new_protocol_buffer();
    for (i, c) in s.chars().enumerate() {
        buffer[i] = c as u8;
        buffer[i + 1] = '\n' as u8;
    }
    buffer
}

static SECTIONS: [&str; 7] = [
    "MAP-SECTION:0:STRAIGHT:1000:800:800",
    "MAP-SECTION:1:LEFT:180:800:800:500:500",
    "MAP-SECTION:2:RIGHT:90:800:800:500:500",
    "MAP-SECTION:3:LEFT:180:800:800:500:500",
    "MAP-SECTION:4:UP:500:300:800:800",
    "MAP-SECTION:5:DOWN:500:300:800:800",
    "MAP-SECTION:6:LEFT:90:800:800:500:500",
];

fn new_map_of<P: TrackGeometry>(sections: &[&str]) -> TrackMap<P> {
    let mut map = TrackMap::new();
    map.reset();
    for s in sections.iter() {
        let b = buffer_from_str(s);
        let cmd = BotCommand::parse(&b).unwrap();
        if let BotCommand::MapSection(section) = cmd {
            let index = section.index;
            let section = MapSection::from_protocol_data(&section.data);
            map.configure_section(index, &section);
        }
    }
    map.complete_configuration();
    map
}

fn new_map(sections: &[&str]) -> TrackMap<Pose> {
    new_map_of(sections)
}

fn at(map: &TrackMap<Pose>, i: usize) -> MapSection<Pose> {
    map.section_at(i)
}

fn check_relative_eq(v1: Pose, v2: V3) {
    let result = (v1.position - v2).magnitude() < 0.001;
    if !result {
        println!("check_relative_eq failed: {} != {}", v1.position, v2);
    }
    assert!(result);
}

#[test]
fn parses_map() {
    let map = new_map(&SECTIONS);
    assert_eq!(map.length, 7);

    check_relative_eq(at(&map, 0).start, V3::new(0.0, 0.0, 0.0));
    check_relative_eq(at(&map, 0).center, V3::new(0.0, 0.0, 0.5));
    check_relative_eq(at(&map, 0).end, V3::new(0.0, 0.0, 1.0));

    check_relative_eq(at(&map, 1).start, V3::new(0.0, 0.0, 1.0));
    check_relative_eq(at(&map, 1).center, V3::new(0.5, 0.0, 1.0));
    check_relative_eq(at(&map, 1).end, V3::new(1.0, 0.0, 1.0));

    check_relative_eq(at(&map, 2).start, V3::new(1.0, 0.0, 1.0));
    check_relative_eq(at(&map, 2).center, V3::new(1.5, 0.0, 1.0));
    check_relative_eq(at(&map, 2).end, V3::new(1.5, 0.0, 0.5));

    check_relative_eq(at(&map, 3).start, V3::new(1.5, 0.0, 0.5));
    check_relative_eq(at(&map, 3).center, V3::new(1.5, 0.0, 0.0));
    check_relative_eq(at(&map, 3).end, V3::new(1.5, 0.0, -0.5));

    check_relative_eq(at(&map, 4).start, V3::new(1.5, 0.0, -0.5));
    check_relative_eq(at(&map, 4).center, V3::new(1.25, 0.15, -0.5));
    check_relative_eq(at(&map, 4).end, V3::new(1.0, 0.3, -0.5));

    check_relative_eq(at(&map, 5).start, V3::new(1.0, 0.3, -0.5));
    check_relative_eq(at(&map, 5).center, V3::new(0.75, 0.15, -0.5));
    check_relative_eq(at(&map, 5).end, V3::new(0.5, 0.0, -0.5));

    check_relative_eq(at(&map, 6).start, V3::new(0.5, 0.0, -0.5));
    check_relative_eq(at(&map, 6).center, V3::new(0.5, 0.0, 0.0));
    check_relative_eq(at(&map, 6).end, V3::new(0.0, 0.0, 0.0));
}

#[test]
fn completed_sections_are_chained() {
    let map = new_map(&SECTIONS);
    assert!(map.is_valid());
    for i in 0..map.length - 1 {
        let a = map.sections[i].end;
        let b = map.sections[i + 1].start;
        assert_eq!(a.position, b.position);
        assert_eq!(a.heading, b.heading);
    }
}

#[test]
fn wire_sections_convert_units_and_signs() {
    let right = new_map(&["MAP-SECTION:0:RIGHT:90:800:700:500:400"]);
    let s = right.sections[0];
    assert_eq!(
        s.shape,
        MapSectionShape::Turn(MapSectionTurn { radius_start: 500, radius_end: 400, turning_angle: -90 })
    );
    assert_eq!((s.width_start, s.width_end), (800, 700));
    let left = new_map(&["MAP-SECTION:0:LEFT:90:800:800:500:500"]);
    assert_eq!(
        left.sections[0].shape,
        MapSectionShape::Turn(MapSectionTurn { radius_start: 500, radius_end: 500, turning_angle: 90 })
    );
    let down = new_map(&["MAP-SECTION:0:DOWN:500:300:800:800"]);
    assert_eq!(down.sections[0].shape, MapSectionShape::Slope(MapSectionSlope { length: 500, height: -300 }));
    let up = new_map(&["MAP-SECTION:0:UP:500:300:800:800"]);
    assert_eq!(up.sections[0].shape, MapSectionShape::Slope(MapSectionSlope { length: 500, height: 300 }));
}

#[test]
fn section_validity_rules() {
    let ok = MapSection::<Pose>::new(MapSectionShape::Straigth(MapSectionStraigth { length: 1 }), 1, 1);
    assert!(ok.is_valid());
    let no_width = MapSection::<Pose>::new(MapSectionShape::Straigth(MapSectionStraigth { length: 1 }), 0, 1);
    assert!(!no_width.is_valid());
    let flat = MapSection::<Pose>::new(MapSectionShape::Slope(MapSectionSlope { length: 5, height: 0 }), 1, 1);
    assert!(!flat.is_valid());
    let no_radius = MapSection::<Pose>::new(
        MapSectionShape::Turn(MapSectionTurn { radius_start: 5, radius_end: 0, turning_angle: 90 }),
        1,
        1,
    );
    assert!(!no_radius.is_valid());
}

#[test]
fn an_empty_map_is_invalid() {
    let mut map = TrackMap::<Pose>::new();
    map.complete_configuration();
    assert_eq!(map.length, 0);
    assert!(!map.is_valid());
}

#[test]
fn a_gap_before_a_valid_section_skips_chaining() {
    let map = new_map(&[
        "MAP-SECTION:0:STRAIGHT:1000:800:800",
        "MAP-SECTION:2:STRAIGHT:1000:800:800",
    ]);
    assert_eq!(map.length, 3);
    assert!(!map.is_valid());
    for i in 0..MAP_SECTIONS_MAX_COUNT {
        assert_eq!(map.sections[i].start.position, V3::zero());
        assert_eq!(map.sections[i].end.position, V3::zero());
        assert_eq!(map.sections[i].center.position, V3::zero());
    }
}

#[test]
fn the_last_slot_counts() {
    let map = new_map(&["MAP-SECTION:19:STRAIGHT:1000:800:800"]);
    assert_eq!(map.length, MAP_SECTIONS_MAX_COUNT);
    assert!(!map.is_valid());
}

#[test]
fn indexes_wrap_around_the_map() {
    let map = new_map(&SECTIONS);
    assert_eq!(map.fix_index(9), 2);
    assert_eq!(map.fix_index(6), 6);
    assert_eq!(map.next_index(6), 0);
    assert_eq!(map.next_index(13), 0);
    assert_eq!(map.next_index(2), 3);
    assert_eq!(map.previous_index(0), 6);
    assert_eq!(map.previous_index(4), 3);
    let empty = TrackMap::<Pose>::new();
    assert_eq!(empty.fix_index(42), 42);
    assert_eq!(empty.next_index(42), 43);
}

#[test]
fn turns_are_cut_into_an_odd_number_of_steps() {
    assert_eq!(turn_steps(0), 1);
    assert_eq!(turn_steps(15), 1);
    assert_eq!(turn_steps(16), 3);
    assert_eq!(turn_steps(90), 7);
    assert_eq!(turn_steps(-90), 7);
    assert_eq!(turn_steps(180), 13);
    assert_eq!(turn_steps(181), 13);
    assert_eq!(turn_steps(360), 25);
    assert_eq!(turn_steps(i64::MIN) % 2, 1);
    assert_eq!(
        section_segment_count(&MapSectionShape::Slope(MapSectionSlope { length: 5, height: 1 })),
        1
    );
}

#[test]
fn the_segment_plan_follows_the_sections() {
    let map = new_map(&SECTIONS);
    let plan = map_segment_plan(&map);
    // straight, 13, 7, 13, slope, slope, 7
    assert_eq!(plan.len(), 1 + 13 + 7 + 13 + 1 + 1 + 7);
    assert_eq!(plan[0], SegmentSlot { section: 0, step: 0, steps: 1, is_lighter: true });
    assert_eq!(plan[1], SegmentSlot { section: 1, step: 0, steps: 13, is_lighter: false });
    assert_eq!(plan[2], SegmentSlot { section: 1, step: 1, steps: 13, is_lighter: true });
    assert_eq!(plan[13], SegmentSlot { section: 1, step: 12, steps: 13, is_lighter: false });
    assert_eq!(plan[14], SegmentSlot { section: 2, step: 0, steps: 7, is_lighter: false });
    assert_eq!(plan[34], SegmentSlot { section: 4, step: 0, steps: 1, is_lighter: true });
    let last = plan[plan.len() - 1];
    assert_eq!(last, SegmentSlot { section: 6, step: 6, steps: 7, is_lighter: false });
}

#[test]
fn headings_follow_the_turns() {
    let map: TrackMap<Heading> = new_map_of(&SECTIONS);
    assert!(map.is_valid());
    let ends = [0, 180, 90, -90, -90, -90, 0];
    let mut start = 0;
    for i in 0..map.length {
        assert_eq!(map.sections[i].start.degrees, start);
        assert_eq!(map.sections[i].end.degrees, ends[i]);
        start = ends[i];
    }
    let (end, center) = Heading::advance(&Heading { degrees: 170 }, &MapSectionShape::Turn(
        MapSectionTurn { radius_start: 1, radius_end: 1, turning_angle: 10 + 360 * 3 },
    ));
    assert_eq!(end.degrees, 180);
    assert_eq!(center.degrees, 170);
    let (end, _) = Heading::advance(&Heading { degrees: -170 }, &MapSectionShape::Turn(
        MapSectionTurn { radius_start: 1, radius_end: 1, turning_angle: -10 },
    ));
    assert_eq!(end.degrees, 180);
}

#[test]
fn configuring_a_slot_resets_its_geometry() {
    let mut map = TrackMap::<Heading>::new();
    let mut s = MapSection::<Heading>::new(MapSectionShape::Straigth(MapSectionStraigth { length: 5 }), 3, 4);
    s.start = Heading { degrees: 45 };
    s.end = Heading { degrees: 90 };
    map.configure_section(2, &s);
    let stored = map.sections[2];
    assert_eq!(stored.shape, s.shape);
    assert_eq!((stored.width_start, stored.width_end), (3, 4));
    assert_eq!(stored.start, Heading { degrees: 0 });
    assert_eq!(stored.end, Heading { degrees: 0 });
    assert_eq!(stored.center, Heading { degrees: 0 });
}

#[test]
fn previous_index_wraps_around_the_map() {
    let map: TrackMap<Heading> = new_map_of(&SECTIONS[0..3]);
    assert_eq!(map.length, 3);
    assert_eq!(map.previous_index(5), 1);
    assert_eq!(map.previous_index(3), 2);
    assert_eq!(map.previous_index(0), 2);
    assert_eq!(map.previous_index(1), 0);
    assert_eq!(map.section_at(4).shape, map.sections[1].shape);
    let empty = TrackMap::<Heading>::new();
    assert_eq!(empty.previous_index(7), 6);
}
