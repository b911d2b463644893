//! Commands sent to the bot, and their line format.
use vstd::prelude::*;
use crate::wire::{
    furthest_miss, furthest_miss_position, lemma_furthest_miss_is_first_mismatch,
    expect_byte, expect_lit, fields_text, read_fields, read_usize_field, then_end, usize_field_text,
    lemma_splice_then, lemma_splice_len, ProtocolBuffer, PROTOCOL_BUFFER_SIZE, CODE_END,
    CODE_SEPARATOR, match_end, match_separator, match_string, match_usize_field, match_fields_line,
    append_end, append_separator, write_fields, write_string, write_usize_field, splice,
    lemma_subrange_of, lemma_other_lit_fails, lemma_byte_written, lemma_expect_lit_present,
    lemma_read_fields_text, lemma_read_usize_field_text, lemma_splice_reads, kw, bare,
    lemma_line_parts, byte_is, digit_at, lemma_fields_text_len, lemma_text_lengths,
};

verus! {

broadcast use lemma_splice_then, lemma_splice_len;

/// Motor power (from -100 to +100)
pub type ProtocolMotorPower = i32;

/// Length of track item in mm
pub type ProtocolLinearDimension = i32;

/// Acceleration in mm/s2
pub type ProtocolLinearAcceleration = i32;

/// Angle in deg, from -360 to +360, positive is clockwise
pub type ProtocolAngle = i32;

/// Motors power data
#[derive(Clone, Copy, PartialEq, Eq, Debug, Structural)]
pub struct MotorsPowerData {
    pub back_left: ProtocolMotorPower,
    pub back_right: ProtocolMotorPower,
    pub front_left: ProtocolMotorPower,
    pub front_right: ProtocolMotorPower,
}

/// Description of straight map section
#[derive(Clone, Copy, PartialEq, Eq, Debug, Structural)]
pub struct ProtocolMapSectionDataStraight {
    pub width_start: ProtocolLinearDimension,
    pub width_end: ProtocolLinearDimension,
    pub length: ProtocolLinearDimension,
}

/// Description of turning map section
#[derive(Clone, Copy, PartialEq, Eq, Debug, Structural)]
pub struct ProtocolMapSectionDataTurn {
    pub width_start: ProtocolLinearDimension,
    pub radius_start: ProtocolLinearDimension,
    pub width_end: ProtocolLinearDimension,
    pub radius_end: ProtocolLinearDimension,
    /// Turning angle (always positive)
    pub angle: ProtocolAngle,
}

/// Description of sloping map section
#[derive(Clone, Copy, PartialEq, Eq, Debug, Structural)]
pub struct ProtocolMapSectionDataSlope {
    pub width_start: ProtocolLinearDimension,
    pub width_end: ProtocolLinearDimension,
    /// Flat length
    pub length: ProtocolLinearDimension,
    /// Slope height (always positive)
    pub height: ProtocolLinearDimension,
}

/// Data about a map section
#[derive(Clone, Copy, PartialEq, Eq, Debug, Structural)]
pub enum ProtocolMapSectionData {
    Straight(ProtocolMapSectionDataStraight),
    TurnRight(ProtocolMapSectionDataTurn),
    TurnLeft(ProtocolMapSectionDataTurn),
    /// Climbing part of a bridge
    SlopeUp(ProtocolMapSectionDataSlope),
    /// Descending part of a bridge
    SlopeDown(ProtocolMapSectionDataSlope),
}

/// Description of a map section
#[derive(Clone, Copy, PartialEq, Eq, Debug, Structural)]
pub struct ProtocolMapSection {
    pub index: usize,
    pub data: ProtocolMapSectionData,
}

/// Commands a bot can receive
#[derive(Clone, Copy, PartialEq, Eq, Debug, Structural)]
pub enum BotCommand {
    /// Start of map data (with sections count)
    MapStart(usize),
    /// Individual map section
    MapSection(ProtocolMapSection),
    /// End of map data
    MapEnd,
    /// Reset (and initialize) robot hardware
    Reset,
    /// Start race
    Start,
    /// Pause bot (stop motors and wait for a [re]start)
    Pause,
    /// Restart race
    Restart,
    /// Directly apply motor power
    Direct(MotorsPowerData),
}

pub const MAP_START: &'static str = "MAP-START";
pub const MAP_SECTION: &'static str = "MAP-SECTION";
pub const MAP_END: &'static str = "MAP-END";
pub const RESET: &'static str = "RESET";
pub const START: &'static str = "START";
pub const PAUSE: &'static str = "PAUSE";
pub const RESTART: &'static str = "RESTART";
pub const DIRECT: &'static str = "DIRECT";

pub const STRAIGHT: &'static str = "STRAIGHT";
pub const LEFT: &'static str = "LEFT";
pub const RIGHT: &'static str = "RIGHT";
pub const UP: &'static str = "UP";
pub const DOWN: &'static str = "DOWN";

pub proof fn lemma_command_keywords()
    ensures
        kw(MAP_START) == seq![77u8, 65, 80, 45, 83, 84, 65, 82, 84],
        kw(MAP_SECTION) == seq![77u8, 65, 80, 45, 83, 69, 67, 84, 73, 79, 78],
        kw(MAP_END) == seq![77u8, 65, 80, 45, 69, 78, 68],
        kw(RESET) == seq![82u8, 69, 83, 69, 84],
        kw(START) == seq![83u8, 84, 65, 82, 84],
        kw(PAUSE) == seq![80u8, 65, 85, 83, 69],
        kw(RESTART) == seq![82u8, 69, 83, 84, 65, 82, 84],
        kw(DIRECT) == seq![68u8, 73, 82, 69, 67, 84],
        kw(STRAIGHT) == seq![83u8, 84, 82, 65, 73, 71, 72, 84],
        kw(LEFT) == seq![76u8, 69, 70, 84],
        kw(RIGHT) == seq![82u8, 73, 71, 72, 84],
        kw(UP) == seq![85u8, 80],
        kw(DOWN) == seq![68u8, 79, 87, 78],
        MAP_START.is_ascii() && MAP_SECTION.is_ascii() && MAP_END.is_ascii() && RESET.is_ascii()
            && START.is_ascii() && PAUSE.is_ascii() && RESTART.is_ascii() && DIRECT.is_ascii()
            && STRAIGHT.is_ascii() && LEFT.is_ascii() && RIGHT.is_ascii() && UP.is_ascii()
            && DOWN.is_ascii(),
        MAP_START@.len() == 9 && MAP_SECTION@.len() == 11 && MAP_END@.len() == 7
            && RESET@.len() == 5 && START@.len() == 5 && PAUSE@.len() == 5
            && RESTART@.len() == 7 && DIRECT@.len() == 6 && STRAIGHT@.len() == 8
            && LEFT@.len() == 4 && RIGHT@.len() == 5 && UP@.len() == 2 && DOWN@.len() == 4,
{
    reveal_strlit("MAP-START");
    reveal_strlit("MAP-SECTION");
    reveal_strlit("MAP-END");
    reveal_strlit("RESET");
    reveal_strlit("START");
    reveal_strlit("PAUSE");
    reveal_strlit("RESTART");
    reveal_strlit("DIRECT");
    reveal_strlit("STRAIGHT");
    reveal_strlit("LEFT");
    reveal_strlit("RIGHT");
    reveal_strlit("UP");
    reveal_strlit("DOWN");
    assert(kw(MAP_START) =~= seq![77u8, 65, 80, 45, 83, 84, 65, 82, 84]);
    assert(kw(MAP_SECTION) =~= seq![77u8, 65, 80, 45, 83, 69, 67, 84, 73, 79, 78]);
    assert(kw(MAP_END) =~= seq![77u8, 65, 80, 45, 69, 78, 68]);
    assert(kw(RESET) =~= seq![82u8, 69, 83, 69, 84]);
    assert(kw(START) =~= seq![83u8, 84, 65, 82, 84]);
    assert(kw(PAUSE) =~= seq![80u8, 65, 85, 83, 69]);
    assert(kw(RESTART) =~= seq![82u8, 69, 83, 84, 65, 82, 84]);
    assert(kw(DIRECT) =~= seq![68u8, 73, 82, 69, 67, 84]);
    assert(kw(STRAIGHT) =~= seq![83u8, 84, 82, 65, 73, 71, 72, 84]);
    assert(kw(LEFT) =~= seq![76u8, 69, 70, 84]);
    assert(kw(RIGHT) =~= seq![82u8, 73, 71, 72, 84]);
    assert(kw(UP) =~= seq![85u8, 80]);
    assert(kw(DOWN) =~= seq![68u8, 79, 87, 78]);
}

// ----------------------------------------------------------------------------
// Line format
// ----------------------------------------------------------------------------

pub open spec fn straight_fields(d: ProtocolMapSectionDataStraight) -> Seq<i32> {
    seq![d.length, d.width_start, d.width_end]
}

pub open spec fn turn_fields(d: ProtocolMapSectionDataTurn) -> Seq<i32> {
    seq![d.angle, d.width_start, d.width_end, d.radius_start, d.radius_end]
}

pub open spec fn slope_fields(d: ProtocolMapSectionDataSlope) -> Seq<i32> {
    seq![d.length, d.height, d.width_start, d.width_end]
}

pub open spec fn motor_fields(d: MotorsPowerData) -> Seq<i32> {
    seq![d.back_left, d.back_right, d.front_left, d.front_right]
}

pub open spec fn straight_of(v: Seq<i32>) -> ProtocolMapSectionDataStraight {
    ProtocolMapSectionDataStraight { length: v[0], width_start: v[1], width_end: v[2] }
}

pub open spec fn turn_of(v: Seq<i32>) -> ProtocolMapSectionDataTurn {
    ProtocolMapSectionDataTurn {
        angle: v[0],
        width_start: v[1],
        width_end: v[2],
        radius_start: v[3],
        radius_end: v[4],
    }
}

pub open spec fn slope_of(v: Seq<i32>) -> ProtocolMapSectionDataSlope {
    ProtocolMapSectionDataSlope { length: v[0], height: v[1], width_start: v[2], width_end: v[3] }
}

pub open spec fn motors_of(v: Seq<i32>) -> MotorsPowerData {
    MotorsPowerData { back_left: v[0], back_right: v[1], front_left: v[2], front_right: v[3] }
}

/// Text of a section's shape: its keyword and its fields.
pub open spec fn encode_section_data(d: ProtocolMapSectionData) -> Seq<u8> {
    match d {
        ProtocolMapSectionData::Straight(x) => kw(STRAIGHT) + fields_text(straight_fields(x)),
        ProtocolMapSectionData::TurnLeft(x) => kw(LEFT) + fields_text(turn_fields(x)),
        ProtocolMapSectionData::TurnRight(x) => kw(RIGHT) + fields_text(turn_fields(x)),
        ProtocolMapSectionData::SlopeUp(x) => kw(UP) + fields_text(slope_fields(x)),
        ProtocolMapSectionData::SlopeDown(x) => kw(DOWN) + fields_text(slope_fields(x)),
    }
}

/// The text of a command, without the end of line.
pub open spec fn command_text(c: BotCommand) -> Seq<u8> {
    match c {
        BotCommand::MapStart(n) => kw(MAP_START) + usize_field_text(n),
        BotCommand::MapSection(m) => kw(MAP_SECTION) + usize_field_text(m.index) + seq![
            CODE_SEPARATOR,
        ] + encode_section_data(m.data),
        BotCommand::MapEnd => kw(MAP_END),
        BotCommand::Reset => kw(RESET),
        BotCommand::Start => kw(START),
        BotCommand::Pause => kw(PAUSE),
        BotCommand::Restart => kw(RESTART),
        BotCommand::Direct(p) => kw(DIRECT) + fields_text(motor_fields(p)),
    }
}

/// The line that encodes a command.
pub open spec fn encode_command(c: BotCommand) -> Seq<u8> {
    command_text(c) + seq![CODE_END]
}

/// The shape of a section, from position `k` on. When no keyword matches,
/// the error is the furthest position any of them matched to.
pub open spec fn decode_section_data(s: Seq<u8>, k: int) -> Result<ProtocolMapSectionData, int> {
    match expect_lit(s, k, kw(STRAIGHT)) {
        Ok(j) => match then_end(s, read_fields(s, j, 3)) {
            Ok(v) => Ok(ProtocolMapSectionData::Straight(straight_of(v))),
            Err(e) => Err(e),
        },
        Err(_) => match expect_lit(s, k, kw(LEFT)) {
            Ok(j) => match then_end(s, read_fields(s, j, 5)) {
                Ok(v) => Ok(ProtocolMapSectionData::TurnLeft(turn_of(v))),
                Err(e) => Err(e),
            },
            Err(_) => match expect_lit(s, k, kw(RIGHT)) {
                Ok(j) => match then_end(s, read_fields(s, j, 5)) {
                    Ok(v) => Ok(ProtocolMapSectionData::TurnRight(turn_of(v))),
                    Err(e) => Err(e),
                },
                Err(_) => match expect_lit(s, k, kw(UP)) {
                    Ok(j) => match then_end(s, read_fields(s, j, 4)) {
                        Ok(v) => Ok(ProtocolMapSectionData::SlopeUp(slope_of(v))),
                        Err(e) => Err(e),
                    },
                    Err(_) => match expect_lit(s, k, kw(DOWN)) {
                        Ok(j) => match then_end(s, read_fields(s, j, 4)) {
                            Ok(v) => Ok(ProtocolMapSectionData::SlopeDown(slope_of(v))),
                            Err(e) => Err(e),
                        },
                        Err(_) => Err(furthest_miss(s, k, section_keywords())),
                    },
                },
            },
        },
    }
}

/// A map section command after its keyword.
pub open spec fn decode_map_section(s: Seq<u8>, i: int) -> Result<BotCommand, int> {
    match read_usize_field(s, i) {
        Ok((index, j)) => match expect_byte(s, j, CODE_SEPARATOR) {
            Ok(k) => match decode_section_data(s, k) {
                Ok(data) => Ok(BotCommand::MapSection(ProtocolMapSection { index, data })),
                Err(e) => Err(e),
            },
            Err(e) => Err(e),
        },
        Err(e) => Err(e),
    }
}

/// The command keywords, in the order they are tried.
pub open spec fn command_keywords() -> Seq<Seq<u8>> {
    seq![
        kw(MAP_START),
        kw(MAP_SECTION),
        kw(MAP_END),
        kw(RESET),
        kw(START),
        kw(PAUSE),
        kw(RESTART),
        kw(DIRECT),
    ]
}

/// The section shape keywords, in the order they are tried.
pub open spec fn section_keywords() -> Seq<Seq<u8>> {
    seq![kw(STRAIGHT), kw(LEFT), kw(RIGHT), kw(UP), kw(DOWN)]
}

/// What a frame holds: the first keyword that matches at offset zero
/// decides the command, whose fields must then follow exactly. The error
/// is the position of the first byte that does not fit; when no keyword
/// matches, the furthest position any of them matched to.
pub open spec fn decode_command(s: Seq<u8>) -> Result<BotCommand, int> {
    match expect_lit(s, 0, kw(MAP_START)) {
        Ok(i) => match then_end(s, read_usize_field(s, i)) {
            Ok(n) => Ok(BotCommand::MapStart(n)),
            Err(e) => Err(e),
        },
        Err(_) => match expect_lit(s, 0, kw(MAP_SECTION)) {
            Ok(i) => decode_map_section(s, i),
            Err(_) => match expect_lit(s, 0, kw(MAP_END)) {
                Ok(i) => bare(s, i, BotCommand::MapEnd),
                Err(_) => match expect_lit(s, 0, kw(RESET)) {
                    Ok(i) => bare(s, i, BotCommand::Reset),
                    Err(_) => match expect_lit(s, 0, kw(START)) {
                        Ok(i) => bare(s, i, BotCommand::Start),
                        Err(_) => match expect_lit(s, 0, kw(PAUSE)) {
                            Ok(i) => bare(s, i, BotCommand::Pause),
                            Err(_) => match expect_lit(s, 0, kw(RESTART)) {
                                Ok(i) => bare(s, i, BotCommand::Restart),
                                Err(_) => match expect_lit(s, 0, kw(DIRECT)) {
                                    Ok(i) => match then_end(s, read_fields(s, i, 4)) {
                                        Ok(v) => Ok(BotCommand::Direct(motors_of(v))),
                                        Err(e) => Err(e),
                                    },
                                    Err(_) => Err(furthest_miss(s, 0, command_keywords())),
                                },
                            },
                        },
                    },
                },
            },
        },
    }
}

pub proof fn lemma_usize_field_len(n: usize)
    ensures
        usize_field_text(n).len() <= 21,
{
    lemma_text_lengths(0, n as u64);
}

/// Every command fits a frame.
pub proof fn lemma_command_len(c: BotCommand)
    ensures
        encode_command(c).len() <= 128,
{
    lemma_command_keywords();
    match c {
        BotCommand::MapStart(n) => lemma_usize_field_len(n),
        BotCommand::MapSection(m) => {
            lemma_usize_field_len(m.index);
            match m.data {
                ProtocolMapSectionData::Straight(x) => lemma_fields_text_len(straight_fields(x)),
                ProtocolMapSectionData::TurnLeft(x) => lemma_fields_text_len(turn_fields(x)),
                ProtocolMapSectionData::TurnRight(x) => lemma_fields_text_len(turn_fields(x)),
                ProtocolMapSectionData::SlopeUp(x) => lemma_fields_text_len(slope_fields(x)),
                ProtocolMapSectionData::SlopeDown(x) => lemma_fields_text_len(slope_fields(x)),
            }
        },
        BotCommand::Direct(p) => lemma_fields_text_len(motor_fields(p)),
        _ => {},
    }
}

// ----------------------------------------------------------------------------
// Round trip
// ----------------------------------------------------------------------------

/// The text of a section's shape, then a byte that is no digit: decoding
/// gets that shape if the byte ends the line, else fails at it.
proof fn lemma_section_data_text(s: Seq<u8>, k: int, d: ProtocolMapSectionData)
    requires
        0 <= k,
        k + encode_section_data(d).len() < s.len(),
        s.subrange(k, k + encode_section_data(d).len()) == encode_section_data(d),
        !digit_at(s, k + encode_section_data(d).len()),
    ensures
        decode_section_data(s, k) == bare(s, k + encode_section_data(d).len(), d),
{
    lemma_command_keywords();
    let t = encode_section_data(d);
    let n = t.len() as int;
    let (w, f) = match d {
        ProtocolMapSectionData::Straight(x) => (kw(STRAIGHT), straight_fields(x)),
        ProtocolMapSectionData::TurnLeft(x) => (kw(LEFT), turn_fields(x)),
        ProtocolMapSectionData::TurnRight(x) => (kw(RIGHT), turn_fields(x)),
        ProtocolMapSectionData::SlopeUp(x) => (kw(UP), slope_fields(x)),
        ProtocolMapSectionData::SlopeDown(x) => (kw(DOWN), slope_fields(x)),
    };
    assert(t == w + fields_text(f));
    let wl = w.len() as int;
    lemma_subrange_of(s, k, t, 0, wl);
    assert(t.subrange(0, wl) =~= w);
    lemma_subrange_of(s, k, t, wl, n);
    assert(t.subrange(wl, n) =~= fields_text(f));
    lemma_expect_lit_present(s, k, w);
    lemma_read_fields_text(s, k + wl, f);
    match d {
        ProtocolMapSectionData::Straight(x) => {
            assert(straight_of(f) == x);
        },
        ProtocolMapSectionData::TurnLeft(x) => {
            lemma_other_lit_fails(s, k, w, kw(STRAIGHT), 0);
            assert(turn_of(f) == x);
        },
        ProtocolMapSectionData::TurnRight(x) => {
            lemma_other_lit_fails(s, k, w, kw(STRAIGHT), 0);
            lemma_other_lit_fails(s, k, w, kw(LEFT), 0);
            assert(turn_of(f) == x);
        },
        ProtocolMapSectionData::SlopeUp(x) => {
            lemma_other_lit_fails(s, k, w, kw(STRAIGHT), 0);
            lemma_other_lit_fails(s, k, w, kw(LEFT), 0);
            lemma_other_lit_fails(s, k, w, kw(RIGHT), 0);
            assert(slope_of(f) == x);
        },
        ProtocolMapSectionData::SlopeDown(x) => {
            lemma_other_lit_fails(s, k, w, kw(STRAIGHT), 0);
            lemma_other_lit_fails(s, k, w, kw(LEFT), 0);
            lemma_other_lit_fails(s, k, w, kw(RIGHT), 0);
            lemma_other_lit_fails(s, k, w, kw(UP), 0);
            assert(slope_of(f) == x);
        },
    }
}

/// Whether `s` holds the text of `c` from zero, then a byte that is no digit.
pub open spec fn holds_command_text(s: Seq<u8>, c: BotCommand) -> bool {
    &&& command_text(c).len() < s.len()
    &&& s.subrange(0, command_text(c).len() as int) == command_text(c)
    &&& !digit_at(s, command_text(c).len() as int)
}

proof fn lemma_map_start_text(s: Seq<u8>, m: usize)
    requires
        holds_command_text(s, BotCommand::MapStart(m)),
    ensures
        decode_command(s) == bare(s, command_text(BotCommand::MapStart(m)).len() as int, BotCommand::MapStart(m)),
{
    lemma_command_keywords();
    let w = kw(MAP_START);
    lemma_line_parts(s, w, usize_field_text(m));
    lemma_expect_lit_present(s, 0, w);
    lemma_read_usize_field_text(s, 9, m);
}

proof fn lemma_map_section_text(s: Seq<u8>, m: ProtocolMapSection)
    requires
        holds_command_text(s, BotCommand::MapSection(m)),
    ensures
        decode_command(s) == bare(
            s,
            command_text(BotCommand::MapSection(m)).len() as int,
            BotCommand::MapSection(m),
        ),
{
    lemma_command_keywords();
    let w = kw(MAP_SECTION);
    let f = usize_field_text(m.index);
    let e = encode_section_data(m.data);
    let body = f + seq![CODE_SEPARATOR] + e;
    assert(command_text(BotCommand::MapSection(m)) =~= w + body);
    lemma_line_parts(s, w, body);
    lemma_other_lit_fails(s, 0, w, kw(MAP_START), 5);
    lemma_expect_lit_present(s, 0, w);
    let fl = f.len() as int;
    let bl = body.len() as int;
    lemma_subrange_of(s, 11, body, 0, fl);
    assert(body.subrange(0, fl) =~= f);
    lemma_subrange_of(s, 11, body, fl, fl + 1);
    assert(body.subrange(fl, fl + 1) =~= seq![CODE_SEPARATOR]);
    lemma_byte_written(s, 11 + fl, CODE_SEPARATOR);
    lemma_read_usize_field_text(s, 11, m.index);
    lemma_subrange_of(s, 11, body, fl + 1, bl);
    assert(body.subrange(fl + 1, bl) =~= e);
    lemma_section_data_text(s, 12 + fl, m.data);
}

proof fn lemma_bare_text(s: Seq<u8>, c: BotCommand)
    requires
        c is MapEnd || c is Reset || c is Start || c is Pause || c is Restart,
        holds_command_text(s, c),
    ensures
        decode_command(s) == bare(s, command_text(c).len() as int, c),
{
    lemma_command_keywords();
    let w = command_text(c);
    lemma_expect_lit_present(s, 0, w);
    match c {
        BotCommand::MapEnd => {
            lemma_other_lit_fails(s, 0, w, kw(MAP_START), 4);
            lemma_other_lit_fails(s, 0, w, kw(MAP_SECTION), 4);
        },
        BotCommand::Reset => {
            lemma_other_lit_fails(s, 0, w, kw(MAP_START), 0);
            lemma_other_lit_fails(s, 0, w, kw(MAP_SECTION), 0);
            lemma_other_lit_fails(s, 0, w, kw(MAP_END), 0);
        },
        BotCommand::Start => {
            lemma_other_lit_fails(s, 0, w, kw(MAP_START), 0);
            lemma_other_lit_fails(s, 0, w, kw(MAP_SECTION), 0);
            lemma_other_lit_fails(s, 0, w, kw(MAP_END), 0);
            lemma_other_lit_fails(s, 0, w, kw(RESET), 0);
        },
        BotCommand::Pause => {
            lemma_other_lit_fails(s, 0, w, kw(MAP_START), 0);
            lemma_other_lit_fails(s, 0, w, kw(MAP_SECTION), 0);
            lemma_other_lit_fails(s, 0, w, kw(MAP_END), 0);
            lemma_other_lit_fails(s, 0, w, kw(RESET), 0);
            lemma_other_lit_fails(s, 0, w, kw(START), 0);
        },
        _ => {
            lemma_other_lit_fails(s, 0, w, kw(MAP_START), 0);
            lemma_other_lit_fails(s, 0, w, kw(MAP_SECTION), 0);
            lemma_other_lit_fails(s, 0, w, kw(MAP_END), 0);
            lemma_other_lit_fails(s, 0, w, kw(RESET), 3);
            lemma_other_lit_fails(s, 0, w, kw(START), 0);
            lemma_other_lit_fails(s, 0, w, kw(PAUSE), 0);
        },
    }
}

proof fn lemma_direct_text(s: Seq<u8>, p: MotorsPowerData)
    requires
        holds_command_text(s, BotCommand::Direct(p)),
    ensures
        decode_command(s) == bare(s, command_text(BotCommand::Direct(p)).len() as int, BotCommand::Direct(p)),
{
    lemma_command_keywords();
    let w = kw(DIRECT);
    lemma_line_parts(s, w, fields_text(motor_fields(p)));
    lemma_other_lit_fails(s, 0, w, kw(MAP_START), 0);
    lemma_other_lit_fails(s, 0, w, kw(MAP_SECTION), 0);
    lemma_other_lit_fails(s, 0, w, kw(MAP_END), 0);
    lemma_other_lit_fails(s, 0, w, kw(RESET), 0);
    lemma_other_lit_fails(s, 0, w, kw(START), 0);
    lemma_other_lit_fails(s, 0, w, kw(PAUSE), 0);
    lemma_other_lit_fails(s, 0, w, kw(RESTART), 0);
    lemma_expect_lit_present(s, 0, w);
    lemma_read_fields_text(s, 6, motor_fields(p));
    assert(motors_of(motor_fields(p)) == p);
}

/// A frame that holds the text of `c` then a byte that is no digit decodes
/// as `c` if that byte ends the line, and fails at that byte otherwise.
proof fn lemma_command_text(s: Seq<u8>, c: BotCommand)
    requires
        holds_command_text(s, c),
    ensures
        decode_command(s) == bare(s, command_text(c).len() as int, c),
{
    match c {
        BotCommand::MapStart(m) => lemma_map_start_text(s, m),
        BotCommand::MapSection(m) => lemma_map_section_text(s, m),
        BotCommand::Direct(p) => lemma_direct_text(s, p),
        _ => lemma_bare_text(s, c),
    }
}

/// Decoding the line that `write` put in a frame gives back the command,
/// whatever the frame held before.
pub proof fn lemma_command_round_trip(c: BotCommand, old_frame: Seq<u8>)
    requires
        old_frame.len() == PROTOCOL_BUFFER_SIZE,
    ensures
        decode_command(splice(old_frame, 0, encode_command(c))) == Ok::<BotCommand, int>(c),
{
    broadcast use lemma_splice_reads;

    lemma_command_len(c);
    let t = encode_command(c);
    let s = splice(old_frame, 0, t);
    let n = command_text(c).len() as int;
    assert(s.subrange(0, t.len() as int) == t);
    lemma_line_parts(s, command_text(c), seq![CODE_END]);
    lemma_byte_written(s, n, CODE_END);
    lemma_command_text(s, c);
}

/// A frame that holds the text of a command but, where its end of line
/// should be, a byte that is neither that nor a digit: decoding fails
/// exactly at that byte.
pub proof fn lemma_command_missing_end(c: BotCommand, s: Seq<u8>)
    requires
        command_text(c).len() < s.len(),
        s.subrange(0, command_text(c).len() as int) == command_text(c),
        !digit_at(s, command_text(c).len() as int),
        !byte_is(s, command_text(c).len() as int, CODE_END),
    ensures
        decode_command(s) == Err::<BotCommand, int>(command_text(c).len() as int),
{
    lemma_command_text(s, c);
}

/// A frame that starts with none of the command keywords fails at the
/// first byte no keyword allows: the frame agrees with some keyword up to
/// the reported position, and no keyword agrees with it one byte further.
pub proof fn lemma_command_unknown_keyword(s: Seq<u8>)
    requires
        forall|k: int| 0 <= k < 8 ==> expect_lit(s, 0, #[trigger] command_keywords()[k]) is Err,
    ensures
        decode_command(s) == Err::<BotCommand, int>(furthest_miss(s, 0, command_keywords())),
        exists|k: int|
            0 <= k < 8 && furthest_miss(s, 0, command_keywords()) < command_keywords()[k].len()
                && forall|j: int|
                0 <= j < furthest_miss(s, 0, command_keywords()) ==> byte_is(
                    s,
                    j,
                    #[trigger] command_keywords()[k][j],
                ),
        forall|k: int|
            0 <= k < 8 && furthest_miss(s, 0, command_keywords()) < (
            #[trigger] command_keywords()[k]).len() ==> !(forall|j: int|
                0 <= j <= furthest_miss(s, 0, command_keywords()) ==> byte_is(
                    s,
                    j,
                    #[trigger] command_keywords()[k][j],
                )),
{
    let kws = command_keywords();
    assert(expect_lit(s, 0, kws[0]) is Err);
    assert(expect_lit(s, 0, kws[1]) is Err);
    assert(expect_lit(s, 0, kws[2]) is Err);
    assert(expect_lit(s, 0, kws[3]) is Err);
    assert(expect_lit(s, 0, kws[4]) is Err);
    assert(expect_lit(s, 0, kws[5]) is Err);
    assert(expect_lit(s, 0, kws[6]) is Err);
    assert(expect_lit(s, 0, kws[7]) is Err);
    lemma_furthest_miss_is_first_mismatch(s, 0, kws);
    let e = furthest_miss(s, 0, kws);
    let k0 = choose|k: int|
        0 <= k < kws.len() && e < 0 + kws[k].len() && forall|j: int|
            0 <= j < e ==> byte_is(s, j, #[trigger] kws[k][j - 0]);
    assert forall|j: int| 0 <= j < e implies byte_is(s, j, #[trigger] kws[k0][j]) by {
        assert(kws[k0][j - 0] == kws[k0][j]);
    }
    assert forall|k: int|
        0 <= k < 8 && e < (#[trigger] kws[k]).len() implies !(forall|j: int|
            0 <= j <= e ==> byte_is(s, j, #[trigger] kws[k][j])) by {
        if forall|j: int| 0 <= j <= e ==> byte_is(s, j, #[trigger] kws[k][j]) {
            assert forall|j: int| 0 <= j <= e implies byte_is(s, j, #[trigger] kws[k][j - 0]) by {
                assert(kws[k][j - 0] == kws[k][j]);
            }
        }
    }
}

// ----------------------------------------------------------------------------
// Writing
// ----------------------------------------------------------------------------

fn write_section_data(buf: &mut ProtocolBuffer, index: usize, data: &ProtocolMapSectionData) -> (r: usize)
    requires
        index + encode_section_data(*data).len() <= PROTOCOL_BUFFER_SIZE,
    ensures
        final(buf)@ == splice(old(buf)@, index as int, encode_section_data(*data)),
        r == index + encode_section_data(*data).len(),
{
    proof {
        lemma_command_keywords();
    }
    match data {
        ProtocolMapSectionData::Straight(d) => {
            let i = write_string(buf, index, STRAIGHT);
            let vals = [d.length, d.width_start, d.width_end];
            assert(vals@ =~= straight_fields(*d));
            write_fields(buf, i, vals.as_slice())
        },
        ProtocolMapSectionData::TurnLeft(d) => {
            let i = write_string(buf, index, LEFT);
            let vals = [d.angle, d.width_start, d.width_end, d.radius_start, d.radius_end];
            assert(vals@ =~= turn_fields(*d));
            write_fields(buf, i, vals.as_slice())
        },
        ProtocolMapSectionData::TurnRight(d) => {
            let i = write_string(buf, index, RIGHT);
            let vals = [d.angle, d.width_start, d.width_end, d.radius_start, d.radius_end];
            assert(vals@ =~= turn_fields(*d));
            write_fields(buf, i, vals.as_slice())
        },
        ProtocolMapSectionData::SlopeUp(d) => {
            let i = write_string(buf, index, UP);
            let vals = [d.length, d.height, d.width_start, d.width_end];
            assert(vals@ =~= slope_fields(*d));
            write_fields(buf, i, vals.as_slice())
        },
        ProtocolMapSectionData::SlopeDown(d) => {
            let i = write_string(buf, index, DOWN);
            let vals = [d.length, d.height, d.width_start, d.width_end];
            assert(vals@ =~= slope_fields(*d));
            write_fields(buf, i, vals.as_slice())
        },
    }
}

// ----------------------------------------------------------------------------
// Parsing
// ----------------------------------------------------------------------------

fn parse_section_data(buf: &ProtocolBuffer, index: usize) -> (r: Result<ProtocolMapSectionData, usize>)
    requires
        index <= PROTOCOL_BUFFER_SIZE,
    ensures
        match decode_section_data(buf@, index as int) {
            Ok(d) => r == Ok::<ProtocolMapSectionData, usize>(d),
            Err(e) => r matches Err(x) && x == e,
        },
{
    proof {
        lemma_command_keywords();
    }
    if let Ok(next) = match_string(buf, index, STRAIGHT) {
        let a = match_fields_line(buf, next, 3)?;
        Ok(ProtocolMapSectionData::Straight(ProtocolMapSectionDataStraight {
            length: a[0],
            width_start: a[1],
            width_end: a[2],
        }))
    } else if let Ok(next) = match_string(buf, index, LEFT) {
        let a = match_fields_line(buf, next, 5)?;
        Ok(ProtocolMapSectionData::TurnLeft(ProtocolMapSectionDataTurn {
            angle: a[0],
            width_start: a[1],
            width_end: a[2],
            radius_start: a[3],
            radius_end: a[4],
        }))
    } else if let Ok(next) = match_string(buf, index, RIGHT) {
        let a = match_fields_line(buf, next, 5)?;
        Ok(ProtocolMapSectionData::TurnRight(ProtocolMapSectionDataTurn {
            angle: a[0],
            width_start: a[1],
            width_end: a[2],
            radius_start: a[3],
            radius_end: a[4],
        }))
    } else if let Ok(next) = match_string(buf, index, UP) {
        let a = match_fields_line(buf, next, 4)?;
        Ok(ProtocolMapSectionData::SlopeUp(ProtocolMapSectionDataSlope {
            length: a[0],
            height: a[1],
            width_start: a[2],
            width_end: a[3],
        }))
    } else if let Ok(next) = match_string(buf, index, DOWN) {
        let a = match_fields_line(buf, next, 4)?;
        Ok(ProtocolMapSectionData::SlopeDown(ProtocolMapSectionDataSlope {
            length: a[0],
            height: a[1],
            width_start: a[2],
            width_end: a[3],
        }))
    } else {
        let keywords = [STRAIGHT, LEFT, RIGHT, UP, DOWN];
        assert(keywords@.map_values(|t: &str| kw(t)) =~= section_keywords());
        Err(furthest_miss_position(buf, index, keywords.as_slice()))
    }
}

impl BotCommand {
    /// Encodes the command as one line at the start of `buf`; the bytes after
    /// the line are left as they were.
    pub fn write(&self, buf: &mut ProtocolBuffer)
        ensures
            final(buf)@ == splice(old(buf)@, 0, encode_command(*self)),
    {
        proof {
            lemma_command_keywords();
            lemma_command_len(*self);
        }
        let mut index: usize = 0;
        match self {
            BotCommand::MapStart(n) => {
                index = write_string(buf, index, MAP_START);
                index = write_usize_field(buf, index, *n);
            },
            BotCommand::MapSection(cmd) => {
                index = write_string(buf, index, MAP_SECTION);
                index = write_usize_field(buf, index, cmd.index);
                index = append_separator(buf, index);
                index = write_section_data(buf, index, &cmd.data);
            },
            BotCommand::MapEnd => {
                index = write_string(buf, index, MAP_END);
            },
            BotCommand::Reset => {
                index = write_string(buf, index, RESET);
            },
            BotCommand::Start => {
                index = write_string(buf, index, START);
            },
            BotCommand::Pause => {
                index = write_string(buf, index, PAUSE);
            },
            BotCommand::Restart => {
                index = write_string(buf, index, RESTART);
            },
            BotCommand::Direct(cmd) => {
                index = write_string(buf, index, DIRECT);
                let vals = [cmd.back_left, cmd.back_right, cmd.front_left, cmd.front_right];
                assert(vals@ =~= motor_fields(*cmd));
                index = write_fields(buf, index, vals.as_slice());
            },
        }
        append_end(buf, index);
    }

    /// Decodes the line at the start of `buf`. Err is the position of the
    /// first byte that does not fit the format.
    pub fn parse(buf: &ProtocolBuffer) -> (r: Result<Self, usize>)
        ensures
            match decode_command(buf@) {
                Ok(c) => r == Ok::<BotCommand, usize>(c),
                Err(e) => r matches Err(x) && x == e,
            },
    {
        proof {
            lemma_command_keywords();
        }
        if let Ok(next) = match_string(buf, 0, MAP_START) {
            let (size, next) = match_usize_field(buf, next)?;
            match_end(buf, next)?;
            Ok(BotCommand::MapStart(size))
        } else if let Ok(next) = match_string(buf, 0, MAP_SECTION) {
            let (section_index, next) = match_usize_field(buf, next)?;
            let next = match_separator(buf, next)?;
            let data = parse_section_data(buf, next)?;
            Ok(BotCommand::MapSection(ProtocolMapSection { index: section_index, data }))
        } else if let Ok(next) = match_string(buf, 0, MAP_END) {
            match_end(buf, next)?;
            Ok(BotCommand::MapEnd)
        } else if let Ok(next) = match_string(buf, 0, RESET) {
            match_end(buf, next)?;
            Ok(BotCommand::Reset)
        } else if let Ok(next) = match_string(buf, 0, START) {
            match_end(buf, next)?;
            Ok(BotCommand::Start)
        } else if let Ok(next) = match_string(buf, 0, PAUSE) {
            match_end(buf, next)?;
            Ok(BotCommand::Pause)
        } else if let Ok(next) = match_string(buf, 0, RESTART) {
            match_end(buf, next)?;
            Ok(BotCommand::Restart)
        } else if let Ok(next) = match_string(buf, 0, DIRECT) {
            let a = match_fields_line(buf, next, 4)?;
            Ok(BotCommand::Direct(MotorsPowerData {
                back_left: a[0],
                back_right: a[1],
                front_left: a[2],
                front_right: a[3],
            }))
        } else {
            let keywords = [MAP_START, MAP_SECTION, MAP_END, RESET, START, PAUSE, RESTART, DIRECT];
            assert(keywords@.map_values(|t: &str| kw(t)) =~= command_keywords());
            Err(furthest_miss_position(buf, 0, keywords.as_slice()))
        }
    }
}

/// A source of commands, polled without blocking
pub trait CommandReceiver {
    fn poll() -> Option<BotCommand>;
}

/// A sink of commands
pub trait CommandEmitter {
    fn emit(cmd: BotCommand);
}

} // verus!
