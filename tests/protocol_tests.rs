use racebot::command::{
    BotCommand, MotorsPowerData, ProtocolMapSection, ProtocolMapSectionData,
    ProtocolMapSectionDataSlope, ProtocolMapSectionDataTurn,
};
use racebot::event::{
    BotEvent, ProtocolBotStatus, ProtocolImuData, ProtocolLogLineData, ProtocolRacingData,
    ProtocolWaitingData, LASER_COUNT, MAX_LOG_LINE_SIZE,
};
use racebot::wire::{new_protocol_buffer, ProtocolBuffer, PROTOCOL_BUFFER_SIZE};

fn buffer_from_str(s: &str) -> ProtocolBuffer {
    let mut buffer = new_protocol_buffer();
    for (i, c) in s.chars().enumerate() {
        buffer[i] = c as u8;
        buffer[i + 1] = '\n' as u8;
    }
    buffer
}

fn buffer_to_string(b: &ProtocolBuffer) -> String {
    let mut s = String::new();
    for c in b.iter() {
        if *c == '\n' as u8 {
            break;
        }
        s.push(*c as char);
    }
    s
}

/// A frame holding exactly the bytes of `s`, with no end of line added.
fn raw_buffer(s: &str) -> ProtocolBuffer {
    let mut buffer = new_protocol_buffer();
    for (i, c) in s.bytes().enumerate() {
        buffer[i] = c;
    }
    buffer
}

static COMMANDS: [&str; 11] = [
    "MAP-START:5",
    "MAP-SECTION:0:STRAIGHT:1000:800:800",
    "MAP-SECTION:1:LEFT:90:800:800:500:500",
    "MAP-SECTION:2:RIGHT:90:800:800:500:500",
    "MAP-SECTION:3:UP:1000:30:800:800",
    "MAP-SECTION:4:DOWN:1000:30:800:800",
    "MAP-END",
    "RESET",
    "PAUSE",
    "RESTART",
    "DIRECT:100:-100:0:50",
];

static EVENTS: [&str; 11] = [
    "STATUS:INVALID-MAP",
    "STATUS:DEVICE-ERROR",
    "STATUS:STOPPED",
    "STATUS:WAITING:1000:300",
    "STATUS:RACING:2:0:100:-100:100",
    "STATUS:RACING:2:20:70:-90:-20",
    "STATUS:RACING:2:60:100:20:100",
    "LASERS:101:102:103:104:105:106:107:108:109:110:111:112:113:114:115:116:117:118:119:120",
    "IMU:0:0:45:0:0:0:0:0:-1",
    "IMU:2:-5:-45:12:23:4:1:-1:-5",
    "LOG:This is a lovely log message",
];

#[test]
fn it_converts_buffers() {
    let b = buffer_from_str("my buffer");
    let s = buffer_to_string(&b);
    assert_eq!(s, "my buffer");
}

#[test]
fn it_handles_commands() {
    for s in COMMANDS.iter() {
        let sb = buffer_from_str(s);
        match BotCommand::parse(&sb) {
            Ok(cmd) => {
                let mut rb = new_protocol_buffer();
                cmd.write(&mut rb);
                let rs = buffer_to_string(&rb);
                assert_eq!(*s, rs);
            }
            Err(index) => panic!("error parsing {} at index {}", s, index),
        }
    }
}

#[test]
fn it_handles_events() {
    for s in EVENTS.iter() {
        let sb = buffer_from_str(s);
        match BotEvent::parse(&sb) {
            Ok(cmd) => {
                let mut rb = new_protocol_buffer();
                cmd.write(&mut rb);
                let rs = buffer_to_string(&rb);
                assert_eq!(*s, rs);
            }
            Err(index) => panic!("error parsing {} at index {}", s, index),
        }
    }
}

fn command_round_trip(cmd: BotCommand) {
    let mut b = [b'x'; PROTOCOL_BUFFER_SIZE];
    cmd.write(&mut b);
    assert_eq!(BotCommand::parse(&b), Ok(cmd));
}

fn event_round_trip(evt: BotEvent) {
    let mut b = [b'x'; PROTOCOL_BUFFER_SIZE];
    evt.write(&mut b);
    assert_eq!(BotEvent::parse(&b), Ok(evt));
}

#[test]
fn commands_round_trip_at_the_integer_limits() {
    command_round_trip(BotCommand::MapStart(0));
    command_round_trip(BotCommand::MapStart(usize::MAX));
    command_round_trip(BotCommand::Start);
    command_round_trip(BotCommand::MapEnd);
    command_round_trip(BotCommand::Direct(MotorsPowerData {
        back_left: i32::MIN,
        back_right: i32::MAX,
        front_left: 0,
        front_right: -7,
    }));
    command_round_trip(BotCommand::MapSection(ProtocolMapSection {
        index: 19,
        data: ProtocolMapSectionData::TurnRight(ProtocolMapSectionDataTurn {
            width_start: i32::MAX,
            radius_start: i32::MIN,
            width_end: 1,
            radius_end: -1,
            angle: -360,
        }),
    }));
    command_round_trip(BotCommand::MapSection(ProtocolMapSection {
        index: usize::MAX,
        data: ProtocolMapSectionData::SlopeDown(ProtocolMapSectionDataSlope {
            width_start: 800,
            width_end: 800,
            length: 500,
            height: 300,
        }),
    }));
}

#[test]
fn events_round_trip_at_the_limits() {
    let mut lasers = [0i32; LASER_COUNT];
    for (i, l) in lasers.iter_mut().enumerate() {
        *l = if i % 2 == 0 { i32::MIN } else { i32::MAX };
    }
    event_round_trip(BotEvent::Lasers(lasers));
    event_round_trip(BotEvent::Status(ProtocolBotStatus::Racing(ProtocolRacingData {
        section: usize::MAX,
        completion_low: -1,
        completion_high: 0,
        positioning_left: i32::MIN,
        positioning_right: i32::MAX,
    })));
    event_round_trip(BotEvent::Status(ProtocolBotStatus::Waiting(ProtocolWaitingData {
        target: 5000,
        elapsed: -3,
    })));
    event_round_trip(BotEvent::Imu(ProtocolImuData {
        rotation_x: 1,
        rotation_y: 2,
        rotation_z: 3,
        acceleration_x: 4,
        acceleration_y: 5,
        acceleration_z: 6,
        gravity_x: 7,
        gravity_y: 8,
        gravity_z: -9,
    }));
}

#[test]
fn a_full_length_log_line_round_trips() {
    let mut message = [b'a'; MAX_LOG_LINE_SIZE];
    message[0] = b'Z';
    message[MAX_LOG_LINE_SIZE - 1] = b':';
    let log = ProtocolLogLineData { length: MAX_LOG_LINE_SIZE, message };
    event_round_trip(BotEvent::Log(log));
    let empty = ProtocolLogLineData { length: 0, message: [0; MAX_LOG_LINE_SIZE] };
    event_round_trip(BotEvent::Log(empty));
}

#[test]
fn log_lines_compare_by_their_text() {
    let mut a = ProtocolLogLineData { length: 2, message: [0; MAX_LOG_LINE_SIZE] };
    let mut b = a;
    a.message[0] = b'h';
    a.message[1] = b'i';
    b.message[0] = b'h';
    b.message[1] = b'i';
    b.message[5] = b'?';
    assert!(a == b);
    b.message[1] = b'o';
    assert!(a != b);
}

#[test]
fn a_log_line_too_long_fails_where_the_end_should_be() {
    let mut b = new_protocol_buffer();
    for (i, c) in "LOG:".bytes().enumerate() {
        b[i] = c;
    }
    for i in 4..PROTOCOL_BUFFER_SIZE {
        b[i] = b'a';
    }
    assert_eq!(BotEvent::parse(&b), Err(4 + MAX_LOG_LINE_SIZE));
}

#[test]
fn decoding_accepts_leading_zeros() {
    assert_eq!(BotCommand::parse(&buffer_from_str("MAP-START:007")), Ok(BotCommand::MapStart(7)));
    assert_eq!(
        BotCommand::parse(&buffer_from_str("DIRECT:-0:00:1:-010")),
        Ok(BotCommand::Direct(MotorsPowerData {
            back_left: 0,
            back_right: 0,
            front_left: 1,
            front_right: -10,
        }))
    );
}

#[test]
fn unknown_keywords_fail_where_every_keyword_stops() {
    assert_eq!(BotCommand::parse(&buffer_from_str("HELLO")), Err(0));
    assert_eq!(BotEvent::parse(&buffer_from_str("RESET")), Err(0));
    assert_eq!(
        BotCommand::parse(&buffer_from_str("MAP-SECTION:1:CURVE:1:2:3")),
        Err(14)
    );
    assert_eq!(BotEvent::parse(&buffer_from_str("STATUS:RUNNING")), Err(8));
}

#[test]
fn an_unknown_keyword_fails_where_no_keyword_goes_on() {
    assert_eq!(BotCommand::parse(&buffer_from_str("MAP-X")), Err(4));
    assert_eq!(BotCommand::parse(&buffer_from_str("RESTARX")), Err(6));
    assert_eq!(BotCommand::parse(&buffer_from_str("PA")), Err(2));
    assert_eq!(BotEvent::parse(&buffer_from_str("LOX")), Err(2));
    assert_eq!(BotEvent::parse(&buffer_from_str("STATUS:WAITIN")), Err(13));
    assert_eq!(BotCommand::parse(&buffer_from_str("MAP-SECTION:0:DOW:1:2:3:4")), Err(17));
}

#[test]
fn malformed_frames_fail_at_the_first_wrong_byte() {
    // missing end of line
    assert_eq!(BotCommand::parse(&raw_buffer("RESETX")), Err(5));
    // truncated field list: a separator was expected
    assert_eq!(BotCommand::parse(&buffer_from_str("DIRECT:1:2")), Err(10));
    // a digit was expected
    assert_eq!(BotCommand::parse(&buffer_from_str("MAP-START:x")), Err(10));
    assert_eq!(BotCommand::parse(&buffer_from_str("DIRECT:1:-:3:4")), Err(10));
    // an index cannot be negative
    assert_eq!(BotCommand::parse(&buffer_from_str("MAP-START:-1")), Err(10));
    // a value out of i32 fails at the digit that takes it out
    assert_eq!(BotCommand::parse(&buffer_from_str("DIRECT:2147483648:0:0:0")), Err(16));
    assert_eq!(
        BotCommand::parse(&buffer_from_str("DIRECT:-2147483648:0:0:0")),
        Ok(BotCommand::Direct(MotorsPowerData {
            back_left: i32::MIN,
            back_right: 0,
            front_left: 0,
            front_right: 0,
        }))
    );
    // a keyword cut short
    assert_eq!(BotCommand::parse(&buffer_from_str("MAP-ST")), Err(6));
    // lasers need all twenty readings and the end of line
    assert_eq!(BotEvent::parse(&buffer_from_str("LASERS:1:2:3")), Err(12));
    assert_eq!(BotEvent::parse(&buffer_from_str("IMU:1:2:3:4:5:6:7:8:9:10")), Err(21));
    // a frame with no end of line anywhere
    assert_eq!(BotCommand::parse(&[b'7'; PROTOCOL_BUFFER_SIZE]), Err(0));
}

#[test]
fn writing_leaves_the_rest_of_the_frame() {
    let mut b = [b'#'; PROTOCOL_BUFFER_SIZE];
    BotCommand::Pause.write(&mut b);
    assert_eq!(&b[0..6], b"PAUSE\n");
    assert!(b[6..].iter().all(|c| *c == b'#'));
    let mut b = [0u8; PROTOCOL_BUFFER_SIZE];
    BotEvent::Status(ProtocolBotStatus::Waiting(ProtocolWaitingData { target: -12, elapsed: 0 }))
        .write(&mut b);
    assert_eq!(buffer_to_string(&b), "STATUS:WAITING:-12:0");
}
