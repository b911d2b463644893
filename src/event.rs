//! Events emitted by the bot, and their line format.
use vstd::prelude::*;
use crate::wire::{
    furthest_miss, furthest_miss_position, lemma_furthest_miss_is_first_mismatch,
    kw, bare, then_end, expect_byte, expect_lit, fields_text, read_fields, read_usize_field,
    usize_field_text, splice, byte_is, ProtocolBuffer, PROTOCOL_BUFFER_SIZE, CODE_END,
    CODE_SEPARATOR, match_end, match_separator, match_string, match_usize_field, match_fields_line,
    append_code, append_end, append_separator, write_fields, write_string, write_usize_field,
    lemma_splice_then, lemma_splice_len, lemma_fields_text_len, lemma_text_lengths,
    lemma_splice_reads, lemma_line_parts, lemma_subrange_of, lemma_byte_written,
    lemma_other_lit_fails, lemma_expect_lit_present, lemma_read_fields_text,
    lemma_read_usize_field_text, digit_at, lemma_fields_text_first,
};
use crate::command::{ProtocolAngle, ProtocolLinearAcceleration, ProtocolLinearDimension};

verus! {

broadcast use lemma_splice_then, lemma_splice_len;

/// Number of laser sensors
pub const LASER_COUNT: usize = 20;

/// Longest log message, in bytes
pub const MAX_LOG_LINE_SIZE: usize = 200;

/// Time in milliseconds
pub type ProtocolTime = i32;

/// Completion of section (from 0 to 100)
pub type ProtocolCompletion = i32;

/// Side positioning in section (from -100 to 100)
pub type ProtocolSidePositioning = i32;

/// Data for waiting state
#[derive(Clone, Copy, PartialEq, Eq, Debug, Structural)]
pub struct ProtocolWaitingData {
    pub target: ProtocolTime,
    pub elapsed: ProtocolTime,
}

/// Data for racing state
#[derive(Clone, Copy, PartialEq, Eq, Debug, Structural)]
pub struct ProtocolRacingData {
    pub section: usize,
    pub completion_low: ProtocolCompletion,
    pub completion_high: ProtocolCompletion,
    pub positioning_left: ProtocolSidePositioning,
    pub positioning_right: ProtocolSidePositioning,
}

/// Data from all laser sensors
pub type ProtocolLaserData = [ProtocolLinearDimension; LASER_COUNT];

/// Data from the IMU
#[derive(Clone, Copy, PartialEq, Eq, Debug, Structural)]
pub struct ProtocolImuData {
    /// Bot Euler angles
    pub rotation_x: ProtocolAngle,
    pub rotation_y: ProtocolAngle,
    pub rotation_z: ProtocolAngle,
    /// Bot linear acceleration
    pub acceleration_x: ProtocolLinearAcceleration,
    pub acceleration_y: ProtocolLinearAcceleration,
    pub acceleration_z: ProtocolLinearAcceleration,
    /// Bot gravity acceleration
    pub gravity_x: ProtocolLinearAcceleration,
    pub gravity_y: ProtocolLinearAcceleration,
    pub gravity_z: ProtocolLinearAcceleration,
}

/// Bot status
#[derive(Clone, Copy, PartialEq, Eq, Debug, Structural)]
pub enum ProtocolBotStatus {
    /// No valid map yet
    InvalidMap,
    /// Initialization or reset failed
    DeviceError,
    /// Stopped, waiting more commands
    Stopped,
    /// Waiting to [re]start race
    Waiting(ProtocolWaitingData),
    /// Racing
    Racing(ProtocolRacingData),
}

/// A log message: the first `length` bytes of `message`.
#[derive(Clone, Copy, Debug)]
pub struct ProtocolLogLineData {
    pub length: usize,
    pub message: [u8; MAX_LOG_LINE_SIZE],
}

impl ProtocolLogLineData {
    /// The message bytes.
    pub open spec fn text(&self) -> Seq<u8> {
        self.message@.take(
            if self.length <= MAX_LOG_LINE_SIZE {
                self.length as int
            } else {
                MAX_LOG_LINE_SIZE as int
            },
        )
    }

    /// The length is one the message can have.
    pub open spec fn fits_frame(&self) -> bool {
        self.length <= MAX_LOG_LINE_SIZE
    }

    /// The message reads back from a frame line: it fits, and holds no end
    /// of line.
    pub open spec fn fits_line(&self) -> bool {
        &&& self.fits_frame()
        &&& forall|j: int| 0 <= j < self.length ==> self.message@[j] != CODE_END
    }
}

impl PartialEq for ProtocolLogLineData {
    fn eq(&self, other: &Self) -> (r: bool) {
        if self.length != other.length {
            return false;
        }
        let n = if self.length <= MAX_LOG_LINE_SIZE {
            self.length
        } else {
            MAX_LOG_LINE_SIZE
        };
        let mut i: usize = 0;
        while i < n
            invariant
                n <= MAX_LOG_LINE_SIZE,
                self.length == other.length,
                n == (if self.length <= MAX_LOG_LINE_SIZE { self.length } else { MAX_LOG_LINE_SIZE }),
                i <= n,
                forall|j: int| 0 <= j < i ==> self.message@[j] == other.message@[j],
            decreases n - i,
        {
            if self.message[i] != other.message[i] {
                assert(self.text()[i as int] != other.text()[i as int]);
                return false;
            }
            i += 1;
        }
        assert(self.text() =~= other.text());
        true
    }
}

impl vstd::std_specs::cmp::PartialEqSpecImpl for ProtocolLogLineData {
    open spec fn obeys_eq_spec() -> bool {
        true
    }

    open spec fn eq_spec(&self, other: &ProtocolLogLineData) -> bool {
        self.length == other.length && self.text() == other.text()
    }
}

impl Eq for ProtocolLogLineData {
}

/// Event messages the bot can emit
#[derive(Clone, Copy, PartialEq, Eq, Debug)]
pub enum BotEvent {
    Status(ProtocolBotStatus),
    Lasers(ProtocolLaserData),
    Imu(ProtocolImuData),
    Log(ProtocolLogLineData),
}

/// Two events are the same message: log lines compare by their text.
pub open spec fn same_event(a: BotEvent, b: BotEvent) -> bool {
    match (a, b) {
        (BotEvent::Log(x), BotEvent::Log(y)) => x.length == y.length && x.text() == y.text(),
        _ => a == b,
    }
}

impl BotEvent {
    /// The event can be written (only a log message can be too long).
    pub open spec fn fits_frame(&self) -> bool {
        match self {
            BotEvent::Log(l) => l.fits_frame(),
            _ => true,
        }
    }

    /// The event reads back from the line it is written as.
    pub open spec fn fits_line(&self) -> bool {
        match self {
            BotEvent::Log(l) => l.fits_line(),
            _ => true,
        }
    }
}

pub const STATUS: &'static str = "STATUS";
pub const LASERS: &'static str = "LASERS";
pub const IMU: &'static str = "IMU";
pub const LOG: &'static str = "LOG";

pub const INVALID_MAP: &'static str = "INVALID-MAP";
pub const DEVICE_ERROR: &'static str = "DEVICE-ERROR";
pub const STOPPED: &'static str = "STOPPED";
pub const WAITING: &'static str = "WAITING";
pub const RACING: &'static str = "RACING";

pub proof fn lemma_event_keywords()
    ensures
        kw(STATUS) == seq![83u8, 84, 65, 84, 85, 83],
        kw(LASERS) == seq![76u8, 65, 83, 69, 82, 83],
        kw(IMU) == seq![73u8, 77, 85],
        kw(LOG) == seq![76u8, 79, 71],
        kw(INVALID_MAP) == seq![73u8, 78, 86, 65, 76, 73, 68, 45, 77, 65, 80],
        kw(DEVICE_ERROR) == seq![68u8, 69, 86, 73, 67, 69, 45, 69, 82, 82, 79, 82],
        kw(STOPPED) == seq![83u8, 84, 79, 80, 80, 69, 68],
        kw(WAITING) == seq![87u8, 65, 73, 84, 73, 78, 71],
        kw(RACING) == seq![82u8, 65, 67, 73, 78, 71],
        STATUS.is_ascii() && LASERS.is_ascii() && IMU.is_ascii() && LOG.is_ascii()
            && INVALID_MAP.is_ascii() && DEVICE_ERROR.is_ascii() && STOPPED.is_ascii()
            && WAITING.is_ascii() && RACING.is_ascii(),
        STATUS@.len() == 6 && LASERS@.len() == 6 && IMU@.len() == 3 && LOG@.len() == 3
            && INVALID_MAP@.len() == 11 && DEVICE_ERROR@.len() == 12 && STOPPED@.len() == 7
            && WAITING@.len() == 7 && RACING@.len() == 6,
{
    reveal_strlit("STATUS");
    reveal_strlit("LASERS");
    reveal_strlit("IMU");
    reveal_strlit("LOG");
    reveal_strlit("INVALID-MAP");
    reveal_strlit("DEVICE-ERROR");
    reveal_strlit("STOPPED");
    reveal_strlit("WAITING");
    reveal_strlit("RACING");
    assert(kw(STATUS) =~= seq![83u8, 84, 65, 84, 85, 83]);
    assert(kw(LASERS) =~= seq![76u8, 65, 83, 69, 82, 83]);
    assert(kw(IMU) =~= seq![73u8, 77, 85]);
    assert(kw(LOG) =~= seq![76u8, 79, 71]);
    assert(kw(INVALID_MAP) =~= seq![73u8, 78, 86, 65, 76, 73, 68, 45, 77, 65, 80]);
    assert(kw(DEVICE_ERROR) =~= seq![68u8, 69, 86, 73, 67, 69, 45, 69, 82, 82, 79, 82]);
    assert(kw(STOPPED) =~= seq![83u8, 84, 79, 80, 80, 69, 68]);
    assert(kw(WAITING) =~= seq![87u8, 65, 73, 84, 73, 78, 71]);
    assert(kw(RACING) =~= seq![82u8, 65, 67, 73, 78, 71]);
}

// ----------------------------------------------------------------------------
// Line format
// ----------------------------------------------------------------------------

pub open spec fn waiting_fields(d: ProtocolWaitingData) -> Seq<i32> {
    seq![d.target, d.elapsed]
}

pub open spec fn racing_fields(d: ProtocolRacingData) -> Seq<i32> {
    seq![d.completion_low, d.completion_high, d.positioning_left, d.positioning_right]
}

pub open spec fn imu_fields(d: ProtocolImuData) -> Seq<i32> {
    seq![
        d.rotation_x,
        d.rotation_y,
        d.rotation_z,
        d.acceleration_x,
        d.acceleration_y,
        d.acceleration_z,
        d.gravity_x,
        d.gravity_y,
        d.gravity_z,
    ]
}

pub open spec fn waiting_of(v: Seq<i32>) -> ProtocolWaitingData {
    ProtocolWaitingData { target: v[0], elapsed: v[1] }
}

pub open spec fn racing_of(section: usize, v: Seq<i32>) -> ProtocolRacingData {
    ProtocolRacingData {
        section,
        completion_low: v[0],
        completion_high: v[1],
        positioning_left: v[2],
        positioning_right: v[3],
    }
}

pub open spec fn imu_of(v: Seq<i32>) -> ProtocolImuData {
    ProtocolImuData {
        rotation_x: v[0],
        rotation_y: v[1],
        rotation_z: v[2],
        acceleration_x: v[3],
        acceleration_y: v[4],
        acceleration_z: v[5],
        gravity_x: v[6],
        gravity_y: v[7],
        gravity_z: v[8],
    }
}

/// The laser readings that `v` lists.
pub open spec fn lasers_of(v: Seq<i32>) -> ProtocolLaserData {
    choose|a: ProtocolLaserData| a@ == v
}

/// A log line of text `t` (the bytes after the text do not count).
pub open spec fn log_of(t: Seq<u8>) -> ProtocolLogLineData {
    ProtocolLogLineData {
        length: t.len() as usize,
        message: choose|a: [u8; MAX_LOG_LINE_SIZE]| a@.take(t.len() as int) == t,
    }
}

pub open spec fn encode_status(st: ProtocolBotStatus) -> Seq<u8> {
    match st {
        ProtocolBotStatus::InvalidMap => kw(INVALID_MAP),
        ProtocolBotStatus::DeviceError => kw(DEVICE_ERROR),
        ProtocolBotStatus::Stopped => kw(STOPPED),
        ProtocolBotStatus::Waiting(d) => kw(WAITING) + fields_text(waiting_fields(d)),
        ProtocolBotStatus::Racing(d) => kw(RACING) + usize_field_text(d.section) + fields_text(
            racing_fields(d),
        ),
    }
}

/// The text of an event, without the end of line.
pub open spec fn event_text(e: BotEvent) -> Seq<u8> {
    match e {
        BotEvent::Status(st) => kw(STATUS) + seq![CODE_SEPARATOR] + encode_status(st),
        BotEvent::Lasers(a) => kw(LASERS) + fields_text(a@),
        BotEvent::Imu(d) => kw(IMU) + fields_text(imu_fields(d)),
        BotEvent::Log(l) => kw(LOG) + seq![CODE_SEPARATOR] + l.text(),
    }
}

/// The line that encodes an event.
pub open spec fn encode_event(e: BotEvent) -> Seq<u8> {
    event_text(e) + seq![CODE_END]
}

/// Counts the message bytes from `i`, `k` of them already seen: the count
/// when an end of line follows, else the position where
/// `MAX_LOG_LINE_SIZE` bytes were passed and no end of line stands.
pub open spec fn log_scan(s: Seq<u8>, i: int, k: int) -> Result<int, int>
    decreases MAX_LOG_LINE_SIZE - k,
{
    if byte_is(s, i + k, CODE_END) {
        Ok(k)
    } else if k >= MAX_LOG_LINE_SIZE {
        Err(i + k)
    } else {
        log_scan(s, i, k + 1)
    }
}

/// The status keywords, in the order they are tried.
pub open spec fn status_keywords() -> Seq<Seq<u8>> {
    seq![kw(INVALID_MAP), kw(DEVICE_ERROR), kw(STOPPED), kw(WAITING), kw(RACING)]
}

/// The event keywords, in the order they are tried.
pub open spec fn event_keywords() -> Seq<Seq<u8>> {
    seq![kw(STATUS), kw(LASERS), kw(IMU), kw(LOG)]
}

/// The status after `STATUS:`; when no keyword matches, the error is the
/// furthest position any of them matched to.
pub open spec fn decode_status(s: Seq<u8>, k: int) -> Result<ProtocolBotStatus, int> {
    match expect_lit(s, k, kw(INVALID_MAP)) {
        Ok(j) => bare(s, j, ProtocolBotStatus::InvalidMap),
        Err(_) => match expect_lit(s, k, kw(DEVICE_ERROR)) {
            Ok(j) => bare(s, j, ProtocolBotStatus::DeviceError),
            Err(_) => match expect_lit(s, k, kw(STOPPED)) {
                Ok(j) => bare(s, j, ProtocolBotStatus::Stopped),
                Err(_) => match expect_lit(s, k, kw(WAITING)) {
                    Ok(j) => match then_end(s, read_fields(s, j, 2)) {
                        Ok(v) => Ok(ProtocolBotStatus::Waiting(waiting_of(v))),
                        Err(e) => Err(e),
                    },
                    Err(_) => match expect_lit(s, k, kw(RACING)) {
                        Ok(j) => match read_usize_field(s, j) {
                            Ok((section, j2)) => match then_end(s, read_fields(s, j2, 4)) {
                                Ok(v) => Ok(ProtocolBotStatus::Racing(racing_of(section, v))),
                                Err(e) => Err(e),
                            },
                            Err(e) => Err(e),
                        },
                        Err(_) => Err(furthest_miss(s, k, status_keywords())),
                    },
                },
            },
        },
    }
}

/// What a frame holds: the first keyword that matches at offset zero
/// decides the event, whose fields must then follow exactly. The error is
/// the position of the first byte that does not fit; when no keyword
/// matches, the furthest position any of them matched to.
pub open spec fn decode_event(s: Seq<u8>) -> Result<BotEvent, int> {
    match expect_lit(s, 0, kw(STATUS)) {
        Ok(i) => match expect_byte(s, i, CODE_SEPARATOR) {
            Ok(k) => match decode_status(s, k) {
                Ok(st) => Ok(BotEvent::Status(st)),
                Err(e) => Err(e),
            },
            Err(e) => Err(e),
        },
        Err(_) => match expect_lit(s, 0, kw(LASERS)) {
            Ok(i) => match then_end(s, read_fields(s, i, LASER_COUNT as nat)) {
                Ok(v) => Ok(BotEvent::Lasers(lasers_of(v))),
                Err(e) => Err(e),
            },
            Err(_) => match expect_lit(s, 0, kw(IMU)) {
                Ok(i) => match then_end(s, read_fields(s, i, 9)) {
                    Ok(v) => Ok(BotEvent::Imu(imu_of(v))),
                    Err(e) => Err(e),
                },
                Err(_) => match expect_lit(s, 0, kw(LOG)) {
                    Ok(i) => match expect_byte(s, i, CODE_SEPARATOR) {
                        Ok(j) => match log_scan(s, j, 0) {
                            Ok(n) => Ok(BotEvent::Log(log_of(s.subrange(j, j + n)))),
                            Err(e) => Err(e),
                        },
                        Err(e) => Err(e),
                    },
                    Err(_) => Err(furthest_miss(s, 0, event_keywords())),
                },
            },
        },
    }
}

/// Every event that fits a frame is shorter than it.
pub proof fn lemma_event_len(e: BotEvent)
    requires
        e.fits_frame(),
    ensures
        encode_event(e).len() < PROTOCOL_BUFFER_SIZE,
{
    lemma_event_keywords();
    match e {
        BotEvent::Status(st) => match st {
            ProtocolBotStatus::Waiting(d) => lemma_fields_text_len(waiting_fields(d)),
            ProtocolBotStatus::Racing(d) => {
                lemma_fields_text_len(racing_fields(d));
                lemma_text_lengths(0, d.section as u64);
            },
            _ => {},
        },
        BotEvent::Lasers(a) => lemma_fields_text_len(a@),
        BotEvent::Imu(d) => lemma_fields_text_len(imu_fields(d)),
        BotEvent::Log(l) => {},
    }
}

// ----------------------------------------------------------------------------
// Round trip
// ----------------------------------------------------------------------------

/// The text of a status, then a byte that is no digit: decoding gets that
/// status if the byte ends the line, else fails at it.
proof fn lemma_status_text(s: Seq<u8>, k: int, st: ProtocolBotStatus)
    requires
        0 <= k,
        k + encode_status(st).len() < s.len(),
        s.subrange(k, k + encode_status(st).len()) == encode_status(st),
        !digit_at(s, k + encode_status(st).len()),
    ensures
        decode_status(s, k) == bare(s, k + encode_status(st).len(), st),
{
    lemma_event_keywords();
    let t = encode_status(st);
    let n = t.len() as int;
    let w = match st {
        ProtocolBotStatus::InvalidMap => kw(INVALID_MAP),
        ProtocolBotStatus::DeviceError => kw(DEVICE_ERROR),
        ProtocolBotStatus::Stopped => kw(STOPPED),
        ProtocolBotStatus::Waiting(_) => kw(WAITING),
        ProtocolBotStatus::Racing(_) => kw(RACING),
    };
    let wl = w.len() as int;
    lemma_subrange_of(s, k, t, 0, wl);
    assert(t.subrange(0, wl) =~= w);
    lemma_expect_lit_present(s, k, w);
    match st {
        ProtocolBotStatus::InvalidMap => {},
        ProtocolBotStatus::DeviceError => {
            lemma_other_lit_fails(s, k, w, kw(INVALID_MAP), 0);
        },
        ProtocolBotStatus::Stopped => {
            lemma_other_lit_fails(s, k, w, kw(INVALID_MAP), 0);
            lemma_other_lit_fails(s, k, w, kw(DEVICE_ERROR), 0);
        },
        ProtocolBotStatus::Waiting(d) => {
            lemma_other_lit_fails(s, k, w, kw(INVALID_MAP), 0);
            lemma_other_lit_fails(s, k, w, kw(DEVICE_ERROR), 0);
            lemma_other_lit_fails(s, k, w, kw(STOPPED), 0);
            let f = fields_text(waiting_fields(d));
            lemma_subrange_of(s, k, t, wl, n);
            assert(t.subrange(wl, n) =~= f);
            lemma_read_fields_text(s, k + wl, waiting_fields(d));
            assert(waiting_of(waiting_fields(d)) == d);
        },
        ProtocolBotStatus::Racing(d) => {
            lemma_other_lit_fails(s, k, w, kw(INVALID_MAP), 0);
            lemma_other_lit_fails(s, k, w, kw(DEVICE_ERROR), 0);
            lemma_other_lit_fails(s, k, w, kw(STOPPED), 0);
            lemma_other_lit_fails(s, k, w, kw(WAITING), 0);
            let u = usize_field_text(d.section);
            let ul = u.len() as int;
            let f = fields_text(racing_fields(d));
            lemma_subrange_of(s, k, t, wl, wl + ul);
            assert(t.subrange(wl, wl + ul) =~= u);
            lemma_subrange_of(s, k, t, wl + ul, n);
            assert(t.subrange(wl + ul, n) =~= f);
            lemma_read_fields_text(s, k + wl + ul, racing_fields(d));
            lemma_fields_text_first(racing_fields(d));
            assert(s[k + wl + ul] == t[wl + ul]) by {
                assert(s.subrange(k, k + n)[wl + ul] == t[wl + ul]);
            }
            lemma_read_usize_field_text(s, k + wl, d.section);
            assert(racing_of(d.section, racing_fields(d)) == d);
        },
    }
}

/// The message scan stops at the end of line that follows the text.
proof fn lemma_log_scan_text(s: Seq<u8>, j: int, n: int, k: int)
    requires
        0 <= k <= n <= MAX_LOG_LINE_SIZE,
        0 <= j,
        j + n < s.len(),
        s[j + n] == CODE_END,
        forall|q: int| k <= q < n ==> #[trigger] s[j + q] != CODE_END,
    ensures
        log_scan(s, j, k) == Ok::<int, int>(n),
    decreases n - k,
{
    if k < n {
        lemma_log_scan_text(s, j, n, k + 1);
    }
}

proof fn lemma_log_round_trip(s: Seq<u8>, l: ProtocolLogLineData)
    requires
        l.fits_line(),
        encode_event(BotEvent::Log(l)).len() <= s.len(),
        s.subrange(0, encode_event(BotEvent::Log(l)).len() as int) == encode_event(BotEvent::Log(l)),
    ensures
        decode_event(s) matches Ok(d) && same_event(d, BotEvent::Log(l)),
{
    lemma_event_keywords();
    let w = kw(LOG);
    let n = l.length as int;
    let body = seq![CODE_SEPARATOR] + l.text() + seq![CODE_END];
    assert(encode_event(BotEvent::Log(l)) =~= w + body);
    lemma_line_parts(s, w, body);
    lemma_other_lit_fails(s, 0, w, kw(STATUS), 0);
    lemma_other_lit_fails(s, 0, w, kw(LASERS), 1);
    lemma_other_lit_fails(s, 0, w, kw(IMU), 0);
    lemma_expect_lit_present(s, 0, w);
    assert(s[3] == CODE_SEPARATOR) by {
        assert(s.subrange(3, 3 + body.len() as int)[0] == body[0]);
    }
    assert(s.subrange(4, 4 + n) =~= l.text()) by {
        assert forall|q: int| 0 <= q < n implies s.subrange(4, 4 + n)[q] == l.text()[q] by {
            assert(s.subrange(3, 3 + body.len() as int)[q + 1] == body[q + 1]);
        }
    }
    assert(s[4 + n] == CODE_END) by {
        assert(s.subrange(3, 3 + body.len() as int)[n + 1] == body[n + 1]);
    }
    assert forall|q: int| 0 <= q < n implies #[trigger] s[4 + q] != CODE_END by {
        assert(s.subrange(4, 4 + n)[q] == l.message@[q]);
    }
    lemma_log_scan_text(s, 4, n, 0);
    let t = s.subrange(4, 4 + n);
    assert(l.message@.take(n) == t);
    let c = log_of(t).message;
    assert(c@.take(n) == t);
    assert(log_of(t).text() =~= l.text());
}

/// Whether `s` holds the text of `e` from zero, then a byte that is no digit.
pub open spec fn holds_event_text(s: Seq<u8>, e: BotEvent) -> bool {
    &&& event_text(e).len() < s.len()
    &&& s.subrange(0, event_text(e).len() as int) == event_text(e)
    &&& !digit_at(s, event_text(e).len() as int)
}

proof fn lemma_status_event_text(s: Seq<u8>, st: ProtocolBotStatus)
    requires
        holds_event_text(s, BotEvent::Status(st)),
    ensures
        decode_event(s) == bare(s, event_text(BotEvent::Status(st)).len() as int, BotEvent::Status(st)),
{
    lemma_event_keywords();
    let w = kw(STATUS);
    let es = encode_status(st);
    let body = seq![CODE_SEPARATOR] + es;
    assert(event_text(BotEvent::Status(st)) =~= w + body);
    lemma_line_parts(s, w, body);
    lemma_expect_lit_present(s, 0, w);
    let bl = body.len() as int;
    assert(s[6] == CODE_SEPARATOR) by {
        assert(s.subrange(6, 6 + bl)[0] == body[0]);
    }
    lemma_subrange_of(s, 6, body, 1, bl);
    assert(body.subrange(1, bl) =~= es);
    lemma_status_text(s, 7, st);
}

proof fn lemma_lasers_text(s: Seq<u8>, a: ProtocolLaserData)
    requires
        holds_event_text(s, BotEvent::Lasers(a)),
    ensures
        decode_event(s) == bare(s, event_text(BotEvent::Lasers(a)).len() as int, BotEvent::Lasers(a)),
{
    lemma_event_keywords();
    let w = kw(LASERS);
    lemma_line_parts(s, w, fields_text(a@));
    lemma_other_lit_fails(s, 0, w, kw(STATUS), 0);
    lemma_expect_lit_present(s, 0, w);
    lemma_read_fields_text(s, 6, a@);
    let b = lasers_of(a@);
    assert(b@ == a@);
    assert(b =~= a);
}

proof fn lemma_imu_text(s: Seq<u8>, d: ProtocolImuData)
    requires
        holds_event_text(s, BotEvent::Imu(d)),
    ensures
        decode_event(s) == bare(s, event_text(BotEvent::Imu(d)).len() as int, BotEvent::Imu(d)),
{
    lemma_event_keywords();
    let w = kw(IMU);
    lemma_line_parts(s, w, fields_text(imu_fields(d)));
    lemma_other_lit_fails(s, 0, w, kw(STATUS), 0);
    lemma_other_lit_fails(s, 0, w, kw(LASERS), 0);
    lemma_expect_lit_present(s, 0, w);
    lemma_read_fields_text(s, 3, imu_fields(d));
    assert(imu_of(imu_fields(d)) == d);
}

/// A frame that holds the text of `e` (not a log line) then a byte that is
/// no digit decodes as `e` if that byte ends the line, and fails at that
/// byte otherwise.
proof fn lemma_event_text(s: Seq<u8>, e: BotEvent)
    requires
        !(e is Log),
        holds_event_text(s, e),
    ensures
        decode_event(s) == bare(s, event_text(e).len() as int, e),
{
    match e {
        BotEvent::Status(st) => lemma_status_event_text(s, st),
        BotEvent::Lasers(a) => lemma_lasers_text(s, a),
        BotEvent::Imu(d) => lemma_imu_text(s, d),
        BotEvent::Log(_) => {},
    }
}

/// Decoding the line that `write` put in a frame gives back the same event,
/// whatever the frame held before.
pub proof fn lemma_event_round_trip(e: BotEvent, old_frame: Seq<u8>)
    requires
        e.fits_line(),
        old_frame.len() == PROTOCOL_BUFFER_SIZE,
    ensures
        decode_event(splice(old_frame, 0, encode_event(e))) matches Ok(d) && same_event(d, e),
{
    broadcast use lemma_splice_reads;

    lemma_event_len(e);
    let t = encode_event(e);
    let s = splice(old_frame, 0, t);
    assert(s.subrange(0, t.len() as int) == t);
    match e {
        BotEvent::Log(l) => lemma_log_round_trip(s, l),
        _ => {
            let n = event_text(e).len() as int;
            lemma_line_parts(s, event_text(e), seq![CODE_END]);
            lemma_byte_written(s, n, CODE_END);
            lemma_event_text(s, e);
        },
    }
}

/// A frame that holds the text of an event other than a log line but,
/// where its end of line should be, a byte that is neither that nor a
/// digit: decoding fails exactly at that byte.
pub proof fn lemma_event_missing_end(e: BotEvent, s: Seq<u8>)
    requires
        !(e is Log),
        event_text(e).len() < s.len(),
        s.subrange(0, event_text(e).len() as int) == event_text(e),
        !digit_at(s, event_text(e).len() as int),
        !byte_is(s, event_text(e).len() as int, CODE_END),
    ensures
        decode_event(s) == Err::<BotEvent, int>(event_text(e).len() as int),
{
    lemma_event_text(s, e);
}

/// A frame that starts with none of the event keywords fails at the first
/// byte no keyword allows: the frame agrees with some keyword up to the
/// reported position, and no keyword agrees with it one byte further.
pub proof fn lemma_event_unknown_keyword(s: Seq<u8>)
    requires
        forall|k: int| 0 <= k < 4 ==> expect_lit(s, 0, #[trigger] event_keywords()[k]) is Err,
    ensures
        decode_event(s) == Err::<BotEvent, int>(furthest_miss(s, 0, event_keywords())),
        exists|k: int|
            0 <= k < 4 && furthest_miss(s, 0, event_keywords()) < event_keywords()[k].len()
                && forall|j: int|
                0 <= j < furthest_miss(s, 0, event_keywords()) ==> byte_is(
                    s,
                    j,
                    #[trigger] event_keywords()[k][j],
                ),
        forall|k: int|
            0 <= k < 4 && furthest_miss(s, 0, event_keywords()) < (
            #[trigger] event_keywords()[k]).len() ==> !(forall|j: int|
                0 <= j <= furthest_miss(s, 0, event_keywords()) ==> byte_is(
                    s,
                    j,
                    #[trigger] event_keywords()[k][j],
                )),
{
    let kws = event_keywords();
    assert(expect_lit(s, 0, kws[0]) is Err);
    assert(expect_lit(s, 0, kws[1]) is Err);
    assert(expect_lit(s, 0, kws[2]) is Err);
    assert(expect_lit(s, 0, kws[3]) is Err);
    lemma_furthest_miss_is_first_mismatch(s, 0, kws);
    let e = furthest_miss(s, 0, kws);
    let k0 = choose|k: int|
        0 <= k < kws.len() && e < 0 + kws[k].len() && forall|j: int|
            0 <= j < e ==> byte_is(s, j, #[trigger] kws[k][j - 0]);
    assert forall|j: int| 0 <= j < e implies byte_is(s, j, #[trigger] kws[k0][j]) by {
        assert(kws[k0][j - 0] == kws[k0][j]);
    }
    assert forall|k: int|
        0 <= k < 4 && e < (#[trigger] kws[k]).len() implies !(forall|j: int|
            0 <= j <= e ==> byte_is(s, j, #[trigger] kws[k][j])) by {
        if forall|j: int| 0 <= j <= e ==> byte_is(s, j, #[trigger] kws[k][j]) {
            assert forall|j: int| 0 <= j <= e implies byte_is(s, j, #[trigger] kws[k][j - 0]) by {
                assert(kws[k][j - 0] == kws[k][j]);
            }
        }
    }
}

// ----------------------------------------------------------------------------
// Writing
// ----------------------------------------------------------------------------

fn write_status(buf: &mut ProtocolBuffer, index: usize, status: &ProtocolBotStatus) -> (r: usize)
    requires
        index + encode_status(*status).len() <= PROTOCOL_BUFFER_SIZE,
    ensures
        final(buf)@ == splice(old(buf)@, index as int, encode_status(*status)),
        r == index + encode_status(*status).len(),
{
    proof {
        lemma_event_keywords();
    }
    match status {
        ProtocolBotStatus::InvalidMap => write_string(buf, index, INVALID_MAP),
        ProtocolBotStatus::DeviceError => write_string(buf, index, DEVICE_ERROR),
        ProtocolBotStatus::Stopped => write_string(buf, index, STOPPED),
        ProtocolBotStatus::Waiting(d) => {
            let i = write_string(buf, index, WAITING);
            let vals = [d.target, d.elapsed];
            assert(vals@ =~= waiting_fields(*d));
            write_fields(buf, i, vals.as_slice())
        },
        ProtocolBotStatus::Racing(d) => {
            let i = write_string(buf, index, RACING);
            let i = write_usize_field(buf, i, d.section);
            let vals = [d.completion_low, d.completion_high, d.positioning_left, d.positioning_right];
            assert(vals@ =~= racing_fields(*d));
            write_fields(buf, i, vals.as_slice())
        },
    }
}

fn write_log_text(buf: &mut ProtocolBuffer, index: usize, log: &ProtocolLogLineData) -> (r: usize)
    requires
        log.fits_frame(),
        index + log.length <= PROTOCOL_BUFFER_SIZE,
    ensures
        final(buf)@ == splice(old(buf)@, index as int, log.text()),
        r == index + log.length,
{
    let mut k: usize = 0;
    assert(log.text().take(0) =~= Seq::<u8>::empty());
    assert(splice(old(buf)@, index as int, Seq::<u8>::empty()) =~= old(buf)@);
    while k < log.length
        invariant
            log.fits_frame(),
            index + log.length <= PROTOCOL_BUFFER_SIZE,
            k <= log.length,
            buf@ == splice(old(buf)@, index as int, log.text().take(k as int)),
        decreases log.length - k,
    {
        append_code(buf, index + k, log.message[k]);
        assert(log.text().take(k as int) + seq![log.message@[k as int]] =~= log.text().take(k + 1));
        k += 1;
    }
    assert(log.text().take(log.length as int) =~= log.text());
    index + log.length
}

// ----------------------------------------------------------------------------
// Parsing
// ----------------------------------------------------------------------------

fn parse_status(buf: &ProtocolBuffer, index: usize) -> (r: Result<ProtocolBotStatus, usize>)
    requires
        index <= PROTOCOL_BUFFER_SIZE,
    ensures
        match decode_status(buf@, index as int) {
            Ok(d) => r == Ok::<ProtocolBotStatus, usize>(d),
            Err(e) => r matches Err(x) && x == e,
        },
{
    proof {
        lemma_event_keywords();
    }
    if let Ok(next) = match_string(buf, index, INVALID_MAP) {
        match_end(buf, next)?;
        Ok(ProtocolBotStatus::InvalidMap)
    } else if let Ok(next) = match_string(buf, index, DEVICE_ERROR) {
        match_end(buf, next)?;
        Ok(ProtocolBotStatus::DeviceError)
    } else if let Ok(next) = match_string(buf, index, STOPPED) {
        match_end(buf, next)?;
        Ok(ProtocolBotStatus::Stopped)
    } else if let Ok(next) = match_string(buf, index, WAITING) {
        let a = match_fields_line(buf, next, 2)?;
        Ok(ProtocolBotStatus::Waiting(ProtocolWaitingData { target: a[0], elapsed: a[1] }))
    } else if let Ok(next) = match_string(buf, index, RACING) {
        let (section, next) = match_usize_field(buf, next)?;
        let a = match_fields_line(buf, next, 4)?;
        Ok(
            ProtocolBotStatus::Racing(
                ProtocolRacingData {
                    section,
                    completion_low: a[0],
                    completion_high: a[1],
                    positioning_left: a[2],
                    positioning_right: a[3],
                },
            ),
        )
    } else {
        let keywords = [INVALID_MAP, DEVICE_ERROR, STOPPED, WAITING, RACING];
        assert(keywords@.map_values(|t: &str| kw(t)) =~= status_keywords());
        Err(furthest_miss_position(buf, index, keywords.as_slice()))
    }
}

fn parse_log(buf: &ProtocolBuffer, index: usize) -> (r: Result<ProtocolLogLineData, usize>)
    requires
        index + MAX_LOG_LINE_SIZE < PROTOCOL_BUFFER_SIZE,
    ensures
        match log_scan(buf@, index as int, 0) {
            Ok(n) => r matches Ok(x) && x.length == n && x.fits_frame() && x.text()
                == buf@.subrange(index as int, index + n),
            Err(e) => r matches Err(x) && x == e,
        },
{
    let mut message = [0u8; MAX_LOG_LINE_SIZE];
    let mut k: usize = 0;
    assert(message@ =~= buf@.subrange(index as int, index as int) + Seq::new(
        MAX_LOG_LINE_SIZE as nat,
        |j: int| 0u8,
    ));
    loop
        invariant
            index + MAX_LOG_LINE_SIZE < PROTOCOL_BUFFER_SIZE,
            k <= MAX_LOG_LINE_SIZE,
            log_scan(buf@, index as int, 0) == log_scan(buf@, index as int, k as int),
            message@ == buf@.subrange(index as int, index + k) + Seq::new(
                (MAX_LOG_LINE_SIZE - k) as nat,
                |j: int| 0u8,
            ),
        decreases MAX_LOG_LINE_SIZE - k,
    {
        let p = index + k;
        if buf[p] == CODE_END {
            let r = ProtocolLogLineData { length: k, message };
            assert(r.text() =~= buf@.subrange(index as int, index + k));
            return Ok(r);
        }
        if k >= MAX_LOG_LINE_SIZE {
            return Err(p);
        }
        let ghost before = message@;
        message[k] = buf[p];
        assert(message@ =~= buf@.subrange(index as int, index + k + 1) + Seq::new(
            (MAX_LOG_LINE_SIZE - (k + 1)) as nat,
            |j: int| 0u8,
        ));
        k += 1;
    }
}

impl BotEvent {
    /// Encodes the event as one line at the start of `buf`; the bytes after
    /// the line are left as they were.
    pub fn write(&self, buf: &mut ProtocolBuffer)
        requires
            self.fits_frame(),
        ensures
            final(buf)@ == splice(old(buf)@, 0, encode_event(*self)),
    {
        proof {
            lemma_event_keywords();
            lemma_event_len(*self);
        }
        let mut index: usize = 0;
        match self {
            BotEvent::Status(evt) => {
                index = write_string(buf, index, STATUS);
                index = append_separator(buf, index);
                index = write_status(buf, index, evt);
            },
            BotEvent::Lasers(evt) => {
                index = write_string(buf, index, LASERS);
                index = write_fields(buf, index, evt.as_slice());
            },
            BotEvent::Imu(evt) => {
                index = write_string(buf, index, IMU);
                let vals = [
                    evt.rotation_x,
                    evt.rotation_y,
                    evt.rotation_z,
                    evt.acceleration_x,
                    evt.acceleration_y,
                    evt.acceleration_z,
                    evt.gravity_x,
                    evt.gravity_y,
                    evt.gravity_z,
                ];
                assert(vals@ =~= imu_fields(*evt));
                index = write_fields(buf, index, vals.as_slice());
            },
            BotEvent::Log(evt) => {
                index = write_string(buf, index, LOG);
                index = append_separator(buf, index);
                index = write_log_text(buf, index, evt);
            },
        }
        append_end(buf, index);
    }

    /// Decodes the line at the start of `buf`. Err is the position of the
    /// first byte that does not fit the format.
    pub fn parse(buf: &ProtocolBuffer) -> (r: Result<Self, usize>)
        ensures
            match decode_event(buf@) {
                Ok(e) => r matches Ok(x) && same_event(x, e),
                Err(e) => r matches Err(x) && x == e,
            },
    {
        proof {
            lemma_event_keywords();
        }
        if let Ok(next) = match_string(buf, 0, STATUS) {
            let next = match_separator(buf, next)?;
            let status = parse_status(buf, next)?;
            Ok(BotEvent::Status(status))
        } else if let Ok(next) = match_string(buf, 0, LASERS) {
            let a = match_fields_line(buf, next, LASER_COUNT)?;
            proof {
                let v = a@.take(LASER_COUNT as int);
                assert(a@ =~= v);
                let b = lasers_of(v);
                assert(b@ == v);
                assert(b =~= a);
            }
            Ok(BotEvent::Lasers(a))
        } else if let Ok(next) = match_string(buf, 0, IMU) {
            let a = match_fields_line(buf, next, 9)?;
            Ok(
                BotEvent::Imu(
                    ProtocolImuData {
                        rotation_x: a[0],
                        rotation_y: a[1],
                        rotation_z: a[2],
                        acceleration_x: a[3],
                        acceleration_y: a[4],
                        acceleration_z: a[5],
                        gravity_x: a[6],
                        gravity_y: a[7],
                        gravity_z: a[8],
                    },
                ),
            )
        } else if let Ok(next) = match_string(buf, 0, LOG) {
            let next = match_separator(buf, next)?;
            let log = parse_log(buf, next)?;
            proof {
                let t = log.text();
                assert(log.message@.take(t.len() as int) == t);
                let c = log_of(t).message;
                assert(c@.take(t.len() as int) == t);
                assert(log_of(t).text() =~= t);
            }
            Ok(BotEvent::Log(log))
        } else {
            let keywords = [STATUS, LASERS, IMU, LOG];
            assert(keywords@.map_values(|t: &str| kw(t)) =~= event_keywords());
            Err(furthest_miss_position(buf, 0, keywords.as_slice()))
        }
    }
}

/// A source of events, polled without blocking
pub trait EventReceiver {
    fn poll() -> Option<BotEvent>;
}

/// A sink of events
pub trait EventEmitter {
    fn emit(evt: BotEvent);
}

} // verus!
