use racebot::log_lines::{LogLines, LOG_LENGTH};
use racebot::menu::{Command, COMMAND_COUNT};

#[test]
fn menu_entries_have_their_positions_and_labels() {
    assert_eq!(Command::len(), COMMAND_COUNT);
    let labels = ["RESET", "START", "STOP", "RESTART", "CLEAR LOG"];
    for i in 0..Command::len() {
        let c = Command::from(i);
        assert_eq!(c.index(), i);
        assert_eq!(c.text(), labels[i]);
    }
    assert_eq!(Command::from(2), Command::Stop);
}

#[test]
fn the_log_keeps_the_latest_lines() {
    let mut log = LogLines::new();
    assert_eq!(log.count(), 0);
    log.append("first");
    log.append("second");
    assert_eq!(log.count(), 2);
    assert_eq!(log.line_at(0), "first");
    assert_eq!(log.line_at(1), "second");
    for i in 0..LOG_LENGTH {
        log.append(&format!("line {}", i));
    }
    assert_eq!(log.count(), LOG_LENGTH);
    assert_eq!(log.line_at(0), "line 0");
    assert_eq!(log.line_at(LOG_LENGTH - 1), format!("line {}", LOG_LENGTH - 1));
    log.append("last");
    assert_eq!(log.count(), LOG_LENGTH);
    assert_eq!(log.line_at(0), "line 1");
    assert_eq!(log.line_at(LOG_LENGTH - 1), "last");
}
