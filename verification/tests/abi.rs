//! Tests of the I/O-facing enums and their wire values.

use imageflow::abi::{CleanupWith, Direction, IoMode, Lifetime};

#[test]
fn io_mode_wire_values() {
    assert_eq!(IoMode::NoIo.value(), 0);
    assert_eq!(IoMode::ReadSequential.value(), 1);
    assert_eq!(IoMode::WriteSequential.value(), 2);
    assert_eq!(IoMode::ReadSeekable.value(), 5);
    assert_eq!(IoMode::WriteSeekable.value(), 6);
    assert_eq!(IoMode::ReadWriteSeekable.value(), 15);
}

#[test]
fn io_mode_round_trips() {
    for m in [
        IoMode::NoIo,
        IoMode::ReadSequential,
        IoMode::WriteSequential,
        IoMode::ReadSeekable,
        IoMode::WriteSeekable,
        IoMode::ReadWriteSeekable,
    ] {
        assert_eq!(IoMode::from_value(m.value()), Some(m));
    }
    assert_eq!(IoMode::from_value(3), None);
    assert_eq!(IoMode::from_value(7), None);
}

#[test]
fn direction_and_lifetime_values() {
    assert_eq!(Direction::Out.value(), 8);
    assert_eq!(Direction::In.value(), 4);
    assert_eq!(Direction::from_value(4), Some(Direction::In));
    assert_eq!(Direction::from_value(8), Some(Direction::Out));
    assert_eq!(Direction::from_value(0), None);
    assert_eq!(CleanupWith::Context.value(), 0);
    assert_eq!(CleanupWith::FirstJob.value(), 1);
    assert_eq!(Lifetime::OutlivesFunctionCall.value(), 0);
    assert_eq!(Lifetime::OutlivesContext.value(), 1);
}
