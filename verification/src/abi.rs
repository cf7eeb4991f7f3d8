//! Enums of the public API surface that describe I/O objects handed to a
//! job: their access mode, direction, cleanup policy, and the lifetime a
//! caller promises for a buffer. Their wire values follow the flag scheme
//! of the external interface (read = 1, write = 2, seek = 4, out = 8).

use vstd::prelude::*;

verus! {

/// What is possible with the IO object.
#[derive(Clone, Copy, PartialEq, Eq, Structural, Debug)]
pub enum IoMode {
    NoIo,
    ReadSequential,
    WriteSequential,
    ReadSeekable,
    WriteSeekable,
    ReadWriteSeekable,
}

/// The wire value of an `IoMode`: read = 1, write = 2, seek = 4.
pub open spec fn io_mode_value(m: IoMode) -> int {
    match m {
        IoMode::NoIo => 0,
        IoMode::ReadSequential => 1,
        IoMode::WriteSequential => 2,
        IoMode::ReadSeekable => 5,
        IoMode::WriteSeekable => 6,
        IoMode::ReadWriteSeekable => 15,
    }
}

impl IoMode {
    /// The wire value of this mode.
    pub fn value(self) -> (v: i32)
        ensures
            v == io_mode_value(self),
    {
        match self {
            IoMode::NoIo => 0,
            IoMode::ReadSequential => 1,
            IoMode::WriteSequential => 2,
            IoMode::ReadSeekable => 5,
            IoMode::WriteSeekable => 6,
            IoMode::ReadWriteSeekable => 15,
        }
    }

    /// The mode a wire value denotes, if any.
    pub fn from_value(v: i32) -> (r: Option<IoMode>)
        ensures
            match r {
                Some(m) => io_mode_value(m) == v,
                None => forall|m: IoMode| io_mode_value(m) != v,
            },
    {
        match v {
            0 => Some(IoMode::NoIo),
            1 => Some(IoMode::ReadSequential),
            2 => Some(IoMode::WriteSequential),
            5 => Some(IoMode::ReadSeekable),
            6 => Some(IoMode::WriteSeekable),
            15 => Some(IoMode::ReadWriteSeekable),
            _ => Option::None,
        }
    }
}

/// Input or output?
#[derive(Clone, Copy, PartialEq, Eq, Structural, Debug)]
pub enum Direction {
    Out,
    In,
}

/// The wire value of a `Direction`.
pub open spec fn direction_value(d: Direction) -> int {
    match d {
        Direction::Out => 8,
        Direction::In => 4,
    }
}

impl Direction {
    /// The wire value of this direction.
    pub fn value(self) -> (v: i32)
        ensures
            v == direction_value(self),
    {
        match self {
            Direction::Out => 8,
            Direction::In => 4,
        }
    }

    /// The direction a wire value denotes, if any.
    pub fn from_value(v: i32) -> (r: Option<Direction>)
        ensures
            match r {
                Some(d) => direction_value(d) == v,
                None => forall|d: Direction| direction_value(d) != v,
            },
    {
        match v {
            8 => Some(Direction::Out),
            4 => Some(Direction::In),
            _ => Option::None,
        }
    }
}

/// When a resource should be closed, freed, or cleaned up.
#[derive(Clone, Copy, PartialEq, Eq, Structural, Debug)]
pub enum CleanupWith {
    /// When the context is destroyed.
    Context,
    /// When the first job that the item is associated with is destroyed.
    FirstJob,
}

/// The wire value of a `CleanupWith`.
pub open spec fn cleanup_with_value(c: CleanupWith) -> int {
    match c {
        CleanupWith::Context => 0,
        CleanupWith::FirstJob => 1,
    }
}

impl CleanupWith {
    /// The wire value of this cleanup policy.
    pub fn value(self) -> (v: i32)
        ensures
            v == cleanup_with_value(self),
    {
        match self {
            CleanupWith::Context => 0,
            CleanupWith::FirstJob => 1,
        }
    }
}

/// How long a provided pointer or buffer will remain valid. Callers must
/// keep the memory fixed until this contract expires.
#[derive(Clone, Copy, PartialEq, Eq, Structural, Debug)]
pub enum Lifetime {
    /// The pointer outlives the function call.
    OutlivesFunctionCall,
    /// The pointer outlives the context.
    OutlivesContext,
}

/// The wire value of a `Lifetime`.
pub open spec fn lifetime_value(l: Lifetime) -> int {
    match l {
        Lifetime::OutlivesFunctionCall => 0,
        Lifetime::OutlivesContext => 1,
    }
}

impl Lifetime {
    /// The wire value of this lifetime promise.
    pub fn value(self) -> (v: i32)
        ensures
            v == lifetime_value(self),
    {
        match self {
            Lifetime::OutlivesFunctionCall => 0,
            Lifetime::OutlivesContext => 1,
        }
    }
}

} // verus!
