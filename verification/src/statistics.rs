//! The kinds of player statistics, and the instants at which they are taken.
use vstd::prelude::*;

verus! {

/// A value of a player statistic.  Each kind of statistic is a copyable
/// value that can be compared for equality.
pub trait StatValue: Copy {
    /// Whether two values are the same.
    fn same_as(&self, other: &Self) -> (same: bool)
        ensures
            same == (*self == *other),
    ;
}

/// A statistic read back from the value column of a table.
pub trait FromValueColumn: Sized {
    type ValueColumnType;

    /// The statistic that a column value stands for.
    spec fn spec_from_value_column(value_column: Self::ValueColumnType) -> Self;

    fn from_value_column(value_column: Self::ValueColumnType) -> (stats: Self)
        ensures
            stats == Self::spec_from_value_column(value_column),
    ;
}

/// Number of blocks a player has broken.
#[derive(Debug, Clone, Copy, PartialEq, Eq, Structural)]
pub struct BreakCount(pub u64);

/// Number of blocks a player has built.
#[derive(Debug, Clone, Copy, PartialEq, Eq, Structural)]
pub struct BuildCount(pub u64);

/// Number of ticks a player has played.
#[derive(Debug, Clone, Copy, PartialEq, Eq, Structural)]
pub struct PlayTicks(pub u64);

/// Number of votes a player has cast.
#[derive(Debug, Clone, Copy, PartialEq, Eq, Structural)]
pub struct VoteCount(pub u64);

impl StatValue for BreakCount {
    fn same_as(&self, other: &Self) -> (same: bool) {
        self.0 == other.0
    }
}

impl StatValue for BuildCount {
    fn same_as(&self, other: &Self) -> (same: bool) {
        self.0 == other.0
    }
}

impl StatValue for PlayTicks {
    fn same_as(&self, other: &Self) -> (same: bool) {
        self.0 == other.0
    }
}

impl StatValue for VoteCount {
    fn same_as(&self, other: &Self) -> (same: bool) {
        self.0 == other.0
    }
}

impl FromValueColumn for BreakCount {
    type ValueColumnType = u64;

    open spec fn spec_from_value_column(value_column: u64) -> Self {
        BreakCount(value_column)
    }

    fn from_value_column(value_column: u64) -> (stats: Self) {
        BreakCount(value_column)
    }
}

impl FromValueColumn for BuildCount {
    type ValueColumnType = u64;

    open spec fn spec_from_value_column(value_column: u64) -> Self {
        BuildCount(value_column)
    }

    fn from_value_column(value_column: u64) -> (stats: Self) {
        BuildCount(value_column)
    }
}

impl FromValueColumn for PlayTicks {
    type ValueColumnType = u64;

    open spec fn spec_from_value_column(value_column: u64) -> Self {
        PlayTicks(value_column)
    }

    fn from_value_column(value_column: u64) -> (stats: Self) {
        PlayTicks(value_column)
    }
}

impl FromValueColumn for VoteCount {
    type ValueColumnType = u64;

    open spec fn spec_from_value_column(value_column: u64) -> Self {
        VoteCount(value_column)
    }

    fn from_value_column(value_column: u64) -> (stats: Self) {
        VoteCount(value_column)
    }
}

/// An instant in UTC, as nanoseconds since the Unix epoch.  Instants are
/// ordered by this number.
#[derive(Debug, Clone, Copy, PartialEq, Eq, Structural, Hash)]
pub struct UtcTimestamp(pub i128);

/// A value and the instant it belongs to.
pub struct TimeStamped<T> {
    pub data: T,
    pub utc_timestamp: UtcTimestamp,
}

} // verus!
