//! The bounds of a cache, the table it is made for, and what can be wrong
//! with either.

use std::time::Duration;
use vstd::prelude::*;

verus! {

/// The whole seconds of a duration.
pub uninterp spec fn duration_secs(d: Duration) -> u64;

/// The nanoseconds of a duration beyond its whole seconds.
pub uninterp spec fn duration_subsec_nanos(d: Duration) -> u32;

/// `Duration::as_secs`: the number of whole seconds that the duration
/// contains.
pub assume_specification[ Duration::as_secs ](d: &Duration) -> (res: u64)
    ensures
        res == duration_secs(*d),
;

/// `Duration::subsec_nanos`: the part of the duration beyond its whole
/// seconds, in nanoseconds, which is less than a second.
pub assume_specification[ Duration::subsec_nanos ](d: &Duration) -> (res: u32)
    ensures
        res == duration_subsec_nanos(*d),
        res < 1_000_000_000,
;

/// `Duration::new`: the duration of the given whole seconds and
/// nanoseconds, where the nanoseconds are less than a second and nothing
/// is carried.
pub assume_specification[ Duration::new ](secs: u64, nanos: u32) -> (res: Duration)
    requires
        nanos < 1_000_000_000,
    ensures
        duration_secs(res) == secs,
        duration_subsec_nanos(res) == nanos,
;

/// The type of a field column.
#[derive(Debug, Clone, Copy, PartialEq, Eq)]
pub enum FieldType {
    Float,
    Integer,
    UInteger,
    String,
    Boolean,
}

/// The type of a column.
#[derive(Debug, Clone, Copy, PartialEq, Eq)]
pub enum ColumnType {
    Tag,
    Field(FieldType),
    Timestamp,
}

/// Whether a column of this type holds strings: a tag or a string field.
pub open spec fn holds_text(ty: ColumnType) -> bool {
    ty == ColumnType::Tag || ty == ColumnType::Field(FieldType::String)
}

/// A column of a table.
#[derive(Debug, Clone)]
pub struct ColumnDefinition {
    pub id: u32,
    pub name: String,
    pub data_type: ColumnType,
}

/// The columns of a table.
#[derive(Debug, Clone)]
pub struct TableDefinition {
    pub columns: Vec<ColumnDefinition>,
}

/// Why a cache cannot be made.
#[derive(Debug, Clone, Copy, PartialEq, Eq)]
pub enum ConfigError {
    /// No column was selected.
    EmptyColumns,
    /// The table has no column of this identifier.
    InvalidColumnId(u32),
    /// A selected column is neither a tag nor a string field.
    UnsupportedColumnType(ColumnType),
    /// The cache would hold nothing.
    ZeroCardinality,
}

/// How the configurations of two caches differ.
#[derive(Debug, Clone, PartialEq, Eq)]
pub enum ConfigMismatch {
    MaxCardinality { expected: usize, got: usize },
    /// The ages differ; they are given in whole seconds.
    MaxAge { expected: u64, got: u64 },
    ColumnIds { expected: Vec<u32>, got: Vec<u32> },
}

/// The greatest number of value combinations that a cache keeps when it is
/// pruned; never zero.
#[derive(Debug, Clone, Copy)]
pub struct MaxCardinality {
    size: usize,
}

impl View for MaxCardinality {
    type V = usize;

    closed spec fn view(&self) -> usize {
        self.size
    }
}

impl MaxCardinality {
    #[verifier::type_invariant]
    spec fn positive(self) -> bool {
        self.size > 0
    }

    /// A bound of `value`, which must not be zero.
    pub fn try_from(value: usize) -> (res: Result<MaxCardinality, ConfigError>)
        ensures
            value == 0 ==> res == Err::<MaxCardinality, ConfigError>(ConfigError::ZeroCardinality),
            value != 0 ==> res is Ok && res.unwrap()@ == value,
    {
        if value == 0 {
            Err(ConfigError::ZeroCardinality)
        } else {
            Ok(MaxCardinality { size: value })
        }
    }

    /// The bound as a number.
    pub fn get(self) -> (res: usize)
        ensures
            res == self@,
            res > 0,
    {
        proof {
            use_type_invariant(self);
        }
        self.size
    }
}

impl From<MaxCardinality> for usize {
    fn from(value: MaxCardinality) -> (res: usize) {
        value.size
    }
}

impl vstd::std_specs::convert::FromSpecImpl<MaxCardinality> for usize {
    open spec fn obeys_from_spec() -> bool {
        true
    }

    open spec fn from_spec(value: MaxCardinality) -> usize {
        value@
    }
}

impl Default for MaxCardinality {
    fn default() -> (res: MaxCardinality)
        ensures
            res@ == 100_000,
    {
        MaxCardinality { size: 100_000 }
    }
}

/// The age beyond which an entry that was not seen again is expired, in
/// whole seconds and the nanoseconds of the second begun.
#[derive(Debug, Clone, Copy)]
pub struct MaxAge {
    secs: u64,
    subsec_nanos: u32,
}

impl From<Duration> for MaxAge {
    fn from(duration: Duration) -> (res: MaxAge) {
        MaxAge { secs: duration.as_secs(), subsec_nanos: duration.subsec_nanos() }
    }
}

impl vstd::std_specs::convert::FromSpecImpl<Duration> for MaxAge {
    open spec fn obeys_from_spec() -> bool {
        true
    }

    closed spec fn from_spec(duration: Duration) -> MaxAge {
        MaxAge { secs: duration_secs(duration), subsec_nanos: duration_subsec_nanos(duration) }
    }
}

impl MaxAge {
    #[verifier::type_invariant]
    spec fn within_second(self) -> bool {
        self.subsec_nanos < 1_000_000_000
    }

    /// The age made from a duration has its seconds and nanoseconds.
    pub proof fn lemma_from(duration: Duration)
        ensures
            <MaxAge as vstd::std_specs::convert::FromSpec<Duration>>::from_spec(duration).seconds()
                == duration_secs(duration),
            <MaxAge as vstd::std_specs::convert::FromSpec<Duration>>::from_spec(duration).subsec()
                == duration_subsec_nanos(duration),
    {
    }

    /// The age as a duration.
    pub fn to_duration(self) -> (res: Duration)
        ensures
            duration_secs(res) == self.seconds(),
            duration_subsec_nanos(res) == self.subsec(),
    {
        proof {
            use_type_invariant(self);
        }
        Duration::new(self.secs, self.subsec_nanos)
    }

    /// The whole seconds of the age.
    pub closed spec fn seconds(self) -> u64 {
        self.secs
    }

    /// The nanoseconds beyond the whole seconds.
    pub closed spec fn subsec(self) -> u32 {
        self.subsec_nanos
    }

    /// The age in nanoseconds.
    pub open spec fn nanos(self) -> int {
        self.seconds() * 1_000_000_000 + self.subsec()
    }

    /// An age of `secs` seconds and `subsec_nanos` nanoseconds; a full
    /// second or more of nanoseconds is carried into the seconds, which
    /// saturate.
    pub fn new(secs: u64, subsec_nanos: u32) -> (res: MaxAge)
        ensures
            res.subsec() == subsec_nanos % 1_000_000_000,
            res.seconds() == if secs + subsec_nanos / 1_000_000_000 <= u64::MAX {
                secs + subsec_nanos / 1_000_000_000
            } else {
                u64::MAX as int
            },
    {
        let carry: u64 = (subsec_nanos / 1_000_000_000) as u64;
        let rest: u32 = subsec_nanos % 1_000_000_000;
        if secs > u64::MAX - carry {
            MaxAge { secs: u64::MAX, subsec_nanos: rest }
        } else {
            MaxAge { secs: secs + carry, subsec_nanos: rest }
        }
    }

    /// An age of whole seconds.
    pub fn from_secs(secs: u64) -> (res: MaxAge)
        ensures
            res.seconds() == secs,
            res.subsec() == 0,
    {
        MaxAge { secs, subsec_nanos: 0 }
    }

    /// The whole seconds of the age.
    pub fn as_seconds(&self) -> (res: u64)
        ensures
            res == self.seconds(),
    {
        self.secs
    }

    /// The nanoseconds beyond the whole seconds.
    pub fn subsec_nanos(&self) -> (res: u32)
        ensures
            res == self.subsec(),
            res < 1_000_000_000,
    {
        proof {
            use_type_invariant(self);
        }
        self.subsec_nanos
    }

    /// The age in nanoseconds.
    pub fn as_nanos(&self) -> (res: u128)
        ensures
            res == self.nanos(),
    {
        proof {
            use_type_invariant(self);
        }
        let secs: u128 = self.secs as u128;
        let sub: u128 = self.subsec_nanos as u128;
        secs * 1_000_000_000 + sub
    }

    /// Two ages of the same seconds and nanoseconds are the same age.
    pub proof fn lemma_same(self, other: MaxAge)
        ensures
            (self.seconds() == other.seconds() && self.subsec() == other.subsec()) <==> self == other,
    {
    }

    /// Whether both ages are the same.
    pub fn same(&self, other: &MaxAge) -> (res: bool)
        ensures
            res == (self.seconds() == other.seconds() && self.subsec() == other.subsec()),
    {
        self.secs == other.secs && self.subsec_nanos == other.subsec_nanos
    }
}

impl Default for MaxAge {
    fn default() -> (res: MaxAge)
        ensures
            res.seconds() == 86_400,
            res.subsec() == 0,
    {
        MaxAge { secs: 86_400, subsec_nanos: 0 }
    }
}

} // verus!
