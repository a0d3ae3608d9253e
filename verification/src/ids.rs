//! Identifier newtypes, logical time and the digest value type.

use vstd::prelude::*;

verus! {

/// Authority term issued by the lease quorum; term zero is never issued.
#[derive(Clone, Copy, Debug, PartialEq, Eq, Structural, PartialOrd, Ord, Hash)]
pub struct LeaseTerm(pub u64);

impl LeaseTerm {

    /// Builds the identifier; zero is reserved and refused.
    pub fn new(raw: u64) -> (r: Option<LeaseTerm>)
        ensures
            r == (if raw == 0 { None } else { Some(LeaseTerm(raw)) }),
    {
        if raw == 0 {
            None
        } else {
            Some(LeaseTerm(raw))
        }
    }


    /// The first value issued.
    pub fn initial() -> (r: LeaseTerm)
        ensures
            r.0 == 1,
    {
        LeaseTerm(1)
    }


    pub fn raw(&self) -> (r: u64)
        ensures
            r == self.0,
    {
        self.0
    }
}


/// Globally unique identity of one causal event.
#[derive(Clone, Copy, Debug, PartialEq, Eq, Structural, PartialOrd, Ord, Hash)]
pub struct EventId(pub u64);

impl EventId {

    /// Builds the identifier; zero is reserved and refused.
    pub fn new(raw: u64) -> (r: Option<EventId>)
        ensures
            r == (if raw == 0 { None } else { Some(EventId(raw)) }),
    {
        if raw == 0 {
            None
        } else {
            Some(EventId(raw))
        }
    }


    pub fn raw(&self) -> (r: u64)
        ensures
            r == self.0,
    {
        self.0
    }
}


/// Identity of one producer stream.
#[derive(Clone, Copy, Debug, PartialEq, Eq, Structural, PartialOrd, Ord, Hash)]
pub struct StreamId(pub u64);

impl StreamId {

    /// Builds the identifier; zero is reserved and refused.
    pub fn new(raw: u64) -> (r: Option<StreamId>)
        ensures
            r == (if raw == 0 { None } else { Some(StreamId(raw)) }),
    {
        if raw == 0 {
            None
        } else {
            Some(StreamId(raw))
        }
    }


    pub fn raw(&self) -> (r: u64)
        ensures
            r == self.0,
    {
        self.0
    }
}


/// Identity of one data-plane route.
#[derive(Clone, Copy, Debug, PartialEq, Eq, Structural, PartialOrd, Ord, Hash)]
pub struct RouteId(pub u64);

impl RouteId {

    /// Builds the identifier; zero is reserved and refused.
    pub fn new(raw: u64) -> (r: Option<RouteId>)
        ensures
            r == (if raw == 0 { None } else { Some(RouteId(raw)) }),
    {
        if raw == 0 {
            None
        } else {
            Some(RouteId(raw))
        }
    }


    pub fn raw(&self) -> (r: u64)
        ensures
            r == self.0,
    {
        self.0
    }
}


/// Identity of one shard of a brain.
#[derive(Clone, Copy, Debug, PartialEq, Eq, Structural, PartialOrd, Ord, Hash)]
pub struct ShardId(pub u64);

impl ShardId {

    /// Builds the identifier; zero is reserved and refused.
    pub fn new(raw: u64) -> (r: Option<ShardId>)
        ensures
            r == (if raw == 0 { None } else { Some(ShardId(raw)) }),
    {
        if raw == 0 {
            None
        } else {
            Some(ShardId(raw))
        }
    }


    pub fn raw(&self) -> (r: u64)
        ensures
            r == self.0,
    {
        self.0
    }
}


/// Identity of one simulated brain.
#[derive(Clone, Copy, Debug, PartialEq, Eq, Structural, PartialOrd, Ord, Hash)]
pub struct BrainId(pub u64);

impl BrainId {

    /// Builds the identifier; zero is reserved and refused.
    pub fn new(raw: u64) -> (r: Option<BrainId>)
        ensures
            r == (if raw == 0 { None } else { Some(BrainId(raw)) }),
    {
        if raw == 0 {
            None
        } else {
            Some(BrainId(raw))
        }
    }


    pub fn raw(&self) -> (r: u64)
        ensures
            r == self.0,
    {
        self.0
    }
}


/// Identity of one neuron.
#[derive(Clone, Copy, Debug, PartialEq, Eq, Structural, PartialOrd, Ord, Hash)]
pub struct NeuronId(pub u64);

impl NeuronId {

    /// Builds the identifier; zero is reserved and refused.
    pub fn new(raw: u64) -> (r: Option<NeuronId>)
        ensures
            r == (if raw == 0 { None } else { Some(NeuronId(raw)) }),
    {
        if raw == 0 {
            None
        } else {
            Some(NeuronId(raw))
        }
    }


    pub fn raw(&self) -> (r: u64)
        ensures
            r == self.0,
    {
        self.0
    }
}


/// Generation of the partition map a shard belongs to.
#[derive(Clone, Copy, Debug, PartialEq, Eq, Structural, PartialOrd, Ord, Hash)]
pub struct PartitionGeneration(pub u64);

impl PartitionGeneration {

    pub fn new(raw: u64) -> (r: PartitionGeneration)
        ensures
            r.0 == raw,
    {
        PartitionGeneration(raw)
    }


    /// The first value issued.
    pub fn initial() -> (r: PartitionGeneration)
        ensures
            r.0 == 1,
    {
        PartitionGeneration(1)
    }


    pub fn raw(&self) -> (r: u64)
        ensures
            r == self.0,
    {
        self.0
    }
}


/// Generation of the network topology.
#[derive(Clone, Copy, Debug, PartialEq, Eq, Structural, PartialOrd, Ord, Hash)]
pub struct TopologyGeneration(pub u64);

impl TopologyGeneration {

    pub fn new(raw: u64) -> (r: TopologyGeneration)
        ensures
            r.0 == raw,
    {
        TopologyGeneration(raw)
    }


    /// The first value issued.
    pub fn initial() -> (r: TopologyGeneration)
        ensures
            r.0 == 1,
    {
        TopologyGeneration(1)
    }


    pub fn raw(&self) -> (r: u64)
        ensures
            r == self.0,
    {
        self.0
    }
}


/// Version of the persisted document schemas.
#[derive(Clone, Copy, Debug, PartialEq, Eq, Structural, PartialOrd, Ord, Hash)]
pub struct SchemaVersion(pub u32);

impl SchemaVersion {
    /// The schema this library writes and accepts.
    pub fn current() -> (r: SchemaVersion)
        ensures
            r.0 == 1,
    {
        SchemaVersion(1)
    }
}

/// Logical simulation time: a tick and a microstep within the tick.
#[derive(Clone, Copy, Debug, PartialEq, Eq, Structural, PartialOrd, Ord, Hash)]
pub struct LogicalTag {
    pub tick: u64,
    pub microstep: u32,
}

/// Lexicographic order of logical tags: by tick, then by microstep.
pub open spec fn tag_lt(a: LogicalTag, b: LogicalTag) -> bool {
    a.tick < b.tick || (a.tick == b.tick && a.microstep < b.microstep)
}

impl LogicalTag {
    pub fn new(tick: u64, microstep: u32) -> (r: LogicalTag)
        ensures
            r.tick == tick,
            r.microstep == microstep,
    {
        LogicalTag { tick, microstep }
    }

    /// The origin of logical time.
    pub fn zero() -> (r: LogicalTag)
        ensures
            r.tick == 0,
            r.microstep == 0,
    {
        LogicalTag { tick: 0, microstep: 0 }
    }

    /// Whether `self` is strictly earlier than `other`.
    pub fn precedes(&self, other: &LogicalTag) -> (r: bool)
        ensures
            r == tag_lt(*self, *other),
    {
        self.tick < other.tick || (self.tick == other.tick && self.microstep < other.microstep)
    }
}

/// A 128-bit state digest, held as its big-endian high and low halves.
#[derive(Clone, Copy, Debug, PartialEq, Eq, Structural, PartialOrd, Ord, Hash)]
pub struct StateDigest {
    pub high: u64,
    pub low: u64,
}

impl StateDigest {
    /// The all-zero digest, used as the genesis of hash chains.
    pub fn zero() -> (r: StateDigest)
        ensures
            r.high == 0,
            r.low == 0,
    {
        StateDigest { high: 0, low: 0 }
    }
}

} // verus!
