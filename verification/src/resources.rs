//! The resource probe of a node built without a system probe: it refreshes
//! nothing and reports no memory.

use vstd::prelude::*;

verus! {

/// What a probe refreshes.
pub struct RefreshKind;

/// The CPU part of a refresh.
pub struct CpuRefreshKind;

/// The memory part of a refresh.
pub struct MemoryRefreshKind;

/// A resource probe that observes nothing.
pub struct System;

impl RefreshKind {
    /// A refresh of nothing.
    pub fn nothing() -> (r: RefreshKind) {
        RefreshKind
    }

    /// The same refresh; this probe has no CPU to refresh.
    pub fn with_cpu(self, _cpu: CpuRefreshKind) -> (r: RefreshKind) {
        self
    }

    /// The same refresh; this probe has no memory to refresh.
    pub fn with_memory(self, _memory: MemoryRefreshKind) -> (r: RefreshKind) {
        self
    }
}

impl CpuRefreshKind {
    /// A refresh of every CPU figure.
    pub fn everything() -> (r: CpuRefreshKind) {
        CpuRefreshKind
    }
}

impl MemoryRefreshKind {
    /// A refresh of every memory figure.
    pub fn everything() -> (r: MemoryRefreshKind) {
        MemoryRefreshKind
    }
}

impl System {
    /// A probe for the given refresh.
    pub fn new_with_specifics(_refresh: RefreshKind) -> (s: System) {
        System
    }

    /// Refreshes CPU usage: nothing to do.
    pub fn refresh_cpu_usage(&mut self) {
    }

    /// Refreshes memory figures: nothing to do.
    pub fn refresh_memory(&mut self) {
    }

    /// Available memory in bytes: none is observed.
    pub fn available_memory(&self) -> (r: u64)
        ensures
            r == 0,
    {
        0
    }

    /// Total memory in bytes: none is observed.
    pub fn total_memory(&self) -> (r: u64)
        ensures
            r == 0,
    {
        0
    }
}

} // verus!
