//! The version counter kept beside every adjacency record.

use vstd::prelude::*;
use crate::Version;

verus! {

/// A version counter. It only ever changes through `set`, `inc` and
/// `set_if_larger`; `inc` wraps at the top of the range.
#[derive(Debug, Clone, Copy)]
pub struct AtomicVersion {
    pub value: Version,
}

impl View for AtomicVersion {
    type V = Version;

    open spec fn view(&self) -> Version {
        self.value
    }
}

/// The successor of a version, wrapping to zero after the largest one.
pub open spec fn next_version(v: Version) -> Version {
    if v == u32::MAX {
        0
    } else {
        (v + 1) as u32
    }
}

/// The larger of two versions.
pub open spec fn max_version(a: Version, b: Version) -> Version {
    if a < b {
        b
    } else {
        a
    }
}

impl AtomicVersion {
    /// A counter at zero.
    pub fn new() -> (r: Self)
        ensures
            r@ == 0,
    {
        AtomicVersion { value: 0 }
    }

    /// A counter at `version`.
    pub fn from_version(version: Version) -> (r: Self)
        ensures
            r@ == version,
    {
        AtomicVersion { value: version }
    }

    /// The current value.
    pub fn get(&self) -> (v: Version)
        ensures
            v == self@,
    {
        self.value
    }

    /// Overwrites the value.
    pub fn set(&mut self, version: Version)
        ensures
            final(self)@ == version,
    {
        self.value = version;
    }

    /// Advances the value by one, wrapping around.
    pub fn inc(&mut self)
        ensures
            final(self)@ == next_version(old(self)@),
    {
        self.value = self.value.wrapping_add(1);
    }

    /// Raises the value to `version` unless it is already at least that.
    pub fn set_if_larger(&mut self, version: Version)
        ensures
            final(self)@ == max_version(old(self)@, version),
    {
        if self.get() < version {
            self.set(version);
        }
    }
}

impl From<Version> for AtomicVersion {
    fn from(version: Version) -> (r: Self) {
        AtomicVersion { value: version }
    }
}

impl vstd::std_specs::convert::FromSpecImpl<Version> for AtomicVersion {
    open spec fn obeys_from_spec() -> bool {
        true
    }

    open spec fn from_spec(version: Version) -> Self {
        AtomicVersion { value: version }
    }
}

} // verus!
