//! Installed-package entries: each records one (name, version) ever
//! installed, with its live reference count and lifecycle status.

use vstd::prelude::*;
use crate::version::VersionWrapper;
use crate::dependency::Dependency;

verus! {

/// The lifecycle state of an installed entry. `Removed` is terminal:
/// a removed entry is treated as absent and is never revived.
#[derive(Clone, Copy, Debug, PartialEq, Eq, Structural)]
pub enum SoftwareStatus {
    Available,
    Unavailable,
    Removed,
}

/// The mutable part of an entry: its reference count and status.
#[derive(Clone, Copy, Debug, PartialEq, Eq, Structural)]
pub struct InnerSoftware {
    pub reference_count: u32,
    pub status: SoftwareStatus,
}

impl InnerSoftware {
    pub fn reference_count(&self) -> (r: u32)
        ensures
            r == self.reference_count,
    {
        self.reference_count
    }

    /// Adds one reference to this entry.
    pub fn add(&mut self)
        requires
            old(self).reference_count < u32::MAX,
        ensures
            final(self).reference_count == old(self).reference_count + 1,
            final(self).status == old(self).status,
    {
        self.reference_count = self.reference_count + 1;
    }

    /// Marks this entry removed.
    pub fn remove(&mut self)
        ensures
            final(self).reference_count == old(self).reference_count,
            final(self).status == SoftwareStatus::Removed,
    {
        self.status = SoftwareStatus::Removed;
    }

    /// Drops one reference, saturating at zero, and returns the new count.
    pub fn descrease(&mut self) -> (r: u32)
        ensures
            final(self).reference_count == if old(self).reference_count > 0 {
                (old(self).reference_count - 1) as u32
            } else {
                0u32
            },
            final(self).status == old(self).status,
            r == final(self).reference_count,
    {
        if self.reference_count > 0 {
            self.reference_count = self.reference_count - 1;
            self.reference_count
        } else {
            0
        }
    }
}

/// One installed-registry entry: the package identity, its direct
/// dependencies, and its mutable reference count and status.
#[derive(Debug)]
pub struct Software {
    pub inner: InnerSoftware,
    pub archive: String,
    pub version: VersionWrapper,
    pub dependencies: Vec<Dependency>,
}

/// The mathematical content of one entry.
pub struct SoftwareView {
    pub archive: Seq<char>,
    pub version: VersionWrapper,
    pub dependencies: Seq<(Seq<char>, VersionWrapper)>,
    pub reference_count: u32,
    pub status: SoftwareStatus,
}

impl SoftwareView {
    /// The registry identity of this entry.
    pub open spec fn key(self) -> (Seq<char>, VersionWrapper) {
        (self.archive, self.version)
    }

    /// A live entry still occupies its (name, version) slot.
    pub open spec fn is_live(self) -> bool {
        self.status != SoftwareStatus::Removed
    }
}

impl View for Software {
    type V = SoftwareView;

    open spec fn view(&self) -> SoftwareView {
        SoftwareView {
            archive: self.archive@,
            version: self.version,
            dependencies: self.dependencies@.map_values(|d: Dependency| d@),
            reference_count: self.inner.reference_count,
            status: self.inner.status,
        }
    }
}

impl Clone for Software {
    fn clone(&self) -> (r: Self)
        ensures
            r@ == self@,
    {
        let mut deps: Vec<Dependency> = Vec::new();
        let mut k: usize = 0;
        while k < self.dependencies.len()
            invariant
                0 <= k <= self.dependencies@.len(),
                deps@.len() == k,
                forall|j: int| 0 <= j < k ==> deps@[j] == self.dependencies@[j],
            decreases self.dependencies@.len() - k,
        {
            deps.push(self.dependencies[k].clone());
            k = k + 1;
        }
        proof {
            assert(deps@ =~= self.dependencies@);
        }
        let r = Software {
            inner: self.inner,
            archive: self.archive.clone(),
            version: self.version,
            dependencies: deps,
        };
        proof {
            assert(r@.dependencies =~= self@.dependencies);
        }
        r
    }
}

impl Software {
    pub fn new(
        archive: String,
        version: VersionWrapper,
        deps: Vec<Dependency>,
        count: u32,
        status: SoftwareStatus,
    ) -> (r: Software)
        ensures
            r@.archive == archive@,
            r@.version == version,
            r@.dependencies == deps@.map_values(|d: Dependency| d@),
            r@.reference_count == count,
            r@.status == status,
    {
        Software {
            inner: InnerSoftware { reference_count: count, status },
            archive,
            version,
            dependencies: deps,
        }
    }

    /// The mutable inner state of this entry.
    pub fn inner(&self) -> (r: &InnerSoftware)
        ensures
            *r == self.inner,
    {
        &self.inner
    }
}

} // verus!
