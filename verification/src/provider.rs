//! The package information source, held as data: for every known
//! (name, version) it supplies the full package description and the direct
//! dependency list. The callers that talk to the network fill one of these
//! from the remote catalogue and hand it to the resolver.

use vstd::prelude::*;
use crate::version::{VersionWrapper, version_le};
use crate::dependency::{Dependency, Package};

verus! {

/// One record of the information source.
#[derive(Debug)]
pub struct ProviderEntry {
    pub package: Package,
    pub depends: Vec<Dependency>,
}

/// The catalogue of package information available to a resolution call.
#[derive(Debug)]
pub struct DependencyProvider {
    pub entries: Vec<ProviderEntry>,
}

impl DependencyProvider {
    /// No two records describe the same (name, version).
    pub open spec fn wf(&self) -> bool {
        forall|i: int, j: int|
            0 <= i < self.entries@.len() && 0 <= j < self.entries@.len() && (
            #[trigger] self.entries@[i].package.key()) == (
            #[trigger] self.entries@[j].package.key()) ==> i == j
    }

    /// The catalogue knows this (name, version).
    pub open spec fn spec_contains(&self, k: (Seq<char>, VersionWrapper)) -> bool {
        exists|i: int|
            0 <= i < self.entries@.len() && (#[trigger] self.entries@[i].package.key()) == k
    }

    /// The index of the record for `k`.
    pub open spec fn entry_index_of(&self, k: (Seq<char>, VersionWrapper)) -> int {
        choose|i: int|
            0 <= i < self.entries@.len() && (#[trigger] self.entries@[i].package.key()) == k
    }

    /// The direct dependency keys of the package `k`.
    pub open spec fn deps_of(&self, k: (Seq<char>, VersionWrapper)) -> Seq<
        (Seq<char>, VersionWrapper),
    > {
        self.entries@[self.entry_index_of(k)].depends@.map_values(|d: Dependency| d@)
    }

    /// The full description of the package `k`.
    pub open spec fn package_of(&self, k: (Seq<char>, VersionWrapper)) -> Package {
        self.entries@[self.entry_index_of(k)].package
    }

    /// The record that `entry_index_of` picks for a known key indeed
    /// carries that key.
    pub proof fn lemma_package_of_key(&self, k: (Seq<char>, VersionWrapper))
        requires
            self.spec_contains(k),
        ensures
            self.package_of(k).key() == k,
            0 <= self.entry_index_of(k) < self.entries@.len(),
    {
        let w = self.entry_index_of(k);
        assert(0 <= w < self.entries@.len() && self.entries@[w].package.key() == k);
    }

    pub fn new() -> (r: DependencyProvider)
        ensures
            r.entries@.len() == 0,
            r.wf(),
    {
        DependencyProvider { entries: Vec::new() }
    }

    /// Records one package with its direct dependency list; a (name,
    /// version) already recorded is left as it was.
    pub fn insert(&mut self, package: Package, depends: Vec<Dependency>) -> (r: bool)
        requires
            old(self).wf(),
        ensures
            final(self).wf(),
            r == !old(self).spec_contains(package.key()),
            final(self).spec_contains(package.key()),
            r ==> final(self).entries@ == old(self).entries@.push(
                ProviderEntry { package, depends },
            ),
            !r ==> final(self).entries@ == old(self).entries@,
    {
        let key_dep = package.dependency();
        if self.contains_key(&key_dep) {
            return false;
        }
        let ghost pre = self.entries@;
        let ghost k = package.key();
        self.entries.push(ProviderEntry { package, depends });
        proof {
            assert(self.entries@[pre.len() as int].package.key() == k);
            assert(self.spec_contains(k));
            assert forall|i: int, j: int|
                0 <= i < self.entries@.len() && 0 <= j < self.entries@.len() && (
                #[trigger] self.entries@[i].package.key()) == (
                #[trigger] self.entries@[j].package.key()) implies i == j by {
                if i < pre.len() {
                    assert(self.entries@[i] == pre[i]);
                }
                if j < pre.len() {
                    assert(self.entries@[j] == pre[j]);
                }
                if i != j {
                    if i == pre.len() {
                        assert(pre[j].package.key() == k);
                        assert(old(self).spec_contains(k));
                    } else if j == pre.len() {
                        assert(pre[i].package.key() == k);
                        assert(old(self).spec_contains(k));
                    }
                }
            }
        }
        true
    }

    /// Whether the catalogue knows the (name, version) of `d`.
    pub fn contains_key(&self, d: &Dependency) -> (r: bool)
        ensures
            r == self.spec_contains(d@),
    {
        let mut i: usize = 0;
        while i < self.entries.len()
            invariant
                0 <= i <= self.entries@.len(),
                forall|j: int| 0 <= j < i ==> (#[trigger] self.entries@[j].package.key()) != d@,
            decreases self.entries@.len() - i,
        {
            let p = &self.entries[i].package;
            if p.archive == d.archive && p.version_wrapper == d.version_wrapper {
                assert(self.entries@[i as int].package.key() == d@);
                return true;
            }
            proof {
                assert(self.entries@[i as int].package.key() != d@);
            }
            i = i + 1;
        }
        false
    }

    /// The direct dependency list of `d`, copied out of the catalogue.
    pub fn get_depends(&self, d: &Dependency) -> (r: Option<Vec<Dependency>>)
        requires
            self.wf(),
        ensures
            match r {
                Some(v) => self.spec_contains(d@) && v@.map_values(|x: Dependency| x@)
                    == self.deps_of(d@),
                None => !self.spec_contains(d@),
            },
    {
        let mut i: usize = 0;
        while i < self.entries.len()
            invariant
                0 <= i <= self.entries@.len(),
                self.wf(),
                forall|j: int| 0 <= j < i ==> (#[trigger] self.entries@[j].package.key()) != d@,
            decreases self.entries@.len() - i,
        {
            let p = &self.entries[i].package;
            if p.archive == d.archive && p.version_wrapper == d.version_wrapper {
                proof {
                    assert(self.entries@[i as int].package.key() == d@);
                    assert(self.spec_contains(d@));
                    let w = self.entry_index_of(d@);
                    assert(0 <= w < self.entries@.len() && self.entries@[w].package.key() == d@);
                    assert(w == i as int);
                }
                let src = &self.entries[i].depends;
                let mut out: Vec<Dependency> = Vec::new();
                let mut k: usize = 0;
                while k < src.len()
                    invariant
                        0 <= k <= src@.len(),
                        out@.len() == k,
                        forall|j: int| 0 <= j < k ==> out@[j] == src@[j],
                    decreases src@.len() - k,
                {
                    out.push(src[k].clone());
                    k = k + 1;
                }
                proof {
                    assert(out@ =~= src@);
                    assert(out@.map_values(|x: Dependency| x@) =~= self.deps_of(d@));
                }
                return Some(out);
            }
            proof {
                assert(self.entries@[i as int].package.key() != d@);
            }
            i = i + 1;
        }
        None
    }

    /// The full package description of `d`, copied out of the catalogue.
    pub fn get_package(&self, d: &Dependency) -> (r: Option<Package>)
        requires
            self.wf(),
        ensures
            match r {
                Some(p) => self.spec_contains(d@) && p == self.package_of(d@),
                None => !self.spec_contains(d@),
            },
    {
        let mut i: usize = 0;
        while i < self.entries.len()
            invariant
                0 <= i <= self.entries@.len(),
                self.wf(),
                forall|j: int| 0 <= j < i ==> (#[trigger] self.entries@[j].package.key()) != d@,
            decreases self.entries@.len() - i,
        {
            let p = &self.entries[i].package;
            if p.archive == d.archive && p.version_wrapper == d.version_wrapper {
                proof {
                    assert(self.entries@[i as int].package.key() == d@);
                    assert(self.spec_contains(d@));
                    let w = self.entry_index_of(d@);
                    assert(0 <= w < self.entries@.len() && self.entries@[w].package.key() == d@);
                    assert(w == i as int);
                }
                return Some(self.entries[i].package.clone());
            }
            proof {
                assert(self.entries@[i as int].package.key() != d@);
            }
            i = i + 1;
        }
        None
    }

    /// The newest version the catalogue offers under `archive`, if any.
    pub fn latest_version(&self, archive: &String) -> (r: Option<VersionWrapper>)
        ensures
            match r {
                Some(v) => self.spec_contains((archive@, v)) && forall|i: int|
                    0 <= i < self.entries@.len() && (#[trigger] self.entries@[i].package.archive@)
                        == archive@ ==> version_le(self.entries@[i].package.version_wrapper, v),
                None => forall|i: int|
                    0 <= i < self.entries@.len() ==> (#[trigger] self.entries@[i].package.archive@)
                        != archive@,
            },
    {
        let mut best: Option<VersionWrapper> = None;
        let mut i: usize = 0;
        while i < self.entries.len()
            invariant
                0 <= i <= self.entries@.len(),
                match best {
                    Some(v) => self.spec_contains((archive@, v)) && forall|j: int|
                        0 <= j < i && (#[trigger] self.entries@[j].package.archive@) == archive@
                            ==> version_le(self.entries@[j].package.version_wrapper, v),
                    None => forall|j: int|
                        0 <= j < i ==> (#[trigger] self.entries@[j].package.archive@) != archive@,
                },
            decreases self.entries@.len() - i,
        {
            let p = &self.entries[i].package;
            if p.archive == *archive {
                proof {
                    assert(self.entries@[i as int].package.key() == (
                    archive@,
                    self.entries@[i as int].package.version_wrapper,
                    ));
                }
                match best {
                    None => {
                        best = Some(p.version_wrapper);
                    },
                    Some(v) => {
                        if v.le(&p.version_wrapper) {
                            best = Some(p.version_wrapper);
                        } else {
                            proof {
                                assert(version_le(
                                    self.entries@[i as int].package.version_wrapper,
                                    v,
                                ));
                            }
                        }
                    },
                }
            }
            i = i + 1;
        }
        best
    }
}

} // verus!
