//! The low-level package registry: which payloads are present in the local
//! store. Fetching and unpacking are its callers' business; this registry
//! keeps the bookkeeping consistent.

use vstd::prelude::*;
use crate::version::VersionWrapper;
use crate::dependency::Package;
use crate::errors::PackageManagerError;

verus! {

/// The registry of packages whose payloads are installed locally, keyed by
/// (name, version).
#[derive(Debug)]
pub struct PackageManager {
    pub packages: Vec<Package>,
}

impl PackageManager {
    /// No two records describe the same (name, version).
    pub open spec fn wf(&self) -> bool {
        forall|i: int, j: int|
            0 <= i < self.packages@.len() && 0 <= j < self.packages@.len() && (
            #[trigger] self.packages@[i].key()) == (#[trigger] self.packages@[j].key()) ==> i == j
    }

    /// The store holds this (name, version).
    pub open spec fn spec_contains(&self, k: (Seq<char>, VersionWrapper)) -> bool {
        exists|i: int| 0 <= i < self.packages@.len() && (#[trigger] self.packages@[i].key()) == k
    }

    pub fn new() -> (r: PackageManager)
        ensures
            r.packages@.len() == 0,
            r.wf(),
    {
        PackageManager { packages: Vec::new() }
    }

    /// Whether the store holds the package named by `archive` and `version`.
    pub fn contains(&self, archive: &String, version: &VersionWrapper) -> (r: bool)
        ensures
            r == self.spec_contains((archive@, *version)),
    {
        let mut i: usize = 0;
        while i < self.packages.len()
            invariant
                0 <= i <= self.packages@.len(),
                forall|j: int|
                    0 <= j < i ==> (#[trigger] self.packages@[j].key()) != (archive@, *version),
            decreases self.packages@.len() - i,
        {
            let p = &self.packages[i];
            if p.archive == *archive && p.version_wrapper == *version {
                assert(self.packages@[i as int].key() == (archive@, *version));
                return true;
            }
            proof {
                assert(self.packages@[i as int].key() != (archive@, *version));
            }
            i = i + 1;
        }
        false
    }

    /// Registers one fetched package. The payload itself was already placed
    /// by the fetch collaborator; this call only records it.
    pub fn install_package(&mut self, package: Package) -> (r: Result<(), PackageManagerError>)
        requires
            old(self).wf(),
        ensures
            final(self).wf(),
            match r {
                Ok(()) => !old(self).spec_contains(package.key()) && final(self).packages@ == old(
                    self,
                ).packages@.push(package),
                Err(e) => old(self).spec_contains(package.key()) && final(self).packages@ == old(
                    self,
                ).packages@ && e matches PackageManagerError::PackageInstalled,
            },
    {
        if self.contains(&package.archive, &package.version_wrapper) {
            proof {
                assert(self.spec_contains(package.key()));
            }
            return Err(PackageManagerError::PackageInstalled);
        }
        let ghost pre = self.packages@;
        proof {
            assert(!self.spec_contains(package.key()));
        }
        self.packages.push(package);
        proof {
            assert forall|i: int, j: int|
                0 <= i < self.packages@.len() && 0 <= j < self.packages@.len() && (
                #[trigger] self.packages@[i].key()) == (#[trigger] self.packages@[j].key())
                implies i == j by {
                if i < pre.len() {
                    assert(self.packages@[i] == pre[i]);
                }
                if j < pre.len() {
                    assert(self.packages@[j] == pre[j]);
                }
                if i != j {
                    if i == pre.len() {
                        assert(pre[j].key() == package.key());
                        assert(old(self).spec_contains(package.key()));
                    } else if j == pre.len() {
                        assert(pre[i].key() == package.key());
                        assert(old(self).spec_contains(package.key()));
                    }
                }
            }
        }
        Ok(())
    }

    /// Unregisters the package named by `archive` and `version`; its files
    /// were removed by the uninstall collaborator. Fails, changing nothing,
    /// when the store does not hold that package.
    pub fn uninstall_package(&mut self, archive: String, version: VersionWrapper) -> (r: Result<
        (),
        PackageManagerError,
    >)
        requires
            old(self).wf(),
        ensures
            final(self).wf(),
            match r {
                Ok(()) => {
                    &&& old(self).spec_contains((archive@, version))
                    &&& final(self).packages@.len() == old(self).packages@.len() - 1
                    &&& !final(self).spec_contains((archive@, version))
                    &&& forall|k: (Seq<char>, VersionWrapper)|
                        k != (archive@, version) ==> (final(self).spec_contains(k) == old(
                            self,
                        ).spec_contains(k))
                },
                Err(e) => {
                    &&& !old(self).spec_contains((archive@, version))
                    &&& final(self).packages@ == old(self).packages@
                    &&& e matches PackageManagerError::PackageNotFound(s) && s@ == archive@
                },
            },
    {
        let ghost k0 = (archive@, version);
        let mut i: usize = 0;
        while i < self.packages.len()
            invariant
                0 <= i <= self.packages@.len(),
                self.packages@ == old(self).packages@,
                old(self).wf(),
                forall|j: int| 0 <= j < i ==> (#[trigger] self.packages@[j].key()) != k0,
                k0 == (archive@, version),
            decreases self.packages@.len() - i,
        {
            let p = &self.packages[i];
            if p.archive == archive && p.version_wrapper == version {
                proof {
                    assert(self.packages@[i as int].key() == k0);
                }
                let ghost pre = self.packages@;
                self.packages.remove(i);
                proof {
                    let post = self.packages@;
                    assert(post == pre.remove(i as int));
                    assert forall|a: int| 0 <= a < post.len() implies post[a] == (if a < i {
                        pre[a]
                    } else {
                        pre[a + 1]
                    }) by {
                        if a < i {
                            assert(post[a] == pre.subrange(0, i as int)[a]);
                        } else {
                            assert(post[a] == pre.subrange(i + 1, pre.len() as int)[a - i]);
                        }
                    }
                    assert forall|a: int, b: int|
                        0 <= a < post.len() && 0 <= b < post.len() && (#[trigger] post[a].key())
                            == (#[trigger] post[b].key()) implies a == b by {
                        let a0: int = if a < i { a } else { a + 1 };
                        let b0: int = if b < i { b } else { b + 1 };
                        assert(post[a] == pre[a0]);
                        assert(post[b] == pre[b0]);
                        assert(pre[a0].key() == pre[b0].key());
                        assert(a0 == b0);
                    }
                    assert(!self.spec_contains(k0)) by {
                        if self.spec_contains(k0) {
                            let w = choose|w: int|
                                0 <= w < post.len() && (#[trigger] post[w].key()) == k0;
                            let w0: int = if w < i { w } else { w + 1 };
                            assert(post[w] == pre[w0]);
                            assert(pre[w0].key() == k0);
                            assert(pre[i as int].key() == k0);
                            assert(w0 == i);
                        }
                    }
                    assert forall|k: (Seq<char>, VersionWrapper)| k != k0 implies (
                    self.spec_contains(k) == old(self).spec_contains(k)) by {
                        if old(self).spec_contains(k) {
                            let w = choose|w: int|
                                0 <= w < pre.len() && (#[trigger] pre[w].key()) == k;
                            assert(w != i) by {
                                assert(pre[i as int].key() == k0);
                            }
                            let w1: int = if w < i { w } else { w - 1 };
                            assert(post[w1] == pre[w]);
                            assert(self.spec_contains(k));
                        }
                        if self.spec_contains(k) {
                            let w = choose|w: int|
                                0 <= w < post.len() && (#[trigger] post[w].key()) == k;
                            let w0: int = if w < i { w } else { w + 1 };
                            assert(post[w] == pre[w0]);
                            assert(old(self).spec_contains(k));
                        }
                    }
                }
                return Ok(());
            }
            proof {
                assert(self.packages@[i as int].key() != k0);
            }
            i = i + 1;
        }
        Err(PackageManagerError::PackageNotFound(archive))
    }
}

} // verus!
