//! The orchestrator: one request runs resolve, install, and commit in
//! that order. A failed resolution aborts the whole request with nothing
//! installed or recorded; once installation succeeds, the want-set is
//! committed to its configuration chain and reference-counted.

use vstd::prelude::*;
use crate::version::VersionWrapper;
use crate::dependency::{Dependency, PackageList};
use crate::provider::DependencyProvider;
use crate::package_manager::PackageManager;
use crate::software_manager::{
    SoftwareManager,
    cap_add,
    count_key,
    cycle_in,
    edge_count_from,
    lemma_edge_count_congruent,
};
use crate::software::SoftwareStatus;
use crate::configuration::{
    ConfigurationManager,
    ConfigurationUpdateMode,
    update_needs_missing_latest,
    updated_elem_ok,
};
use crate::errors::{ConfigurationManagerError, GlobalError, SoftwareManagerError};
use crate::software_manager::{coll_with_pm, gc_step_ok};

verus! {

/// The request orchestrator; it holds no state of its own.
#[derive(Debug)]
pub struct Scheduler {}

/// A fresh orchestrator.
pub fn scheduler() -> (r: Scheduler) {
    Scheduler {  }
}

impl Scheduler {
    pub fn new() -> (r: Scheduler) {
        Scheduler {  }
    }

    /// One full installation request for the configuration `archive`:
    /// resolve the want-set, install the resolved order, commit the
    /// want-set to the chain, and add one reference per member. On a
    /// resolution failure nothing is installed and nothing is recorded.
    pub fn bootstrap(
        &self,
        archive: String,
        depends: Vec<Dependency>,
        provider: &DependencyProvider,
        sm: &mut SoftwareManager,
        pm: &mut PackageManager,
        cm: &mut ConfigurationManager,
    ) -> (r: Result<(), GlobalError>)
        requires
            old(sm).wf(),
            old(pm).wf(),
            old(cm).wf(),
            provider.wf(),
        ensures
            final(sm).wf(),
            final(pm).wf(),
            final(cm).wf(),
            match r {
                Ok(()) => {
                    &&& final(sm).softwares@.len() >= old(sm).softwares@.len()
                    &&& forall|j: int|
                        0 <= j < old(sm).softwares@.len() ==> {
                            let v = (#[trigger] final(sm).softwares@[j])@;
                            let o = old(sm).softwares@[j]@;
                            &&& v.archive == o.archive
                            &&& v.version == o.version
                            &&& v.dependencies == o.dependencies
                            &&& v.status == o.status
                            &&& v.reference_count == (if o.is_live() {
                                cap_add(
                                    o.reference_count as nat,
                                    edge_count_from(
                                        final(sm).softwares@,
                                        old(sm).softwares@.len() as int,
                                        o.key(),
                                    ) + count_key(depends@, o.key()),
                                )
                            } else {
                                o.reference_count as nat
                            })
                        }
                    &&& forall|j: int|
                        old(sm).softwares@.len() <= j < final(sm).softwares@.len() ==> {
                            let v = (#[trigger] final(sm).softwares@[j])@;
                            &&& v.status == SoftwareStatus::Available
                            &&& provider.spec_contains(v.key())
                            &&& v.dependencies == provider.deps_of(v.key())
                            &&& final(pm).spec_contains(v.key())
                            &&& v.reference_count == cap_add(
                                0,
                                edge_count_from(final(sm).softwares@, j + 1, v.key())
                                    + count_key(depends@, v.key()),
                            )
                        }
                    &&& forall|i: int|
                        0 <= i < depends@.len() ==> final(sm).is_live_key(
                            (#[trigger] depends@[i])@,
                        )
                    &&& (!old(cm).spec_contains(archive@) ==> final(cm).configurations@.len()
                        == old(cm).configurations@.len() + 1
                        && final(cm).configurations@.last().archive@ == archive@ && final(cm).configurations@.last().inner.vec@.len() == 1 && final(cm).configurations@.last().inner.vec@[0].dependencies@ == depends@)
                    &&& (old(cm).spec_contains(archive@) ==> ({
                        let ix = old(cm).chain_index_of(archive@);
                        let oldc = old(cm).configurations@[ix];
                        let newc = final(cm).configurations@[ix];
                        &&& newc.inner.vec@.len() == oldc.inner.vec@.len() + 1
                        &&& forall|t: int|
                            0 <= t < oldc.inner.vec@.len() ==> (#[trigger] newc.inner.vec@[t])
                                == oldc.inner.vec@[t]
                        &&& newc.inner.vec@.last().dependencies@ == depends@
                        &&& newc.inner.age == oldc.inner.age + 1
                    }))
                },
                Err(GlobalError::CircularDependency(c)) => cycle_in(*provider, c@) && final(sm).softwares@ == old(sm).softwares@ && final(pm).packages@ == old(pm).packages@
                    && final(cm).configurations@ == old(cm).configurations@,
                Err(GlobalError::DependencyNotFound(d)) => !provider.spec_contains(d@) && final(sm).softwares@ == old(sm).softwares@ && final(pm).packages@ == old(pm).packages@
                    && final(cm).configurations@ == old(cm).configurations@,
                Err(_) => false,
            },
    {
        let ghost d0 = depends@;
        let order = match sm.check(&depends, provider) {
            Ok(o) => o,
            Err(e) => {
                proof {
                    match e {
                        SoftwareManagerError::CircularDependency(_) => {},
                        SoftwareManagerError::SoftwareNotFound(_) => {},
                        _ => {
                            assert(false);
                        },
                    }
                }
                return Err(GlobalError::from_software(e));
            },
        };
        let ghost sm0 = *sm;
        match sm.install(&order, provider, pm) {
            Ok(()) => {},
            Err(e) => {
                proof {
                    assert(false);
                }
                return Err(GlobalError::from_software(e));
            },
        }
        let ghost sm1 = *sm;
        let list = PackageList::with_dependencies(depends);
        let stored = list.clone();
        cm.commit(archive, stored);
        proof {
            assert(list.dependencies@ == d0);
            // every root is available or freshly installed, hence live
            assert forall|i: int| 0 <= i < list.dependencies@.len() implies sm1.is_live_key(
                (#[trigger] list.dependencies@[i])@,
            ) by {
                assert(list.dependencies@[i] == d0[i]);
                if sm0.is_available(d0[i]@) {
                    let w = choose|w: int|
                        0 <= w < sm0.softwares@.len() && (#[trigger] sm0.softwares@[w])@.key()
                            == d0[i]@ && sm0.softwares@[w]@.status == SoftwareStatus::Available;
                    assert(sm1.softwares@[w]@.key() == sm0.softwares@[w]@.key());
                    assert(sm1.softwares@[w]@.status == sm0.softwares@[w]@.status);
                    assert(sm1.is_live_key(d0[i]@));
                } else {
                    assert(crate::software_manager::key_in(order@, d0[i]@));
                    let w = choose|w: int|
                        0 <= w < order@.len() && (#[trigger] order@[w])@ == d0[i]@;
                    assert(sm1.is_live_key(order@[w]@));
                }
            }
        }
        match sm.update_reference(&list) {
            Ok(()) => {},
            Err(e) => {
                proof {
                    match &e {
                        SoftwareManagerError::SoftwareNotFound(d) => {
                            let f = choose|f: int|
                                {
                                    &&& 0 <= f < list.dependencies@.len()
                                    &&& (#[trigger] list.dependencies@[f])@ == d@
                                    &&& !sm1.is_live_key(d@)
                                    &&& forall|t: int|
                                        0 <= t < f ==> sm1.is_live_key(
                                            (#[trigger] list.dependencies@[t])@,
                                        )
                                    &&& forall|j: int|
                                        0 <= j < sm1.softwares@.len() ==> (
                                        #[trigger] sm.softwares@[j])@.reference_count
                                            == sm1.softwares@[j]@.reference_count + (if sm1.softwares@[j]@.is_live() {
                                            count_key(
                                                list.dependencies@.subrange(0, f),
                                                sm1.softwares@[j]@.key(),
                                            )
                                        } else {
                                            0nat
                                        })
                                };
                            assert(sm1.is_live_key(list.dependencies@[f]@));
                            assert(false);
                        },
                        _ => {
                            assert(false);
                        },
                    }
                }
                return Err(GlobalError::from_software(e));
            },
        }
        proof {
            let pre_len = sm0.softwares@.len() as int;
            assert(sm.softwares@.len() == sm1.softwares@.len());
            assert forall|q: (Seq<char>, VersionWrapper), f: int|
                #[trigger] edge_count_from(sm.softwares@, f, q) == edge_count_from(
                sm1.softwares@,
                f,
                q,
            ) by {
                lemma_edge_count_congruent(sm.softwares@, sm1.softwares@, f, q);
            }
            assert forall|j: int|
                0 <= j < pre_len implies {
                    let v = (#[trigger] sm.softwares@[j])@;
                    let o = sm0.softwares@[j]@;
                    &&& v.archive == o.archive
                    &&& v.version == o.version
                    &&& v.dependencies == o.dependencies
                    &&& v.status == o.status
                    &&& v.reference_count == (if o.is_live() {
                        cap_add(
                            o.reference_count as nat,
                            edge_count_from(sm.softwares@, pre_len, o.key()) + count_key(
                                depends@,
                                o.key(),
                            ),
                        )
                    } else {
                        o.reference_count as nat
                    })
                } by {
                let m = sm1.softwares@[j]@;
                let o = sm0.softwares@[j]@;
                assert(m.key() == o.key());
                assert(m.status == o.status);
                if o.is_live() {
                    let e1 = edge_count_from(sm1.softwares@, pre_len, o.key());
                    let c = count_key(list.dependencies@, o.key());
                    assert(m.reference_count == cap_add(o.reference_count as nat, e1));
                    assert(m.is_live());
                    assert(sm.softwares@[j]@.reference_count == cap_add(
                        m.reference_count as nat,
                        c,
                    ));
                    assert(cap_add(cap_add(o.reference_count as nat, e1), c) == cap_add(
                        o.reference_count as nat,
                        e1 + c,
                    ));
                    assert(edge_count_from(sm.softwares@, pre_len, o.key()) == e1);
                    assert(count_key(depends@, o.key()) == c);
                }
            }
            assert forall|j: int|
                pre_len <= j < sm.softwares@.len() implies {
                    let v = (#[trigger] sm.softwares@[j])@;
                    &&& v.status == SoftwareStatus::Available
                    &&& provider.spec_contains(v.key())
                    &&& v.dependencies == provider.deps_of(v.key())
                    &&& pm.spec_contains(v.key())
                    &&& v.reference_count == cap_add(
                        0,
                        edge_count_from(sm.softwares@, j + 1, v.key()) + count_key(
                            depends@,
                            v.key(),
                        ),
                    )
                } by {
                let m = sm1.softwares@[j]@;
                assert(m.status == SoftwareStatus::Available);
                assert(m.is_live());
                let e1 = edge_count_from(sm1.softwares@, j + 1, m.key());
                let c = count_key(list.dependencies@, m.key());
                assert(m.reference_count == cap_add(0, e1));
                assert(sm.softwares@[j]@.key() == m.key());
                assert(sm.softwares@[j]@.status == m.status);
                assert(sm.softwares@[j]@.dependencies == m.dependencies);
                assert(sm.softwares@[j]@.reference_count == cap_add(m.reference_count as nat, c));
                assert(cap_add(cap_add(0, e1), c) == cap_add(0, e1 + c));
                assert(edge_count_from(sm.softwares@, j + 1, m.key()) == e1);
            }
            assert forall|i: int| 0 <= i < list.dependencies@.len() implies sm.is_live_key(
                (#[trigger] list.dependencies@[i])@,
            ) by {
                assert(sm1.is_live_key(list.dependencies@[i]@));
                let w = choose|w: int|
                    0 <= w < sm1.softwares@.len() && (#[trigger] sm1.softwares@[w])@.key()
                        == list.dependencies@[i]@ && sm1.softwares@[w]@.is_live();
                assert(sm.softwares@[w]@.key() == sm1.softwares@[w]@.key());
                assert(sm.softwares@[w]@.status == sm1.softwares@[w]@.status);
            }
        }
        Ok(())
    }

    /// The update flow: derive the new want-set from the chain's current
    /// head under the given policy, append it to the chain, then resolve,
    /// install and reference it. The chain keeps its new head even when a
    /// later resolution fails, so the recorded history always shows what
    /// was asked for; the sweep of any stranded installs is garbage
    /// collection's job.
    pub fn update_dependency(
        &self,
        archive: String,
        mode: ConfigurationUpdateMode,
        provider: &DependencyProvider,
        sm: &mut SoftwareManager,
        pm: &mut PackageManager,
        cm: &mut ConfigurationManager,
    ) -> (r: Result<(), GlobalError>)
        requires
            old(sm).wf(),
            old(pm).wf(),
            old(cm).wf(),
            provider.wf(),
        ensures
            final(sm).wf(),
            final(pm).wf(),
            final(cm).wf(),
            final(cm).configurations@.len() == old(cm).configurations@.len(),
            match r {
                Ok(()) => ({
                    let ix = old(cm).chain_index_of(archive@);
                    let oldc = old(cm).configurations@[ix];
                    let newc = final(cm).configurations@[ix];
                    let head = oldc.inner.vec@.last().dependencies@;
                    let want = newc.inner.vec@.last().dependencies@;
                    &&& old(cm).spec_contains(archive@)
                    &&& newc.inner.vec@.len() == oldc.inner.vec@.len() + 1
                    &&& forall|t: int|
                        0 <= t < oldc.inner.vec@.len() ==> (#[trigger] newc.inner.vec@[t])
                            == oldc.inner.vec@[t]
                    &&& newc.inner.age == oldc.inner.age + 1
                    &&& want.len() == head.len()
                    &&& forall|t: int|
                        0 <= t < head.len() ==> updated_elem_ok(
                            *provider,
                            mode,
                            head[t],
                            #[trigger] want[t],
                        )
                    &&& forall|i: int|
                        0 <= i < want.len() ==> final(sm).is_live_key((#[trigger] want[i])@)
                    &&& final(sm).softwares@.len() >= old(sm).softwares@.len()
                    &&& forall|j: int|
                        0 <= j < old(sm).softwares@.len() ==> {
                            let v = (#[trigger] final(sm).softwares@[j])@;
                            let o = old(sm).softwares@[j]@;
                            &&& v.archive == o.archive
                            &&& v.version == o.version
                            &&& v.dependencies == o.dependencies
                            &&& v.status == o.status
                            &&& v.reference_count == (if o.is_live() {
                                cap_add(
                                    o.reference_count as nat,
                                    edge_count_from(
                                        final(sm).softwares@,
                                        old(sm).softwares@.len() as int,
                                        o.key(),
                                    ) + count_key(want, o.key()),
                                )
                            } else {
                                o.reference_count as nat
                            })
                        }
                    &&& forall|j: int|
                        old(sm).softwares@.len() <= j < final(sm).softwares@.len() ==> {
                            let v = (#[trigger] final(sm).softwares@[j])@;
                            &&& v.status == SoftwareStatus::Available
                            &&& provider.spec_contains(v.key())
                            &&& v.dependencies == provider.deps_of(v.key())
                            &&& final(pm).spec_contains(v.key())
                            &&& v.reference_count == cap_add(
                                0,
                                edge_count_from(final(sm).softwares@, j + 1, v.key())
                                    + count_key(want, v.key()),
                            )
                        }
                }),
                Err(GlobalError::ConfigurationNotFound(s)) => s@ == archive@ && !old(
                    cm,
                ).spec_contains(archive@) && final(cm).configurations@ == old(cm).configurations@
                    && final(sm).softwares@ == old(sm).softwares@ && final(pm).packages@ == old(
                    pm,
                ).packages@,
                Err(GlobalError::ConfigurationUpdateFailed) => old(cm).spec_contains(archive@)
                    && update_needs_missing_latest(
                    *provider,
                    mode,
                    old(cm).configurations@[old(cm).chain_index_of(
                        archive@,
                    )].inner.vec@.last().dependencies@,
                ) && final(cm).configurations@ == old(cm).configurations@ && final(sm).softwares@
                    == old(sm).softwares@ && final(pm).packages@ == old(pm).packages@,
                Err(GlobalError::CircularDependency(c)) => cycle_in(*provider, c@) && final(sm).softwares@ == old(sm).softwares@ && final(pm).packages@ == old(pm).packages@,
                Err(GlobalError::DependencyNotFound(d)) => !provider.spec_contains(d@) && final(sm).softwares@ == old(sm).softwares@ && final(pm).packages@ == old(pm).packages@,
                Err(_) => false,
            },
    {
        let ghost cm0 = *cm;
        let list = match cm.update(archive, mode, provider) {
            Ok(l) => l,
            Err(e) => {
                proof {
                    match &e {
                        ConfigurationManagerError::ConfigurationNotFound(_) => {},
                        ConfigurationManagerError::ConfigurationUpdateFailed => {},
                        _ => {
                            assert(false);
                        },
                    }
                }
                return Err(GlobalError::from(e));
            },
        };
        let order = match sm.check(&list.dependencies, provider) {
            Ok(o) => o,
            Err(e) => {
                proof {
                    match &e {
                        SoftwareManagerError::CircularDependency(_) => {},
                        SoftwareManagerError::SoftwareNotFound(_) => {},
                        _ => {
                            assert(false);
                        },
                    }
                }
                return Err(GlobalError::from_software(e));
            },
        };
        let ghost sm0 = *sm;
        match sm.install(&order, provider, pm) {
            Ok(()) => {},
            Err(e) => {
                proof {
                    assert(false);
                }
                return Err(GlobalError::from_software(e));
            },
        }
        let ghost sm1 = *sm;
        proof {
            assert forall|i: int| 0 <= i < list.dependencies@.len() implies sm1.is_live_key(
                (#[trigger] list.dependencies@[i])@,
            ) by {
                if sm0.is_available(list.dependencies@[i]@) {
                    let w = choose|w: int|
                        0 <= w < sm0.softwares@.len() && (#[trigger] sm0.softwares@[w])@.key()
                            == list.dependencies@[i]@ && sm0.softwares@[w]@.status
                            == SoftwareStatus::Available;
                    assert(sm1.softwares@[w]@.key() == sm0.softwares@[w]@.key());
                    assert(sm1.softwares@[w]@.status == sm0.softwares@[w]@.status);
                    assert(sm1.is_live_key(list.dependencies@[i]@));
                } else {
                    assert(crate::software_manager::key_in(order@, list.dependencies@[i]@));
                    let w = choose|w: int|
                        0 <= w < order@.len() && (#[trigger] order@[w])@ == list.dependencies@[i]@;
                    assert(sm1.is_live_key(order@[w]@));
                }
            }
        }
        match sm.update_reference(&list) {
            Ok(()) => {},
            Err(e) => {
                proof {
                    match &e {
                        SoftwareManagerError::SoftwareNotFound(d) => {
                            let f = choose|f: int|
                                {
                                    &&& 0 <= f < list.dependencies@.len()
                                    &&& (#[trigger] list.dependencies@[f])@ == d@
                                    &&& !sm1.is_live_key(d@)
                                    &&& forall|t: int|
                                        0 <= t < f ==> sm1.is_live_key(
                                            (#[trigger] list.dependencies@[t])@,
                                        )
                                    &&& forall|j: int|
                                        0 <= j < sm1.softwares@.len() ==> (
                                        #[trigger] sm.softwares@[j])@.reference_count == (if sm1.softwares@[j]@.is_live() {
                                            cap_add(
                                                sm1.softwares@[j]@.reference_count as nat,
                                                count_key(
                                                    list.dependencies@.subrange(0, f),
                                                    sm1.softwares@[j]@.key(),
                                                ),
                                            )
                                        } else {
                                            sm1.softwares@[j]@.reference_count as nat
                                        })
                                };
                            assert(sm1.is_live_key(list.dependencies@[f]@));
                            assert(false);
                        },
                        _ => {
                            assert(false);
                        },
                    }
                }
                return Err(GlobalError::from_software(e));
            },
        }
        proof {
            let ix = cm0.chain_index_of(archive@);
            let newc = cm.configurations@[ix];
            assert(newc.inner.vec@.last().dependencies@ == list.dependencies@);
            assert forall|i: int|
                0 <= i < newc.inner.vec@.last().dependencies@.len() implies sm.is_live_key(
                (#[trigger] newc.inner.vec@.last().dependencies@[i])@,
            ) by {
                assert(sm1.is_live_key(list.dependencies@[i]@));
                let w = choose|w: int|
                    0 <= w < sm1.softwares@.len() && (#[trigger] sm1.softwares@[w])@.key()
                        == list.dependencies@[i]@ && sm1.softwares@[w]@.is_live();
                assert(sm.softwares@[w]@.key() == sm1.softwares@[w]@.key());
                assert(sm.softwares@[w]@.status == sm1.softwares@[w]@.status);
            }
            let want = newc.inner.vec@.last().dependencies@;
            let pre_len = sm0.softwares@.len() as int;
            assert(sm.softwares@.len() == sm1.softwares@.len());
            assert forall|q: (Seq<char>, VersionWrapper), f: int|
                #[trigger] edge_count_from(sm.softwares@, f, q) == edge_count_from(
                sm1.softwares@,
                f,
                q,
            ) by {
                lemma_edge_count_congruent(sm.softwares@, sm1.softwares@, f, q);
            }
            assert forall|j: int|
                0 <= j < pre_len implies {
                    let v = (#[trigger] sm.softwares@[j])@;
                    let o = sm0.softwares@[j]@;
                    &&& v.archive == o.archive
                    &&& v.version == o.version
                    &&& v.dependencies == o.dependencies
                    &&& v.status == o.status
                    &&& v.reference_count == (if o.is_live() {
                        cap_add(
                            o.reference_count as nat,
                            edge_count_from(sm.softwares@, pre_len, o.key()) + count_key(
                                want,
                                o.key(),
                            ),
                        )
                    } else {
                        o.reference_count as nat
                    })
                } by {
                let m = sm1.softwares@[j]@;
                let o = sm0.softwares@[j]@;
                assert(m.key() == o.key());
                assert(m.status == o.status);
                if o.is_live() {
                    let e1 = edge_count_from(sm1.softwares@, pre_len, o.key());
                    let c = count_key(list.dependencies@, o.key());
                    assert(m.reference_count == cap_add(o.reference_count as nat, e1));
                    assert(m.is_live());
                    assert(sm.softwares@[j]@.reference_count == cap_add(
                        m.reference_count as nat,
                        c,
                    ));
                    assert(cap_add(cap_add(o.reference_count as nat, e1), c) == cap_add(
                        o.reference_count as nat,
                        e1 + c,
                    ));
                    assert(edge_count_from(sm.softwares@, pre_len, o.key()) == e1);
                    assert(count_key(want, o.key()) == c);
                }
            }
            assert forall|j: int|
                pre_len <= j < sm.softwares@.len() implies {
                    let v = (#[trigger] sm.softwares@[j])@;
                    &&& v.status == SoftwareStatus::Available
                    &&& provider.spec_contains(v.key())
                    &&& v.dependencies == provider.deps_of(v.key())
                    &&& pm.spec_contains(v.key())
                    &&& v.reference_count == cap_add(
                        0,
                        edge_count_from(sm.softwares@, j + 1, v.key()) + count_key(
                            want,
                            v.key(),
                        ),
                    )
                } by {
                let m = sm1.softwares@[j]@;
                assert(m.status == SoftwareStatus::Available);
                assert(m.is_live());
                let e1 = edge_count_from(sm1.softwares@, j + 1, m.key());
                let c = count_key(list.dependencies@, m.key());
                assert(m.reference_count == cap_add(0, e1));
                assert(sm.softwares@[j]@.key() == m.key());
                assert(sm.softwares@[j]@.status == m.status);
                assert(sm.softwares@[j]@.dependencies == m.dependencies);
                assert(sm.softwares@[j]@.reference_count == cap_add(m.reference_count as nat, c));
                assert(cap_add(cap_add(0, e1), c) == cap_add(0, e1 + c));
                assert(edge_count_from(sm.softwares@, j + 1, m.key()) == e1);
            }
        }
        Ok(())
    }

    /// The collection flow: one full garbage-collection pass over the
    /// registries. Afterwards nothing collectable whose payload is still
    /// in the store remains, and a pass over an already clean registry
    /// changes nothing.
    pub fn garbage_collection(
        &self,
        sm: &mut SoftwareManager,
        pm: &mut PackageManager,
    ) -> (r: Result<(), GlobalError>)
        requires
            old(sm).wf(),
            old(pm).wf(),
        ensures
            final(sm).wf(),
            final(pm).wf(),
            r is Ok,
            gc_step_ok(old(sm).softwares@, final(sm).softwares@),
            forall|j: int|
                0 <= j < final(sm).softwares@.len() ==> !coll_with_pm(
                    final(sm).softwares@,
                    *final(pm),
                    j,
                ),
            (forall|j: int|
                0 <= j < old(sm).softwares@.len() ==> !coll_with_pm(
                    old(sm).softwares@,
                    *old(pm),
                    j,
                )) ==> final(sm).softwares@ == old(sm).softwares@ && final(pm).packages@ == old(
                pm,
            ).packages@,
            forall|j: int|
                0 <= j < old(sm).softwares@.len() && (#[trigger] old(sm).softwares@[j])@.status
                    == SoftwareStatus::Available && old(sm).softwares@[j]@.reference_count == 0
                    && old(pm).spec_contains(old(sm).softwares@[j]@.key()) ==> final(sm).softwares@[j]@.status == SoftwareStatus::Removed,
            forall|j: int|
                0 <= j < old(sm).softwares@.len() && (#[trigger] final(sm).softwares@[j])@.status
                    == SoftwareStatus::Available && old(pm).spec_contains(
                    old(sm).softwares@[j]@.key(),
                ) ==> final(pm).spec_contains(old(sm).softwares@[j]@.key()),
            (forall|j: int|
                0 <= j < old(sm).softwares@.len() && (#[trigger] old(sm).softwares@[j])@.status
                    == SoftwareStatus::Available ==> old(pm).spec_contains(
                    old(sm).softwares@[j]@.key(),
                )) ==> forall|j: int|
                0 <= j < old(sm).softwares@.len() && (#[trigger] final(sm).softwares@[j])@.status
                    == SoftwareStatus::Available ==> final(sm).softwares@[j]@.reference_count
                    == crate::software_manager::cap_sub(
                    old(sm).softwares@[j]@.reference_count as nat,
                    crate::software_manager::removed_edge_count(
                        old(sm).softwares@,
                        final(sm).softwares@,
                        0,
                        old(sm).softwares@[j]@.key(),
                    ),
                ),
    {
        match sm.garbage_collection(pm) {
            Ok(()) => Ok(()),
            Err(e) => Err(GlobalError::from_software(e)),
        }
    }
}

} // verus!
