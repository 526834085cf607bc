//! Configuration chains: per name, an append-only history of want-sets
//! with a monotonically increasing age, plus the update policies that
//! derive a new want-set from the current head.

use vstd::prelude::*;
use crate::version::{VersionWrapper, version_le};
use crate::dependency::{Dependency, PackageList};
use crate::provider::DependencyProvider;
use crate::errors::ConfigurationManagerError;

verus! {

/// The mutable heart of one chain: every want-set ever declared, oldest
/// first, and the age, which is the index of the current head.
#[derive(Debug)]
pub struct InnerConfiguration {
    pub vec: Vec<PackageList>,
    pub age: usize,
}

impl InnerConfiguration {
    /// The age is exactly the index of the newest want-set.
    pub open spec fn wf(&self) -> bool {
        self.vec@.len() >= 1 && self.age == self.vec@.len() - 1
    }

    pub fn age(&self) -> (r: usize)
        ensures
            r == self.age,
    {
        self.age
    }

    /// A copy of the full history, oldest first.
    pub fn vec(&self) -> (r: Vec<PackageList>)
        ensures
            r@.len() == self.vec@.len(),
            forall|i: int|
                0 <= i < self.vec@.len() ==> (#[trigger] r@[i]).dependencies@
                    == self.vec@[i].dependencies@,
    {
        let mut out: Vec<PackageList> = Vec::new();
        let mut i: usize = 0;
        while i < self.vec.len()
            invariant
                0 <= i <= self.vec@.len(),
                out@.len() == i,
                forall|j: int|
                    0 <= j < i ==> (#[trigger] out@[j]).dependencies@
                        == self.vec@[j].dependencies@,
            decreases self.vec@.len() - i,
        {
            out.push(self.vec[i].clone());
            i = i + 1;
        }
        out
    }

    /// Appends one want-set and advances the age by exactly one. The
    /// recorded history is never rewritten.
    pub fn update(&mut self, list: PackageList)
        requires
            old(self).wf(),
        ensures
            final(self).wf(),
            final(self).vec@ == old(self).vec@.push(list),
            final(self).age == old(self).age + 1,
    {
        let n = self.vec.len();
        self.vec.push(list);
        self.age = n;
    }
}

/// One named configuration: its identity and its append-only history.
#[derive(Debug)]
pub struct Configuration {
    pub archive: String,
    pub inner: InnerConfiguration,
}

impl Configuration {
    pub open spec fn wf(&self) -> bool {
        self.inner.wf()
    }

    /// Starts a chain with one want-set. A chain is born at age zero.
    pub fn new(list: PackageList, archive: String, age: usize) -> (r: Configuration)
        requires
            age == 0,
        ensures
            r.archive == archive,
            r.inner.vec@.len() == 1,
            r.inner.vec@[0] == list,
            r.inner.age == 0,
            r.wf(),
    {
        let mut vec: Vec<PackageList> = Vec::new();
        vec.push(list);
        Configuration { archive, inner: InnerConfiguration { vec, age } }
    }

    /// The history and age of this chain.
    pub fn inner(&self) -> (r: &InnerConfiguration)
        ensures
            *r == self.inner,
    {
        &self.inner
    }
}

/// How one package of a want-set is re-resolved during an update.
#[derive(Clone, Copy, Debug)]
pub enum VersionMode {
    Latest,
    Specific(VersionWrapper),
}

/// One per-package override of a partial update.
#[derive(Debug)]
pub struct UpdateOverride {
    pub archive: String,
    pub mode: VersionMode,
}

/// The update policy: re-resolve everything to the latest known version,
/// or only the named packages, carrying the rest over unchanged.
#[derive(Debug)]
pub enum ConfigurationUpdateMode {
    AllUpdateLatest,
    PartialUpdate(Vec<UpdateOverride>),
}

/// The first override for `name`, if any.
pub open spec fn first_override(ov: Seq<UpdateOverride>, name: Seq<char>) -> Option<VersionMode>
    decreases ov.len(),
{
    if ov.len() == 0 {
        None
    } else if ov[0].archive@ == name {
        Some(ov[0].mode)
    } else {
        first_override(ov.drop_first(), name)
    }
}

/// The mode an update applies to the package called `name`.
pub open spec fn effective_mode(mode: ConfigurationUpdateMode, name: Seq<char>) -> Option<
    VersionMode,
> {
    match mode {
        ConfigurationUpdateMode::AllUpdateLatest => Some(VersionMode::Latest),
        ConfigurationUpdateMode::PartialUpdate(ov) => first_override(ov@, name),
    }
}

proof fn lemma_first_override_at(ov: Seq<UpdateOverride>, name: Seq<char>, k: int)
    requires
        0 <= k < ov.len(),
        ov[k].archive@ == name,
        forall|j: int| 0 <= j < k ==> (#[trigger] ov[j]).archive@ != name,
    ensures
        first_override(ov, name) == Some(ov[k].mode),
    decreases k,
{
    if k == 0 {
    } else {
        assert(ov[0].archive@ != name);
        assert forall|j: int| 0 <= j < k - 1 implies (#[trigger] ov.drop_first()[j]).archive@
            != name by {
            assert(ov.drop_first()[j] == ov[j + 1]);
        }
        assert(ov.drop_first()[k - 1] == ov[k]);
        lemma_first_override_at(ov.drop_first(), name, k - 1);
    }
}

proof fn lemma_first_override_none(ov: Seq<UpdateOverride>, name: Seq<char>)
    requires
        forall|j: int| 0 <= j < ov.len() ==> (#[trigger] ov[j]).archive@ != name,
    ensures
        first_override(ov, name) is None,
    decreases ov.len(),
{
    if ov.len() > 0 {
        assert forall|j: int| 0 <= j < ov.drop_first().len() implies (
        #[trigger] ov.drop_first()[j]).archive@ != name by {
            assert(ov.drop_first()[j] == ov[j + 1]);
        }
        lemma_first_override_none(ov.drop_first(), name);
    }
}

/// `v` is the newest version the catalogue offers under `name`.
pub open spec fn is_latest_of(p: DependencyProvider, name: Seq<char>, v: VersionWrapper) -> bool {
    &&& p.spec_contains((name, v))
    &&& forall|i: int|
        0 <= i < p.entries@.len() && (#[trigger] p.entries@[i].package.archive@) == name
            ==> version_le(p.entries@[i].package.version_wrapper, v)
}

/// The catalogue offers no version at all under `name`.
pub open spec fn no_version_of(p: DependencyProvider, name: Seq<char>) -> bool {
    forall|i: int| 0 <= i < p.entries@.len() ==> (#[trigger] p.entries@[i].package.archive@) != name
}

/// `n` is what the update policy turns the want-set member `o` into.
pub open spec fn updated_elem_ok(
    p: DependencyProvider,
    mode: ConfigurationUpdateMode,
    o: Dependency,
    n: Dependency,
) -> bool {
    match effective_mode(mode, o.archive@) {
        None => n@ == o@,
        Some(VersionMode::Specific(v)) => n@ == (o.archive@, v),
        Some(VersionMode::Latest) => n.archive@ == o.archive@ && is_latest_of(
            p,
            o.archive@,
            n.version_wrapper,
        ),
    }
}

/// The update policy asks for the latest version of some member whose name
/// the catalogue does not offer at all.
pub open spec fn update_needs_missing_latest(
    p: DependencyProvider,
    mode: ConfigurationUpdateMode,
    head: Seq<Dependency>,
) -> bool {
    exists|i: int|
        0 <= i < head.len() && effective_mode(mode, (#[trigger] head[i]).archive@) == Some(
            VersionMode::Latest,
        ) && no_version_of(p, head[i].archive@)
}

/// The stateless policy engine that derives a new want-set from a chain's
/// current head. It never touches the chain itself.
#[derive(Debug)]
pub struct ConfigurationUpdateUnit;

/// The policy engine, freshly made; it holds no state.
pub fn configuration_update_unit() -> (r: ConfigurationUpdateUnit) {
    ConfigurationUpdateUnit
}

impl ConfigurationUpdateUnit {
    pub fn new() -> (r: ConfigurationUpdateUnit) {
        ConfigurationUpdateUnit
    }

    /// The first override whose name matches, as the policy prescribes.
    fn find_override(ovs: &Vec<UpdateOverride>, name: &String) -> (r: Option<VersionMode>)
        ensures
            r == first_override(ovs@, name@),
    {
        let mut k: usize = 0;
        while k < ovs.len()
            invariant
                0 <= k <= ovs@.len(),
                forall|j: int| 0 <= j < k ==> (#[trigger] ovs@[j]).archive@ != name@,
            decreases ovs@.len() - k,
        {
            if ovs[k].archive == *name {
                proof {
                    lemma_first_override_at(ovs@, name@, k as int);
                }
                return Some(ovs[k].mode);
            }
            k = k + 1;
        }
        proof {
            lemma_first_override_none(ovs@, name@);
        }
        None
    }

    /// Applies an override list to one member of the head.
    fn resolve_one(
        dep: &Dependency,
        mode: &ConfigurationUpdateMode,
        provider: &DependencyProvider,
    ) -> (r: Result<Dependency, ConfigurationManagerError>)
        ensures
            match r {
                Ok(n) => updated_elem_ok(*provider, *mode, *dep, n),
                Err(e) => e matches ConfigurationManagerError::ConfigurationUpdateFailed
                    && effective_mode(*mode, dep.archive@) == Some(VersionMode::Latest)
                    && no_version_of(*provider, dep.archive@),
            },
    {
        let chosen: Option<VersionMode> = match mode {
            ConfigurationUpdateMode::AllUpdateLatest => Some(VersionMode::Latest),
            ConfigurationUpdateMode::PartialUpdate(ovs) => Self::find_override(ovs, &dep.archive),
        };
        proof {
            assert(chosen == effective_mode(*mode, dep.archive@));
        }
        match chosen {
            None => Ok(dep.clone()),
            Some(VersionMode::Specific(v)) => Ok(
                Dependency { archive: dep.archive.clone(), version_wrapper: v },
            ),
            Some(VersionMode::Latest) => {
                match provider.latest_version(&dep.archive) {
                    Some(v) => Ok(Dependency { archive: dep.archive.clone(), version_wrapper: v }),
                    None => Err(ConfigurationManagerError::ConfigurationUpdateFailed),
                }
            },
        }
    }

    /// Derives the want-set that an update with `mode` would append to the
    /// chain, from its current head. Fails only when a needed latest
    /// version does not exist in the catalogue.
    pub fn get_new_configuration(
        &self,
        configuration: &Configuration,
        mode: &ConfigurationUpdateMode,
        provider: &DependencyProvider,
    ) -> (r: Result<PackageList, ConfigurationManagerError>)
        requires
            configuration.wf(),
        ensures
            ({
                let head = configuration.inner.vec@.last().dependencies@;
                match r {
                    Ok(l) => l.dependencies@.len() == head.len() && forall|i: int|
                        0 <= i < head.len() ==> updated_elem_ok(
                            *provider,
                            *mode,
                            head[i],
                            #[trigger] l.dependencies@[i],
                        ),
                    Err(e) => e matches ConfigurationManagerError::ConfigurationUpdateFailed
                        && update_needs_missing_latest(*provider, *mode, head),
                }
            }),
    {
        let head = &configuration.inner.vec[configuration.inner.vec.len() - 1];
        let ghost hd = configuration.inner.vec@.last().dependencies@;
        let mut out: Vec<Dependency> = Vec::new();
        let mut i: usize = 0;
        while i < head.dependencies.len()
            invariant
                0 <= i <= hd.len(),
                hd == head.dependencies@,
                head.dependencies@ == configuration.inner.vec@.last().dependencies@,
                out@.len() == i,
                forall|j: int|
                    0 <= j < i ==> updated_elem_ok(
                        *provider,
                        *mode,
                        hd[j],
                        #[trigger] out@[j],
                    ),
            decreases hd.len() - i,
        {
            match Self::resolve_one(&head.dependencies[i], mode, provider) {
                Ok(n) => {
                    out.push(n);
                },
                Err(e) => {
                    proof {
                        assert(effective_mode(*mode, hd[i as int].archive@) == Some(
                            VersionMode::Latest,
                        ) && no_version_of(*provider, hd[i as int].archive@));
                    }
                    return Err(e);
                },
            }
            i = i + 1;
        }
        Ok(PackageList { dependencies: out })
    }
}

/// The registry of configuration chains, keyed by name.
#[derive(Debug)]
pub struct ConfigurationManager {
    pub configurations: Vec<Configuration>,
}

impl ConfigurationManager {
    /// One chain per name, each well formed.
    pub open spec fn wf(&self) -> bool {
        &&& forall|i: int, j: int|
            0 <= i < self.configurations@.len() && 0 <= j < self.configurations@.len() && (
            #[trigger] self.configurations@[i]).archive@ == (
            #[trigger] self.configurations@[j]).archive@ ==> i == j
        &&& forall|i: int|
            0 <= i < self.configurations@.len() ==> (#[trigger] self.configurations@[i]).wf()
    }

    /// The registry holds a chain called `name`.
    pub open spec fn spec_contains(&self, name: Seq<char>) -> bool {
        exists|i: int|
            0 <= i < self.configurations@.len() && (#[trigger] self.configurations@[i]).archive@
                == name
    }

    /// The index of the chain called `name`.
    pub open spec fn chain_index_of(&self, name: Seq<char>) -> int {
        choose|i: int|
            0 <= i < self.configurations@.len() && (#[trigger] self.configurations@[i]).archive@
                == name
    }

    pub fn new() -> (r: ConfigurationManager)
        ensures
            r.configurations@.len() == 0,
            r.wf(),
    {
        ConfigurationManager { configurations: Vec::new() }
    }

    fn find_chain(&self, name: &String) -> (r: Option<usize>)
        ensures
            match r {
                Some(i) => i < self.configurations@.len() && self.configurations@[i as int].archive@
                    == name@,
                None => !self.spec_contains(name@),
            },
    {
        let mut i: usize = 0;
        while i < self.configurations.len()
            invariant
                0 <= i <= self.configurations@.len(),
                forall|j: int|
                    0 <= j < i ==> (#[trigger] self.configurations@[j]).archive@ != name@,
            decreases self.configurations@.len() - i,
        {
            if self.configurations[i].archive == *name {
                return Some(i);
            }
            i = i + 1;
        }
        None
    }

    /// Adds a brand-new chain; a name already chained is refused.
    pub fn insert(&mut self, configuration: Configuration) -> (r: Result<
        (),
        ConfigurationManagerError,
    >)
        requires
            old(self).wf(),
            configuration.wf(),
        ensures
            final(self).wf(),
            match r {
                Ok(()) => !old(self).spec_contains(configuration.archive@) && final(self).configurations@ == old(self).configurations@.push(configuration),
                Err(e) => old(self).spec_contains(configuration.archive@) && final(self).configurations@ == old(self).configurations@ && e
                    matches ConfigurationManagerError::DuplicateConfiguration,
            },
    {
        match self.find_chain(&configuration.archive) {
            Some(i) => {
                proof {
                    assert(self.spec_contains(configuration.archive@));
                }
                Err(ConfigurationManagerError::DuplicateConfiguration)
            },
            None => {
                let ghost pre = self.configurations@;
                self.configurations.push(configuration);
                proof {
                    assert forall|i: int, j: int|
                        0 <= i < self.configurations@.len() && 0 <= j
                            < self.configurations@.len() && (
                        #[trigger] self.configurations@[i]).archive@ == (
                        #[trigger] self.configurations@[j]).archive@ implies i == j by {
                        if i < pre.len() {
                            assert(self.configurations@[i] == pre[i]);
                        }
                        if j < pre.len() {
                            assert(self.configurations@[j] == pre[j]);
                        }
                        if i != j {
                            if i == pre.len() {
                                assert(old(self).spec_contains(
                                    self.configurations@[i].archive@,
                                ));
                            } else if j == pre.len() {
                                assert(old(self).spec_contains(
                                    self.configurations@[j].archive@,
                                ));
                            }
                        }
                    }
                    assert forall|i: int| 0 <= i < self.configurations@.len() implies (
                    #[trigger] self.configurations@[i]).wf() by {
                        if i < pre.len() {
                            assert(self.configurations@[i] == pre[i]);
                        }
                    }
                }
                Ok(())
            },
        }
    }

    /// Removes the chain with the name of `configuration`. The caller must
    /// already have released the references its current want-set held.
    pub fn delete(&mut self, configuration: Configuration) -> (r: Result<
        (),
        ConfigurationManagerError,
    >)
        requires
            old(self).wf(),
        ensures
            final(self).wf(),
            match r {
                Ok(()) => old(self).spec_contains(configuration.archive@) && !final(self).spec_contains(configuration.archive@) && final(self).configurations@.len() == old(
                    self,
                ).configurations@.len() - 1 && forall|n: Seq<char>|
                    n != configuration.archive@ ==> final(self).spec_contains(n) == old(
                        self,
                    ).spec_contains(n),
                Err(e) => !old(self).spec_contains(configuration.archive@) && final(self).configurations@ == old(self).configurations@ && (e
                    matches ConfigurationManagerError::ConfigurationNotFound(s) && s@
                    == configuration.archive@),
            },
    {
        match self.find_chain(&configuration.archive) {
            None => Err(
                ConfigurationManagerError::ConfigurationNotFound(configuration.archive),
            ),
            Some(i) => {
                let ghost pre = self.configurations@;
                proof {
                    assert(self.spec_contains(configuration.archive@));
                }
                self.configurations.remove(i);
                proof {
                    let post = self.configurations@;
                    assert(post == pre.remove(i as int));
                    assert forall|a: int| 0 <= a < post.len() implies post[a] == (if a < i {
                        pre[a]
                    } else {
                        pre[a + 1]
                    }) by {
                        if a < i {
                            assert(post[a] == pre.subrange(0, i as int)[a]);
                        } else {
                            assert(post[a] == pre.subrange(i + 1, pre.len() as int)[a - i]);
                        }
                    }
                    assert forall|a: int, b: int|
                        0 <= a < post.len() && 0 <= b < post.len() && (
                        #[trigger] post[a]).archive@ == (#[trigger] post[b]).archive@ implies a
                        == b by {
                        let a0: int = if a < i { a } else { a + 1 };
                        let b0: int = if b < i { b } else { b + 1 };
                        assert(post[a] == pre[a0]);
                        assert(post[b] == pre[b0]);
                        assert(pre[a0].archive@ == pre[b0].archive@);
                    }
                    assert forall|a: int| 0 <= a < post.len() implies (
                    #[trigger] post[a]).wf() by {
                        let a0: int = if a < i { a } else { a + 1 };
                        assert(post[a] == pre[a0]);
                    }
                    assert(!self.spec_contains(configuration.archive@)) by {
                        if self.spec_contains(configuration.archive@) {
                            let w = choose|w: int|
                                0 <= w < post.len() && (#[trigger] post[w]).archive@
                                    == configuration.archive@;
                            let w0: int = if w < i { w } else { w + 1 };
                            assert(post[w] == pre[w0]);
                            assert(pre[i as int].archive@ == configuration.archive@);
                            assert(w0 == i);
                        }
                    }
                    assert forall|n: Seq<char>| n != configuration.archive@ implies (
                    self.spec_contains(n) == old(self).spec_contains(n)) by {
                        if old(self).spec_contains(n) {
                            let w = choose|w: int|
                                0 <= w < pre.len() && (#[trigger] pre[w]).archive@ == n;
                            assert(w != i) by {
                                assert(pre[i as int].archive@ == configuration.archive@);
                            }
                            let w1: int = if w < i { w } else { w - 1 };
                            assert(post[w1] == pre[w]);
                            assert(self.spec_contains(n));
                        }
                        if self.spec_contains(n) {
                            let w = choose|w: int|
                                0 <= w < post.len() && (#[trigger] post[w]).archive@ == n;
                            let w0: int = if w < i { w } else { w + 1 };
                            assert(post[w] == pre[w0]);
                            assert(old(self).spec_contains(n));
                        }
                    }
                }
                Ok(())
            },
        }
    }

    /// The scheduler's commit step: appends the want-set to the chain
    /// called `archive`, or starts that chain when none exists yet.
    pub fn commit(&mut self, archive: String, list: PackageList)
        requires
            old(self).wf(),
        ensures
            final(self).wf(),
            !old(self).spec_contains(archive@) ==> {
                &&& final(self).configurations@.len() == old(self).configurations@.len() + 1
                &&& forall|j: int|
                    0 <= j < old(self).configurations@.len() ==> (#[trigger] final(self).configurations@[j]) == old(self).configurations@[j]
                &&& final(self).configurations@.last().archive@ == archive@
                &&& final(self).configurations@.last().inner.vec@.len() == 1
                &&& final(self).configurations@.last().inner.vec@[0] == list
                &&& final(self).configurations@.last().inner.age == 0
            },
            old(self).spec_contains(archive@) ==> ({
                let ix = old(self).chain_index_of(archive@);
                let oldc = old(self).configurations@[ix];
                let newc = final(self).configurations@[ix];
                &&& final(self).configurations@.len() == old(self).configurations@.len()
                &&& forall|j: int|
                    0 <= j < old(self).configurations@.len() && j != ix ==> (#[trigger] final(self).configurations@[j]) == old(self).configurations@[j]
                &&& newc.archive@ == archive@
                &&& newc.inner.vec@ == oldc.inner.vec@.push(list)
                &&& newc.inner.age == oldc.inner.age + 1
            }),
    {
        match self.find_chain(&archive) {
            None => {
                let chain = Configuration::new(list, archive, 0);
                let ghost pre = self.configurations@;
                self.configurations.push(chain);
                proof {
                    assert forall|i: int, j: int|
                        0 <= i < self.configurations@.len() && 0 <= j
                            < self.configurations@.len() && (
                        #[trigger] self.configurations@[i]).archive@ == (
                        #[trigger] self.configurations@[j]).archive@ implies i == j by {
                        if i < pre.len() {
                            assert(self.configurations@[i] == pre[i]);
                        }
                        if j < pre.len() {
                            assert(self.configurations@[j] == pre[j]);
                        }
                        if i != j {
                            if i == pre.len() {
                                assert(old(self).spec_contains(
                                    self.configurations@[j].archive@,
                                ));
                            } else if j == pre.len() {
                                assert(old(self).spec_contains(
                                    self.configurations@[i].archive@,
                                ));
                            }
                        }
                    }
                    assert forall|i: int| 0 <= i < self.configurations@.len() implies (
                    #[trigger] self.configurations@[i]).wf() by {
                        if i < pre.len() {
                            assert(self.configurations@[i] == pre[i]);
                        }
                    }
                }
            },
            Some(ix) => {
                proof {
                    assert(self.spec_contains(archive@));
                    let w = self.chain_index_of(archive@);
                    assert(0 <= w < self.configurations@.len() && self.configurations@[w].archive@
                        == archive@);
                    assert(w == ix as int);
                }
                let ghost pre = self.configurations@;
                let chain = &mut self.configurations[ix];
                chain.inner.update(list);
                proof {
                    assert forall|j: int|
                        0 <= j < pre.len() && j != ix as int implies self.configurations@[j]
                            == pre[j] by {}
                    assert(self.wf()) by {
                        assert forall|i: int, j: int|
                            0 <= i < self.configurations@.len() && 0 <= j
                                < self.configurations@.len() && (
                            #[trigger] self.configurations@[i]).archive@ == (
                            #[trigger] self.configurations@[j]).archive@ implies i == j by {
                            assert(pre[i].archive@ == self.configurations@[i].archive@);
                            assert(pre[j].archive@ == self.configurations@[j].archive@);
                        }
                        assert forall|i: int| 0 <= i < self.configurations@.len() implies (
                        #[trigger] self.configurations@[i]).wf() by {
                            if i != ix as int {
                                assert(self.configurations@[i] == pre[i]);
                            }
                        }
                    }
                }
            },
        }
    }

    /// Applies an update policy to the chain called `archive`: computes the
    /// new want-set from the current head, appends it to the chain, and
    /// returns it for the caller to install and reference-count.
    pub fn update(
        &mut self,
        archive: String,
        mode: ConfigurationUpdateMode,
        provider: &DependencyProvider,
    ) -> (r: Result<PackageList, ConfigurationManagerError>)
        requires
            old(self).wf(),
        ensures
            final(self).wf(),
            final(self).configurations@.len() == old(self).configurations@.len(),
            match r {
                Ok(l) => ({
                    let ix = old(self).chain_index_of(archive@);
                    let oldc = old(self).configurations@[ix];
                    let newc = final(self).configurations@[ix];
                    let head = oldc.inner.vec@.last().dependencies@;
                    &&& old(self).spec_contains(archive@)
                    &&& forall|j: int|
                        0 <= j < old(self).configurations@.len() && j != ix ==> final(self).configurations@[j] == old(self).configurations@[j]
                    &&& newc.archive@ == archive@
                    &&& newc.inner.vec@.len() == oldc.inner.vec@.len() + 1
                    &&& forall|t: int|
                        0 <= t < oldc.inner.vec@.len() ==> (#[trigger] newc.inner.vec@[t])
                            == oldc.inner.vec@[t]
                    &&& newc.inner.vec@.last().dependencies@ == l.dependencies@
                    &&& newc.inner.age == oldc.inner.age + 1
                    &&& l.dependencies@.len() == head.len()
                    &&& forall|t: int|
                        0 <= t < head.len() ==> updated_elem_ok(
                            *provider,
                            mode,
                            head[t],
                            #[trigger] l.dependencies@[t],
                        )
                }),
                Err(ConfigurationManagerError::ConfigurationNotFound(s)) => s@ == archive@
                    && !old(self).spec_contains(archive@) && final(self).configurations@ == old(
                    self,
                ).configurations@,
                Err(ConfigurationManagerError::ConfigurationUpdateFailed) => old(
                    self,
                ).spec_contains(archive@) && final(self).configurations@ == old(
                    self,
                ).configurations@ && update_needs_missing_latest(
                    *provider,
                    mode,
                    old(self).configurations@[old(self).chain_index_of(
                        archive@,
                    )].inner.vec@.last().dependencies@,
                ),
                Err(_) => false,
            },
    {
        let ix = match self.find_chain(&archive) {
            None => {
                return Err(ConfigurationManagerError::ConfigurationNotFound(archive));
            },
            Some(i) => i,
        };
        proof {
            assert(self.spec_contains(archive@));
            let w = self.chain_index_of(archive@);
            assert(0 <= w < self.configurations@.len() && self.configurations@[w].archive@
                == archive@);
            assert(w == ix as int);
        }
        let unit = ConfigurationUpdateUnit::new();
        let list = match unit.get_new_configuration(
            &self.configurations[ix],
            &mode,
            provider,
        ) {
            Ok(l) => l,
            Err(e) => {
                return Err(e);
            },
        };
        let stored = list.clone();
        let ghost pre = self.configurations@;
        let chain = &mut self.configurations[ix];
        chain.inner.update(stored);
        proof {
            assert forall|j: int|
                0 <= j < pre.len() && j != ix as int implies self.configurations@[j] == pre[j] by {}
            assert(self.configurations@[ix as int].archive@ == archive@);
            assert(self.wf()) by {
                assert forall|i: int, j: int|
                    0 <= i < self.configurations@.len() && 0 <= j < self.configurations@.len()
                        && (#[trigger] self.configurations@[i]).archive@ == (
                    #[trigger] self.configurations@[j]).archive@ implies i == j by {
                    assert(pre[i].archive@ == self.configurations@[i].archive@);
                    assert(pre[j].archive@ == self.configurations@[j].archive@);
                }
                assert forall|i: int| 0 <= i < self.configurations@.len() implies (
                #[trigger] self.configurations@[i]).wf() by {
                    if i != ix as int {
                        assert(self.configurations@[i] == pre[i]);
                    }
                }
            }
        }
        Ok(list)
    }
}

} // verus!
