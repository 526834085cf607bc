//! The software lifecycle manager: the registry of installed entries, the
//! dependency resolver (cycle detection and dependency-first install
//! orders), reference counting, and cascading garbage collection.

use vstd::prelude::*;
use crate::version::VersionWrapper;
use crate::dependency::{Dependency, PackageList};
use crate::software::{Software, SoftwareStatus};
use crate::provider::DependencyProvider;
use crate::package_manager::PackageManager;
use crate::errors::SoftwareManagerError;

verus! {

/// The key `k` occurs in the dependency list `s`.
pub open spec fn key_in(s: Seq<Dependency>, k: (Seq<char>, VersionWrapper)) -> bool {
    exists|i: int| 0 <= i < s.len() && (#[trigger] s[i])@ == k
}

/// The keys of a dependency list, in order.
pub open spec fn keys_of(s: Seq<Dependency>) -> Seq<(Seq<char>, VersionWrapper)> {
    s.map_values(|d: Dependency| d@)
}

/// `c` is a genuine dependency cycle of the catalogue: consecutive
/// elements are direct dependencies, and the last points back to the first.
pub open spec fn cycle_in(p: DependencyProvider, c: Seq<Dependency>) -> bool {
    &&& c.len() >= 1
    &&& forall|i: int| 0 <= i < c.len() ==> p.spec_contains((#[trigger] c[i])@)
    &&& forall|i: int| 0 <= i < c.len() - 1 ==> #[trigger] p.deps_of(c[i]@).contains(c[i + 1]@)
    &&& p.deps_of(c[c.len() - 1]@).contains(c[0]@)
}

/// A walk through the catalogue that never passes through an already
/// available entry: consecutive elements are direct dependencies.
pub open spec fn reach_chain(
    sm: SoftwareManager,
    p: DependencyProvider,
    ch: Seq<(Seq<char>, VersionWrapper)>,
) -> bool {
    &&& ch.len() >= 1
    &&& forall|i: int|
        0 <= i < ch.len() - 1 ==> p.spec_contains(#[trigger] ch[i]) && p.deps_of(ch[i]).contains(
            ch[i + 1],
        )
    &&& forall|i: int| 0 <= i < ch.len() ==> !sm.is_available(#[trigger] ch[i])
}

/// `to` lies in the dependency closure of `from`, short of available
/// entries.
pub open spec fn reaches(
    sm: SoftwareManager,
    p: DependencyProvider,
    from: (Seq<char>, VersionWrapper),
    to: (Seq<char>, VersionWrapper),
) -> bool {
    exists|ch: Seq<(Seq<char>, VersionWrapper)>|
        #[trigger] reach_chain(sm, p, ch) && ch[0] == from && ch.last() == to
}

/// A node short of availability reaches itself.
pub proof fn lemma_reach_self(
    sm: SoftwareManager,
    p: DependencyProvider,
    k: (Seq<char>, VersionWrapper),
)
    requires
        !sm.is_available(k),
    ensures
        reaches(sm, p, k, k),
{
    let ch = seq![k];
    assert(ch[0] == k);
    assert(ch.last() == k);
    assert(reach_chain(sm, p, ch));
}

/// Prefixing one catalogue edge extends a walk.
pub proof fn lemma_reach_prepend(
    sm: SoftwareManager,
    p: DependencyProvider,
    from: (Seq<char>, VersionWrapper),
    mid: (Seq<char>, VersionWrapper),
    to: (Seq<char>, VersionWrapper),
)
    requires
        p.spec_contains(from),
        !sm.is_available(from),
        p.deps_of(from).contains(mid),
        reaches(sm, p, mid, to),
    ensures
        reaches(sm, p, from, to),
{
    let ch = choose|ch: Seq<(Seq<char>, VersionWrapper)>|
        #[trigger] reach_chain(sm, p, ch) && ch[0] == mid && ch.last() == to;
    let ch2 = seq![from] + ch;
    assert(ch2[0] == from);
    assert(ch2.last() == to);
    assert forall|i: int|
        0 <= i < ch2.len() - 1 implies p.spec_contains(#[trigger] ch2[i]) && p.deps_of(
        ch2[i],
    ).contains(ch2[i + 1]) by {
        if i == 0 {
            assert(ch2[0] == from);
            assert(ch2[1] == ch[0]);
        } else {
            assert(ch2[i] == ch[i - 1]);
            assert(ch2[i + 1] == ch[i]);
        }
    }
    assert forall|i: int| 0 <= i < ch2.len() implies !sm.is_available(#[trigger] ch2[i]) by {
        if i > 0 {
            assert(ch2[i] == ch[i - 1]);
        }
    }
    assert(reach_chain(sm, p, ch2));
}

/// Some member of the want-set reaches `to` through the catalogue.
pub open spec fn root_reaches(
    sm: SoftwareManager,
    p: DependencyProvider,
    roots: Seq<Dependency>,
    to: (Seq<char>, VersionWrapper),
) -> bool {
    exists|i: int| 0 <= i < roots.len() && reaches(sm, p, (#[trigger] roots[i])@, to)
}

/// The registry of installed software entries, owner of every entry's
/// reference count and status.
#[derive(Debug)]
pub struct SoftwareManager {
    pub softwares: Vec<Software>,
}

impl SoftwareManager {
    /// At most one live entry per (name, version), and a removed entry
    /// holds no references.
    pub open spec fn wf(&self) -> bool {
        &&& forall|i: int, j: int|
            0 <= i < self.softwares@.len() && 0 <= j < self.softwares@.len() && (
            #[trigger] self.softwares@[i])@.is_live() && (#[trigger] self.softwares@[j])@.is_live()
                && self.softwares@[i]@.key() == self.softwares@[j]@.key() ==> i == j
        &&& forall|i: int|
            0 <= i < self.softwares@.len() ==> ((#[trigger] self.softwares@[i])@.status
                == SoftwareStatus::Removed ==> self.softwares@[i]@.reference_count == 0)
    }

    /// The registry holds an `Available` entry for `k`.
    pub open spec fn is_available(&self, k: (Seq<char>, VersionWrapper)) -> bool {
        exists|i: int|
            0 <= i < self.softwares@.len() && (#[trigger] self.softwares@[i])@.key() == k
                && self.softwares@[i]@.status == SoftwareStatus::Available
    }

    /// The registry holds a live entry for `k`.
    pub open spec fn is_live_key(&self, k: (Seq<char>, VersionWrapper)) -> bool {
        exists|i: int|
            0 <= i < self.softwares@.len() && (#[trigger] self.softwares@[i])@.key() == k
                && self.softwares@[i]@.is_live()
    }

    /// A correct resolution result against this registry and catalogue:
    /// no duplicates, nothing already available, every listed package known
    /// to the catalogue, and every direct dependency of a listed package
    /// either already available or listed earlier (dependency-first).
    pub open spec fn resolved_good(
        &self,
        p: DependencyProvider,
        order: Seq<Dependency>,
    ) -> bool {
        &&& keys_of(order).no_duplicates()
        &&& forall|i: int|
            0 <= i < order.len() ==> p.spec_contains((#[trigger] order[i])@) && !self.is_available(
                order[i]@,
            )
        &&& forall|i: int, q: (Seq<char>, VersionWrapper)|
            0 <= i < order.len() && #[trigger] p.deps_of(order[i]@).contains(q)
                ==> self.is_available(q) || exists|j: int| 0 <= j < i && (#[trigger] order[j])@ == q
    }

    /// A well-formed traversal stack: distinct, unresolved, known nodes
    /// forming a chain of direct dependencies.
    pub open spec fn stack_good(&self, p: DependencyProvider, st: Seq<Dependency>) -> bool {
        &&& keys_of(st).no_duplicates()
        &&& forall|i: int|
            0 <= i < st.len() ==> p.spec_contains((#[trigger] st[i])@) && !self.is_available(
                st[i]@,
            )
        &&& forall|i: int|
            0 <= i < st.len() - 1 ==> #[trigger] p.deps_of(st[i]@).contains(st[i + 1]@)
    }

    pub fn new() -> (r: SoftwareManager)
        ensures
            r.softwares@.len() == 0,
            r.wf(),
    {
        SoftwareManager { softwares: Vec::new() }
    }

    /// Whether the registry holds an `Available` entry for `d`.
    pub fn contains_available(&self, d: &Dependency) -> (r: bool)
        ensures
            r == self.is_available(d@),
    {
        let mut i: usize = 0;
        while i < self.softwares.len()
            invariant
                0 <= i <= self.softwares@.len(),
                forall|j: int|
                    0 <= j < i ==> !((#[trigger] self.softwares@[j])@.key() == d@
                        && self.softwares@[j]@.status == SoftwareStatus::Available),
            decreases self.softwares@.len() - i,
        {
            let s = &self.softwares[i];
            if s.archive == d.archive && s.version == d.version_wrapper && matches!(
                s.inner.status,
                SoftwareStatus::Available,
            ) {
                assert(self.softwares@[i as int]@.key() == d@);
                return true;
            }
            proof {
                assert(!(self.softwares@[i as int]@.key() == d@ && self.softwares@[i as int]@.status
                    == SoftwareStatus::Available));
            }
            i = i + 1;
        }
        false
    }

    /// The direct dependency list of `dep`, as the information source
    /// supplies it; `SoftwareNotFound` when the source does not know `dep`.
    pub fn get_dep(provider: &DependencyProvider, dep: &Dependency) -> (r: Result<
        Vec<Dependency>,
        SoftwareManagerError,
    >)
        requires
            provider.wf(),
        ensures
            match r {
                Ok(v) => provider.spec_contains(dep@) && keys_of(v@) == provider.deps_of(dep@),
                Err(e) => !provider.spec_contains(dep@) && (e
                    matches SoftwareManagerError::SoftwareNotFound(d) && d@ == dep@),
            },
    {
        match provider.get_depends(dep) {
            Some(v) => Ok(v),
            None => Err(SoftwareManagerError::SoftwareNotFound(dep.clone())),
        }
    }

    /// The index of the first (and, on a well-formed stack, only) element
    /// of `v` with the key of `d`.
    fn find_key(v: &Vec<Dependency>, d: &Dependency) -> (r: Option<usize>)
        ensures
            match r {
                Some(i) => i < v@.len() && v@[i as int]@ == d@ && forall|j: int|
                    0 <= j < i ==> (#[trigger] v@[j])@ != d@,
                None => !key_in(v@, d@),
            },
    {
        let mut i: usize = 0;
        while i < v.len()
            invariant
                0 <= i <= v@.len(),
                forall|j: int| 0 <= j < i ==> (#[trigger] v@[j])@ != d@,
            decreases v@.len() - i,
        {
            if v[i].key_eq(d) {
                return Some(i);
            }
            i = i + 1;
        }
        None
    }

    /// Bounds the stack by the catalogue: distinct keys all drawn from the
    /// catalogue cannot outnumber its records.
    proof fn lemma_stack_le_provider(p: DependencyProvider, st: Seq<Dependency>)
        requires
            keys_of(st).no_duplicates(),
            forall|i: int| 0 <= i < st.len() ==> p.spec_contains((#[trigger] st[i])@),
        ensures
            st.len() <= p.entries@.len(),
    {
        broadcast use vstd::seq_lib::seq_to_set_is_finite;

        let ks = keys_of(st);
        let ps = p.entries@.map_values(|e: crate::provider::ProviderEntry| e.package.key());
        assert(ks.len() == st.len());
        assert(ps.len() == p.entries@.len());
        ks.unique_seq_to_set();
        ps.lemma_cardinality_of_set();
        assert forall|k: (Seq<char>, VersionWrapper)| ks.to_set().contains(k) implies
            ps.to_set().contains(k) by {
            assert(ks.contains(k));
            let i = choose|i: int| 0 <= i < ks.len() && ks[i] == k;
            assert(st[i]@ == k);
            assert(p.spec_contains(k));
            let w = choose|w: int|
                0 <= w < p.entries@.len() && (#[trigger] p.entries@[w].package.key()) == k;
            assert(ps[w] == k);
            assert(ps.contains(k));
        }
        assert(ks.to_set().subset_of(ps.to_set()));
        vstd::set_lib::lemma_len_subset(ks.to_set(), ps.to_set());
    }

    /// Depth-first resolution of `dep`: skips what is available or already
    /// resolved, reports a cycle found on the stack, fetches the node's
    /// direct dependencies from the catalogue, resolves them, and only then
    /// appends the node itself, which makes the order dependency-first.
    fn dfs(
        &self,
        provider: &DependencyProvider,
        dep: &Dependency,
        path: &mut Vec<Dependency>,
        resolved: &mut Vec<Dependency>,
    ) -> (r: Result<(), SoftwareManagerError>)
        requires
            self.wf(),
            provider.wf(),
            self.stack_good(*provider, old(path)@),
            self.resolved_good(*provider, old(resolved)@),
            forall|k: (Seq<char>, VersionWrapper)|
                key_in(old(resolved)@, k) ==> !key_in(old(path)@, k),
            old(path)@.len() > 0 ==> provider.deps_of(old(path)@.last()@).contains(dep@),
        ensures
            match r {
                Ok(()) => {
                    &&& final(path)@ == old(path)@
                    &&& (self.is_available(dep@) || key_in(old(resolved)@, dep@))
                        ==> final(resolved)@ == old(resolved)@
                    &&& final(resolved)@.len() >= old(resolved)@.len()
                    &&& final(resolved)@.subrange(0, old(resolved)@.len() as int) == old(
                        resolved,
                    )@
                    &&& self.resolved_good(*provider, final(resolved)@)
                    &&& forall|k: (Seq<char>, VersionWrapper)|
                        key_in(final(resolved)@, k) ==> !key_in(old(path)@, k)
                    &&& self.is_available(dep@) || key_in(final(resolved)@, dep@)
                    &&& forall|t: int|
                        old(resolved)@.len() <= t < final(resolved)@.len() ==> reaches(
                            *self,
                            *provider,
                            dep@,
                            (#[trigger] final(resolved)@[t])@,
                        )
                },
                Err(SoftwareManagerError::CircularDependency(c)) => cycle_in(*provider, c@)
                    && keys_of(c@).no_duplicates() && forall|i: int|
                    0 <= i < c@.len() ==> !self.is_available((#[trigger] c@[i])@),
                Err(SoftwareManagerError::SoftwareNotFound(d)) => !provider.spec_contains(d@)
                    && !self.is_available(d@) && reaches(*self, *provider, dep@, d@),
                Err(_) => false,
            },
        decreases provider.entries@.len() - path@.len(),
    {
        if self.contains_available(dep) {
            return Ok(());
        }
        if let Some(_found) = Self::find_key(resolved, dep) {
            return Ok(());
        }
        if let Some(pos) = Self::find_key(path, dep) {
            // the stack from the repeated node to the top is the cycle
            let mut cycle: Vec<Dependency> = Vec::new();
            let mut k: usize = pos;
            while k < path.len()
                invariant
                    pos <= k <= path@.len(),
                    cycle@.len() == k - pos,
                    forall|j: int| 0 <= j < k - pos ==> cycle@[j] == path@[pos + j],
                decreases path@.len() - k,
            {
                cycle.push(path[k].clone());
                k = k + 1;
            }
            proof {
                assert(cycle@ =~= path@.subrange(pos as int, path@.len() as int));
                let c = cycle@;
                let st = path@;
                assert(c.len() >= 1);
                assert(c[0]@ == dep@);
                assert forall|i: int| 0 <= i < c.len() implies provider.spec_contains(
                    (#[trigger] c[i])@,
                ) && !self.is_available(c[i]@) by {
                    assert(c[i] == st[pos + i]);
                }
                assert forall|i: int| 0 <= i < c.len() - 1 implies #[trigger] provider.deps_of(
                    c[i]@,
                ).contains(c[i + 1]@) by {
                    assert(c[i] == st[pos + i]);
                    assert(c[i + 1] == st[pos + i + 1]);
                    assert(provider.deps_of(st[pos + i]@).contains(st[pos + i + 1]@));
                }
                assert(st.len() > 0);
                assert(c[c.len() - 1] == st[st.len() - 1]);
                assert(provider.deps_of(c[c.len() - 1]@).contains(dep@));
                assert(cycle_in(*provider, c));
                assert forall|a: int, b: int|
                    0 <= a < keys_of(c).len() && 0 <= b < keys_of(c).len() && a != b implies
                    keys_of(c)[a] != keys_of(c)[b] by {
                    assert(c[a] == st[pos + a]);
                    assert(c[b] == st[pos + b]);
                    assert(keys_of(st)[pos + a] == st[pos + a]@);
                    assert(keys_of(st)[pos + b] == st[pos + b]@);
                    assert(keys_of(st).no_duplicates());
                }
                assert(keys_of(c).no_duplicates());
            }
            return Err(SoftwareManagerError::CircularDependency(cycle));
        }
        let deps = match provider.get_depends(dep) {
            Some(v) => v,
            None => {
                proof {
                    lemma_reach_self(*self, *provider, dep@);
                }
                return Err(SoftwareManagerError::SoftwareNotFound(dep.clone()));
            },
        };
        let ghost pre_path = path@;
        let ghost pre_res = resolved@;
        path.push(dep.clone());
        proof {
            assert(path@ == pre_path.push(*dep));
            assert(keys_of(path@) =~= keys_of(pre_path).push(dep@));
            assert forall|a: int, b: int|
                0 <= a < keys_of(path@).len() && 0 <= b < keys_of(path@).len() && a != b implies
                keys_of(path@)[a] != keys_of(path@)[b] by {
                if a < keys_of(pre_path).len() && b < keys_of(pre_path).len() {
                    assert(keys_of(pre_path).no_duplicates());
                } else if a == keys_of(pre_path).len() {
                    assert(keys_of(path@)[a] == dep@);
                    assert(pre_path[b]@ != dep@);
                } else if b == keys_of(pre_path).len() {
                    assert(keys_of(path@)[b] == dep@);
                    assert(pre_path[a]@ != dep@);
                }
            }
            assert(keys_of(path@).no_duplicates());
            assert(self.stack_good(*provider, path@)) by {
                assert forall|i: int| 0 <= i < path@.len() implies provider.spec_contains(
                    (#[trigger] path@[i])@,
                ) && !self.is_available(path@[i]@) by {
                    if i < pre_path.len() {
                        assert(path@[i] == pre_path[i]);
                    } else {
                        assert(path@[i] == *dep);
                    }
                }
                assert forall|i: int| 0 <= i < path@.len() - 1 implies #[trigger] provider.deps_of(
                    path@[i]@,
                ).contains(path@[i + 1]@) by {
                    if i < pre_path.len() - 1 {
                        assert(path@[i] == pre_path[i]);
                        assert(path@[i + 1] == pre_path[i + 1]);
                        assert(provider.deps_of(pre_path[i]@).contains(pre_path[i + 1]@));
                    } else {
                        assert(path@[i] == pre_path.last());
                        assert(path@[i + 1] == *dep);
                    }
                }
            }
        }
        proof {
            assert(resolved@.subrange(0, pre_res.len() as int) =~= pre_res);
            assert forall|q: (Seq<char>, VersionWrapper)| key_in(resolved@, q) implies !key_in(
                path@,
                q,
            ) by {
                if key_in(path@, q) {
                    let v = choose|v: int| 0 <= v < path@.len() && (#[trigger] path@[v])@ == q;
                    if v < pre_path.len() {
                        assert(pre_path[v]@ == q);
                        assert(key_in(pre_path, q));
                    } else {
                        assert(q == dep@);
                        assert(!key_in(resolved@, dep@));
                    }
                }
            }
        }
        let mut k: usize = 0;
        while k < deps.len()
            invariant
                self.wf(),
                provider.wf(),
                0 <= k <= deps@.len(),
                pre_path == old(path)@,
                pre_res == old(resolved)@,
                keys_of(deps@) == provider.deps_of(dep@),
                provider.spec_contains(dep@),
                !self.is_available(dep@),
                path@ == pre_path.push(*dep),
                self.stack_good(*provider, path@),
                self.resolved_good(*provider, resolved@),
                resolved@.len() >= pre_res.len(),
                resolved@.subrange(0, pre_res.len() as int) == pre_res,
                forall|q: (Seq<char>, VersionWrapper)| key_in(resolved@, q) ==> !key_in(path@, q),
                forall|j: int|
                    0 <= j < k ==> self.is_available((#[trigger] deps@[j])@) || key_in(
                        resolved@,
                        deps@[j]@,
                    ),
                forall|t: int|
                    pre_res.len() <= t < resolved@.len() ==> reaches(
                        *self,
                        *provider,
                        dep@,
                        (#[trigger] resolved@[t])@,
                    ),
            decreases deps@.len() - k,
        {
            let ghost mid_res = resolved@;
            proof {
                Self::lemma_stack_le_provider(*provider, path@);
                assert(provider.deps_of(path@.last()@).contains(deps@[k as int]@)) by {
                    assert(path@.last() == *dep);
                    assert(keys_of(deps@)[k as int] == deps@[k as int]@);
                }
            }
            match self.dfs(provider, &deps[k], path, resolved) {
                Ok(()) => {},
                Err(e) => {
                    proof {
                        match &e {
                            SoftwareManagerError::SoftwareNotFound(d) => {
                                lemma_reach_prepend(
                                    *self,
                                    *provider,
                                    dep@,
                                    deps@[k as int]@,
                                    d@,
                                );
                            },
                            _ => {},
                        }
                    }
                    return Err(e);
                },
            }
            proof {
                assert(resolved@.subrange(0, pre_res.len() as int) =~= pre_res) by {
                    assert(resolved@.subrange(0, mid_res.len() as int) == mid_res);
                    assert forall|j: int| 0 <= j < pre_res.len() implies resolved@[j]
                        == pre_res[j] by {
                        assert(resolved@.subrange(0, mid_res.len() as int)[j] == mid_res[j]);
                        assert(mid_res.subrange(0, pre_res.len() as int)[j] == pre_res[j]);
                    }
                }
                assert forall|j: int|
                    0 <= j < k + 1 implies self.is_available((#[trigger] deps@[j])@) || key_in(
                    resolved@,
                    deps@[j]@,
                ) by {
                    if j < k {
                        if key_in(mid_res, deps@[j]@) {
                            let w = choose|w: int|
                                0 <= w < mid_res.len() && (#[trigger] mid_res[w])@ == deps@[j]@;
                            assert(resolved@.subrange(0, mid_res.len() as int)[w] == mid_res[w]);
                            assert(resolved@[w]@ == deps@[j]@);
                            assert(key_in(resolved@, deps@[j]@));
                        }
                    } else {
                        assert(deps@[j] == deps@[k as int]);
                    }
                }
                assert forall|t: int|
                    pre_res.len() <= t < resolved@.len() implies reaches(
                    *self,
                    *provider,
                    dep@,
                    (#[trigger] resolved@[t])@,
                ) by {
                    if t < mid_res.len() {
                        assert(resolved@.subrange(0, mid_res.len() as int)[t] == mid_res[t]);
                        assert(resolved@[t] == mid_res[t]);
                        assert(reaches(*self, *provider, dep@, mid_res[t]@));
                    } else {
                        assert(reaches(*self, *provider, deps@[k as int]@, resolved@[t]@));
                        lemma_reach_prepend(
                            *self,
                            *provider,
                            dep@,
                            deps@[k as int]@,
                            resolved@[t]@,
                        );
                    }
                }
            }
            k = k + 1;
        }
        path.pop();
        proof {
            assert(path@ =~= pre_path);
        }
        let ghost before_push = resolved@;
        resolved.push(dep.clone());
        proof {
            assert(resolved@ == before_push.push(*dep));
            assert(!key_in(before_push, dep@)) by {
                if key_in(before_push, dep@) {
                    assert(key_in(pre_path.push(*dep), dep@)) by {
                        assert(pre_path.push(*dep).last()@ == dep@);
                        assert((pre_path.push(*dep))[pre_path.len() as int]@ == dep@);
                    }
                }
            }
            assert(keys_of(resolved@) =~= keys_of(before_push).push(dep@));
            assert forall|a: int, b: int|
                0 <= a < keys_of(resolved@).len() && 0 <= b < keys_of(resolved@).len() && a != b
                implies keys_of(resolved@)[a] != keys_of(resolved@)[b] by {
                if a < before_push.len() && b < before_push.len() {
                    assert(keys_of(before_push).no_duplicates());
                } else if a == before_push.len() {
                    assert(keys_of(resolved@)[a] == dep@);
                    assert(!key_in(before_push, dep@));
                    assert(before_push[b]@ != dep@);
                } else if b == before_push.len() {
                    assert(keys_of(resolved@)[b] == dep@);
                    assert(!key_in(before_push, dep@));
                    assert(before_push[a]@ != dep@);
                }
            }
            assert(keys_of(resolved@).no_duplicates());
            assert(self.resolved_good(*provider, resolved@)) by {
                assert forall|i: int| 0 <= i < resolved@.len() implies provider.spec_contains(
                    (#[trigger] resolved@[i])@,
                ) && !self.is_available(resolved@[i]@) by {
                    if i < before_push.len() {
                        assert(resolved@[i] == before_push[i]);
                    } else {
                        assert(resolved@[i] == *dep);
                    }
                }
                assert forall|i: int, q: (Seq<char>, VersionWrapper)|
                    0 <= i < resolved@.len() && #[trigger] provider.deps_of(resolved@[i]@).contains(
                        q,
                    ) implies self.is_available(q) || exists|j: int|
                    0 <= j < i && (#[trigger] resolved@[j])@ == q by {
                    if i < before_push.len() {
                        assert(resolved@[i] == before_push[i]);
                        if !self.is_available(q) {
                            let j = choose|j: int|
                                0 <= j < i && (#[trigger] before_push[j])@ == q;
                            assert(resolved@[j] == before_push[j]);
                        }
                    } else {
                        assert(resolved@[i] == *dep);
                        if !self.is_available(q) {
                            assert(provider.deps_of(dep@).contains(q));
                            let w = choose|w: int|
                                0 <= w < keys_of(deps@).len() && keys_of(deps@)[w] == q;
                            assert(deps@[w]@ == q);
                            assert(self.is_available(deps@[w]@) || key_in(
                                before_push,
                                deps@[w]@,
                            ));
                            let j = choose|j: int|
                                0 <= j < before_push.len() && (#[trigger] before_push[j])@ == q;
                            assert(resolved@[j] == before_push[j]);
                        }
                    }
                }
            }
            assert forall|q: (Seq<char>, VersionWrapper)| key_in(resolved@, q) implies !key_in(
                pre_path,
                q,
            ) by {
                let w = choose|w: int| 0 <= w < resolved@.len() && (#[trigger] resolved@[w])@ == q;
                if w < before_push.len() {
                    assert(before_push[w]@ == q);
                    assert(key_in(before_push, q));
                    assert(!key_in(pre_path.push(*dep), q));
                    if key_in(pre_path, q) {
                        let v = choose|v: int|
                            0 <= v < pre_path.len() && (#[trigger] pre_path[v])@ == q;
                        assert((pre_path.push(*dep))[v]@ == q);
                    }
                } else {
                    assert(q == dep@);
                }
            }
            assert(key_in(resolved@, dep@)) by {
                assert(resolved@[before_push.len() as int]@ == dep@);
            }
            assert forall|t: int|
                pre_res.len() <= t < resolved@.len() implies reaches(
                *self,
                *provider,
                dep@,
                (#[trigger] resolved@[t])@,
            ) by {
                if t < before_push.len() {
                    assert(resolved@[t] == before_push[t]);
                } else {
                    assert(resolved@[t] == *dep);
                    lemma_reach_self(*self, *provider, dep@);
                }
            }
            assert(resolved@.subrange(0, pre_res.len() as int) =~= pre_res) by {
                assert(before_push.subrange(0, pre_res.len() as int) == pre_res);
                assert forall|j: int| 0 <= j < pre_res.len() implies resolved@[j] == pre_res[j] by {
                    assert(resolved@[j] == before_push[j]);
                    assert(before_push.subrange(0, pre_res.len() as int)[j] == pre_res[j]);
                }
            }
        }
        Ok(())
    }

    /// Resolves a want-set against the current registry: either a
    /// dependency-first install order covering every root, or the error
    /// that makes resolution impossible. Nothing is installed or recorded.
    pub fn check(&self, dependencies: &Vec<Dependency>, provider: &DependencyProvider) -> (r:
        Result<Vec<Dependency>, SoftwareManagerError>)
        requires
            self.wf(),
            provider.wf(),
        ensures
            match r {
                Ok(list) => self.resolved_good(*provider, list@) && (forall|i: int|
                    0 <= i < dependencies@.len() ==> self.is_available(
                        (#[trigger] dependencies@[i])@,
                    ) || key_in(list@, dependencies@[i]@)) && (forall|t: int|
                    0 <= t < list@.len() ==> root_reaches(
                        *self,
                        *provider,
                        dependencies@,
                        (#[trigger] list@[t])@,
                    )),
                Err(SoftwareManagerError::CircularDependency(c)) => cycle_in(*provider, c@)
                    && keys_of(c@).no_duplicates() && forall|i: int|
                    0 <= i < c@.len() ==> !self.is_available((#[trigger] c@[i])@),
                Err(SoftwareManagerError::SoftwareNotFound(d)) => !provider.spec_contains(d@)
                    && !self.is_available(d@) && root_reaches(*self, *provider, dependencies@, d@),
                Err(_) => false,
            },
    {
        let mut path: Vec<Dependency> = Vec::new();
        let mut resolved: Vec<Dependency> = Vec::new();
        let mut i: usize = 0;
        while i < dependencies.len()
            invariant
                self.wf(),
                provider.wf(),
                0 <= i <= dependencies@.len(),
                path@.len() == 0,
                self.resolved_good(*provider, resolved@),
                forall|j: int|
                    0 <= j < i ==> self.is_available((#[trigger] dependencies@[j])@) || key_in(
                        resolved@,
                        dependencies@[j]@,
                    ),
                forall|t: int|
                    0 <= t < resolved@.len() ==> root_reaches(
                        *self,
                        *provider,
                        dependencies@,
                        (#[trigger] resolved@[t])@,
                    ),
            decreases dependencies@.len() - i,
        {
            let ghost mid_res = resolved@;
            match self.dfs(provider, &dependencies[i], &mut path, &mut resolved) {
                Ok(()) => {},
                Err(e) => {
                    proof {
                        match &e {
                            SoftwareManagerError::SoftwareNotFound(d) => {
                                assert(reaches(*self, *provider, dependencies@[i as int]@, d@));
                                assert(root_reaches(*self, *provider, dependencies@, d@));
                            },
                            _ => {},
                        }
                    }
                    return Err(e);
                },
            }
            proof {
                assert forall|j: int|
                    0 <= j < i + 1 implies self.is_available((#[trigger] dependencies@[j])@)
                    || key_in(resolved@, dependencies@[j]@) by {
                    if j < i {
                        if key_in(mid_res, dependencies@[j]@) {
                            let w = choose|w: int|
                                0 <= w < mid_res.len() && (#[trigger] mid_res[w])@
                                    == dependencies@[j]@;
                            assert(resolved@.subrange(0, mid_res.len() as int)[w] == mid_res[w]);
                            assert(resolved@[w]@ == dependencies@[j]@);
                        }
                    }
                }
                assert forall|t: int|
                    0 <= t < resolved@.len() implies root_reaches(
                    *self,
                    *provider,
                    dependencies@,
                    (#[trigger] resolved@[t])@,
                ) by {
                    if t < mid_res.len() {
                        assert(resolved@.subrange(0, mid_res.len() as int)[t] == mid_res[t]);
                        assert(resolved@[t] == mid_res[t]);
                        assert(root_reaches(*self, *provider, dependencies@, mid_res[t]@));
                    } else {
                        assert(reaches(*self, *provider, dependencies@[i as int]@, resolved@[t]@));
                        assert(root_reaches(*self, *provider, dependencies@, resolved@[t]@));
                    }
                }
            }
            i = i + 1;
        }
        Ok(resolved)
    }
}

/// The number of occurrences of the key `k` in the want-set `s`.
pub open spec fn count_key(s: Seq<Dependency>, k: (Seq<char>, VersionWrapper)) -> nat
    decreases s.len(),
{
    if s.len() == 0 {
        0
    } else {
        count_key(s.drop_last(), k) + (if s.last()@ == k {
            1nat
        } else {
            0nat
        })
    }
}

/// Reference counts saturate: adding beyond `u32::MAX` stays there.
pub open spec fn cap_add(r: nat, a: nat) -> nat {
    if r + a <= u32::MAX {
        r + a
    } else {
        u32::MAX as nat
    }
}

/// The number of occurrences of `k` in a key list.
pub open spec fn key_count(ks: Seq<(Seq<char>, VersionWrapper)>, k: (Seq<char>, VersionWrapper)) -> nat
    decreases ks.len(),
{
    if ks.len() == 0 {
        0
    } else {
        key_count(ks.drop_last(), k) + (if ks.last() == k {
            1nat
        } else {
            0nat
        })
    }
}

/// Counting over a dependency list and over its key list agree.
pub proof fn lemma_count_key_as_keys(s: Seq<Dependency>, k: (Seq<char>, VersionWrapper))
    ensures
        count_key(s, k) == key_count(keys_of(s), k),
    decreases s.len(),
{
    if s.len() > 0 {
        assert(keys_of(s).drop_last() =~= keys_of(s.drop_last()));
        assert(keys_of(s).last() == s.last()@);
        lemma_count_key_as_keys(s.drop_last(), k);
    }
}

/// The dependency edges pointing at `k` from the entries of `vs` at or
/// after index `from`.
pub open spec fn edge_count_from(vs: Seq<Software>, from: int, k: (Seq<char>, VersionWrapper)) -> nat
    decreases vs.len() - from,
{
    if from < 0 || from >= vs.len() {
        0
    } else {
        key_count(vs[from]@.dependencies, k) + edge_count_from(vs, from + 1, k)
    }
}

/// Appending one entry adds exactly its own edges to every suffix count.
pub proof fn lemma_edge_count_push(
    vs: Seq<Software>,
    x: Software,
    from: int,
    k: (Seq<char>, VersionWrapper),
)
    requires
        0 <= from <= vs.len(),
    ensures
        edge_count_from(vs.push(x), from, k) == edge_count_from(vs, from, k) + key_count(
            x@.dependencies,
            k,
        ),
    decreases vs.len() - from,
{
    let w = vs.push(x);
    if from == vs.len() {
        assert(w[from] == x);
        assert(edge_count_from(w, from + 1, k) == 0);
        assert(edge_count_from(vs, from, k) == 0);
    } else {
        assert(w[from] == vs[from]);
        lemma_edge_count_push(vs, x, from + 1, k);
    }
}

/// Edge counts depend only on the entries' dependency lists.
pub proof fn lemma_edge_count_congruent(
    a: Seq<Software>,
    b: Seq<Software>,
    from: int,
    k: (Seq<char>, VersionWrapper),
)
    requires
        a.len() == b.len(),
        forall|j: int| 0 <= j < a.len() ==> (#[trigger] a[j])@.dependencies == b[j]@.dependencies,
    ensures
        edge_count_from(a, from, k) == edge_count_from(b, from, k),
    decreases a.len() - from,
{
    if 0 <= from && from < a.len() {
        lemma_edge_count_congruent(a, b, from + 1, k);
    }
}

impl SoftwareManager {
    /// Whether the registry holds a live entry for `d`, and where.
    fn find_live_index(&self, d: &Dependency) -> (r: Option<usize>)
        ensures
            match r {
                Some(ix) => ix < self.softwares@.len() && self.softwares@[ix as int]@.key() == d@
                    && self.softwares@[ix as int]@.is_live(),
                None => !self.is_live_key(d@),
            },
    {
        let mut i: usize = 0;
        while i < self.softwares.len()
            invariant
                0 <= i <= self.softwares@.len(),
                forall|j: int|
                    0 <= j < i ==> !((#[trigger] self.softwares@[j])@.key() == d@
                        && self.softwares@[j]@.is_live()),
            decreases self.softwares@.len() - i,
        {
            let s = &self.softwares[i];
            if s.archive == d.archive && s.version == d.version_wrapper && !matches!(
                s.inner.status,
                SoftwareStatus::Removed,
            ) {
                assert(self.softwares@[i as int]@.key() == d@);
                return Some(i);
            }
            proof {
                assert(!(self.softwares@[i as int]@.key() == d@
                    && self.softwares@[i as int]@.is_live()));
            }
            i = i + 1;
        }
        None
    }

    /// Adds one reference, saturating at the counter's ceiling, to the
    /// live entry of every list member; members without a live entry are
    /// passed over. This is the exact dual of the decrement that
    /// cascading removal applies.
    fn add_references(&mut self, deps: &Vec<Dependency>)
        requires
            old(self).wf(),
        ensures
            final(self).wf(),
            final(self).softwares@.len() == old(self).softwares@.len(),
            forall|j: int|
                0 <= j < old(self).softwares@.len() ==> {
                    let v = (#[trigger] final(self).softwares@[j])@;
                    let o = old(self).softwares@[j]@;
                    &&& v.archive == o.archive
                    &&& v.version == o.version
                    &&& v.dependencies == o.dependencies
                    &&& v.status == o.status
                    &&& v.reference_count == (if o.is_live() {
                        cap_add(o.reference_count as nat, count_key(deps@, o.key()))
                    } else {
                        o.reference_count as nat
                    })
                },
    {
        let ghost pre = old(self).softwares@;
        let mut t: usize = 0;
        while t < deps.len()
            invariant
                0 <= t <= deps@.len(),
                pre == old(self).softwares@,
                old(self).wf(),
                self.wf(),
                self.softwares@.len() == pre.len(),
                forall|j: int|
                    0 <= j < pre.len() ==> {
                        let v = (#[trigger] self.softwares@[j])@;
                        let o = pre[j]@;
                        &&& v.archive == o.archive
                        &&& v.version == o.version
                        &&& v.dependencies == o.dependencies
                        &&& v.status == o.status
                        &&& v.reference_count == (if o.is_live() {
                            cap_add(
                                o.reference_count as nat,
                                count_key(deps@.subrange(0, t as int), o.key()),
                            )
                        } else {
                            o.reference_count as nat
                        })
                    },
            decreases deps@.len() - t,
        {
            let d = &deps[t];
            proof {
                assert(deps@.subrange(0, t as int + 1).drop_last() =~= deps@.subrange(
                    0,
                    t as int,
                ));
                assert(deps@.subrange(0, t as int + 1).last() == deps@[t as int]);
            }
            match self.find_live_index(d) {
                None => {
                    proof {
                        assert forall|j: int|
                            0 <= j < pre.len() && pre[j]@.is_live() implies pre[j]@.key()
                                != deps@[t as int]@ by {
                            if pre[j]@.key() == deps@[t as int]@ {
                                assert(self.softwares@[j]@.key() == d@);
                                assert(self.softwares@[j]@.is_live());
                                assert(self.is_live_key(d@));
                            }
                        }
                    }
                },
                Some(ix) => {
                    let ghost mid = self.softwares@;
                    let mut entry = self.softwares[ix].clone();
                    if entry.inner.reference_count < u32::MAX {
                        entry.inner.add();
                    }
                    self.softwares.set(ix, entry);
                    proof {
                        assert(mid[ix as int]@.key() == d@);
                        assert(mid[ix as int]@.is_live());
                        assert(pre[ix as int]@.is_live());
                        assert(pre[ix as int]@.key() == d@);
                        assert forall|j: int|
                            0 <= j < pre.len() implies {
                                let v = (#[trigger] self.softwares@[j])@;
                                let o = pre[j]@;
                                &&& v.archive == o.archive
                                &&& v.version == o.version
                                &&& v.dependencies == o.dependencies
                                &&& v.status == o.status
                                &&& v.reference_count == (if o.is_live() {
                                    cap_add(
                                        o.reference_count as nat,
                                        count_key(deps@.subrange(0, t as int + 1), o.key()),
                                    )
                                } else {
                                    o.reference_count as nat
                                })
                            } by {
                            if j == ix {
                                assert(count_key(deps@.subrange(0, t as int + 1), pre[j]@.key())
                                    == count_key(deps@.subrange(0, t as int), pre[j]@.key()) + 1);
                            } else {
                                assert(self.softwares@[j] == mid[j]);
                                if pre[j]@.is_live() {
                                    if pre[j]@.key() == d@ {
                                        assert(self.softwares@[ix as int]@.is_live());
                                        assert(self.softwares@[j]@.is_live());
                                        assert(self.softwares@[j]@.key() == self.softwares@[
                                            ix as int
                                        ]@.key());
                                        assert(false);
                                    }
                                    assert(count_key(
                                        deps@.subrange(0, t as int + 1),
                                        pre[j]@.key(),
                                    ) == count_key(deps@.subrange(0, t as int), pre[j]@.key()));
                                }
                            }
                        }
                        assert(self.wf()) by {
                            assert forall|i: int, j: int|
                                0 <= i < self.softwares@.len() && 0 <= j < self.softwares@.len()
                                    && (#[trigger] self.softwares@[i])@.is_live() && (
                                #[trigger] self.softwares@[j])@.is_live()
                                    && self.softwares@[i]@.key() == self.softwares@[j]@.key()
                                    implies i == j by {
                                assert(pre[i]@.is_live() && pre[j]@.is_live());
                                assert(pre[i]@.key() == pre[j]@.key());
                                assert(old(self).wf());
                            }
                            assert forall|i: int| 0 <= i < self.softwares@.len() implies ((
                            #[trigger] self.softwares@[i])@.status == SoftwareStatus::Removed
                                ==> self.softwares@[i]@.reference_count == 0) by {
                                if self.softwares@[i]@.status == SoftwareStatus::Removed {
                                    assert(pre[i]@.status == SoftwareStatus::Removed);
                                    assert(!pre[i]@.is_live());
                                }
                            }
                        }
                    }
                },
            }
            t = t + 1;
        }
        proof {
            assert(deps@.subrange(0, deps@.len() as int) =~= deps@);
        }
    }

    /// Registers one new entry; refuses a (name, version) that already has
    /// a live entry.
    pub fn insert(&mut self, software: Software) -> (r: Result<(), SoftwareManagerError>)
        requires
            old(self).wf(),
            software@.is_live() || software@.reference_count == 0,
        ensures
            final(self).wf(),
            match r {
                Ok(()) => !old(self).is_live_key(software@.key()) && final(self).softwares@ == old(
                    self,
                ).softwares@.push(software),
                Err(e) => old(self).is_live_key(software@.key()) && final(self).softwares@ == old(
                    self,
                ).softwares@ && e matches SoftwareManagerError::PackageInstalled,
            },
    {
        let key_dep = Dependency { archive: software.archive.clone(), version_wrapper: software.version };
        match self.find_live_index(&key_dep) {
            Some(ix) => {
                proof {
                    assert(self.softwares@[ix as int]@.key() == software@.key());
                    assert(self.is_live_key(software@.key()));
                }
                Err(SoftwareManagerError::PackageInstalled)
            },
            None => {
                let ghost pre = self.softwares@;
                self.softwares.push(software);
                proof {
                    assert forall|i: int, j: int|
                        0 <= i < self.softwares@.len() && 0 <= j < self.softwares@.len() && (
                        #[trigger] self.softwares@[i])@.is_live() && (
                        #[trigger] self.softwares@[j])@.is_live() && self.softwares@[i]@.key()
                            == self.softwares@[j]@.key() implies i == j by {
                        if i < pre.len() {
                            assert(self.softwares@[i] == pre[i]);
                        }
                        if j < pre.len() {
                            assert(self.softwares@[j] == pre[j]);
                        }
                        if i != j {
                            if i == pre.len() {
                                assert(pre[j]@.key() == software@.key());
                                assert(old(self).is_live_key(software@.key()));
                            } else if j == pre.len() {
                                assert(pre[i]@.key() == software@.key());
                                assert(old(self).is_live_key(software@.key()));
                            }
                        }
                    }
                    assert forall|i: int| 0 <= i < self.softwares@.len() implies ((
                    #[trigger] self.softwares@[i])@.status == SoftwareStatus::Removed
                        ==> self.softwares@[i]@.reference_count == 0) by {
                        if i < pre.len() {
                            assert(self.softwares@[i] == pre[i]);
                        }
                    }
                }
                Ok(())
            },
        }
    }

    /// Installs a resolved, dependency-first order: entries already live
    /// are skipped; each new package is fetched into the store and
    /// registered with a zero reference count. A package the information
    /// source cannot supply aborts the rest; what was installed stays.
    #[verifier::rlimit(50)]
    pub fn install(
        &mut self,
        download_list: &Vec<Dependency>,
        provider: &DependencyProvider,
        pm: &mut PackageManager,
    ) -> (r: Result<(), SoftwareManagerError>)
        requires
            old(self).wf(),
            provider.wf(),
            old(pm).wf(),
        ensures
            final(self).wf(),
            final(pm).wf(),
            final(self).softwares@.len() >= old(self).softwares@.len(),
            forall|j: int|
                0 <= j < old(self).softwares@.len() ==> {
                    let v = (#[trigger] final(self).softwares@[j])@;
                    let o = old(self).softwares@[j]@;
                    &&& v.archive == o.archive
                    &&& v.version == o.version
                    &&& v.dependencies == o.dependencies
                    &&& v.status == o.status
                    &&& v.reference_count == (if o.is_live() {
                        cap_add(
                            o.reference_count as nat,
                            edge_count_from(
                                final(self).softwares@,
                                old(self).softwares@.len() as int,
                                o.key(),
                            ),
                        )
                    } else {
                        o.reference_count as nat
                    })
                },
            forall|j: int|
                old(self).softwares@.len() <= j < final(self).softwares@.len() ==> {
                    let v = (#[trigger] final(self).softwares@[j])@;
                    &&& v.reference_count == cap_add(
                        0,
                        edge_count_from(final(self).softwares@, j + 1, v.key()),
                    )
                    &&& v.status == SoftwareStatus::Available
                    &&& key_in(download_list@, v.key())
                    &&& provider.spec_contains(v.key())
                    &&& v.dependencies == provider.deps_of(v.key())
                    &&& final(pm).spec_contains(v.key())
                },
            forall|k: (Seq<char>, VersionWrapper)|
                old(pm).spec_contains(k) ==> final(pm).spec_contains(k),
            forall|k: (Seq<char>, VersionWrapper)|
                final(pm).spec_contains(k) ==> old(pm).spec_contains(k) || key_in(
                    download_list@,
                    k,
                ),
            match r {
                Ok(()) => forall|i: int|
                    0 <= i < download_list@.len() ==> final(self).is_live_key(
                        (#[trigger] download_list@[i])@,
                    ),
                Err(SoftwareManagerError::SoftwareNotFound(d)) => !provider.spec_contains(d@)
                    && key_in(download_list@, d@),
                Err(_) => false,
            },
    {
        let ghost pre = old(self).softwares@;
        let mut t: usize = 0;
        while t < download_list.len()
            invariant
                0 <= t <= download_list@.len(),
                provider.wf(),
                self.wf(),
                pm.wf(),
                self.softwares@.len() >= pre.len(),
                pre == old(self).softwares@,
                forall|j: int|
                    0 <= j < pre.len() ==> {
                        let v = (#[trigger] self.softwares@[j])@;
                        let o = pre[j]@;
                        &&& v.archive == o.archive
                        &&& v.version == o.version
                        &&& v.dependencies == o.dependencies
                        &&& v.status == o.status
                        &&& v.reference_count == (if o.is_live() {
                            cap_add(
                                o.reference_count as nat,
                                edge_count_from(self.softwares@, pre.len() as int, o.key()),
                            )
                        } else {
                            o.reference_count as nat
                        })
                    },
                forall|j: int|
                    pre.len() <= j < self.softwares@.len() ==> {
                        let v = (#[trigger] self.softwares@[j])@;
                        &&& v.reference_count == cap_add(
                            0,
                            edge_count_from(self.softwares@, j + 1, v.key()),
                        )
                        &&& v.status == SoftwareStatus::Available
                        &&& key_in(download_list@, v.key())
                        &&& provider.spec_contains(v.key())
                        &&& v.dependencies == provider.deps_of(v.key())
                        &&& pm.spec_contains(v.key())
                    },
                forall|k: (Seq<char>, VersionWrapper)|
                    old(pm).spec_contains(k) ==> pm.spec_contains(k),
                forall|k: (Seq<char>, VersionWrapper)|
                    pm.spec_contains(k) ==> old(pm).spec_contains(k) || key_in(download_list@, k),
                forall|i: int|
                    0 <= i < t ==> self.is_live_key((#[trigger] download_list@[i])@),
            decreases download_list@.len() - t,
        {
            let d = &download_list[t];
            if self.find_live_index(d).is_some() {
                proof {
                    assert(self.is_live_key(d@)) by {
                        if !self.is_live_key(d@) {
                        }
                    }
                }
                t = t + 1;
                continue ;
            }
            let package = match provider.get_package(d) {
                Some(p) => p,
                None => {
                    proof {
                        assert(download_list@[t as int]@ == d@);
                        assert(key_in(download_list@, d@));
                    }
                    return Err(SoftwareManagerError::SoftwareNotFound(d.clone()));
                },
            };
            let deps = match provider.get_depends(d) {
                Some(v) => v,
                None => {
                    proof {
                        assert(false);
                    }
                    return Err(SoftwareManagerError::SoftwareNotFound(d.clone()));
                },
            };
            proof {
                provider.lemma_package_of_key(d@);
            }
            let ghost pm_mid = *pm;
            if !pm.contains(&package.archive, &package.version_wrapper) {
                match pm.install_package(package.clone()) {
                    Ok(()) => {},
                    Err(e) => {
                        proof {
                            assert(false);
                        }
                        return Err(SoftwareManagerError::from(e));
                    },
                }
            }
            proof {
                assert(pm.spec_contains(d@)) by {
                    assert(package.key() == d@);
                    if !pm_mid.spec_contains(d@) {
                        assert(pm.packages@ == pm_mid.packages@.push(package));
                        assert(pm.packages@[pm_mid.packages@.len() as int].key() == d@);
                    }
                }
                assert forall|k: (Seq<char>, VersionWrapper)| pm.spec_contains(k) implies
                    pm_mid.spec_contains(k) || k == d@ by {
                    if !pm_mid.spec_contains(k) {
                        let w = choose|w: int|
                            0 <= w < pm.packages@.len() && (#[trigger] pm.packages@[w].key()) == k;
                        if w < pm_mid.packages@.len() {
                            assert(pm_mid.packages@[w].key() == k);
                        } else {
                            assert(pm.packages@[w] == package);
                        }
                    }
                }
                assert forall|k: (Seq<char>, VersionWrapper)| pm_mid.spec_contains(k) implies
                    pm.spec_contains(k) by {
                    if !pm_mid.spec_contains(d@) && pm.packages@ == pm_mid.packages@.push(package) {
                        let w = choose|w: int|
                            0 <= w < pm_mid.packages@.len() && (#[trigger] pm_mid.packages@[w].key())
                                == k;
                        assert(pm.packages@[w] == pm_mid.packages@[w]);
                    }
                }
            }
            let ghost sm_before_add = self.softwares@;
            let ghost depkeys = crate::software_manager::keys_of(deps@);
            // each direct dependency of the new entry gains one reference
            self.add_references(&deps);
            let ghost sm_mid = self.softwares@;
            let entry = Software::new(
                package.archive,
                package.version_wrapper,
                deps,
                0,
                SoftwareStatus::Available,
            );
            proof {
                assert(entry@.key() == d@);
                assert(entry@.dependencies == depkeys);
                assert(entry@.dependencies == provider.deps_of(d@));
                assert(!self.is_live_key(d@)) by {
                    if self.is_live_key(d@) {
                        let w = choose|w: int|
                            0 <= w < sm_mid.len() && (#[trigger] sm_mid[w])@.key() == d@
                                && sm_mid[w]@.is_live();
                        assert(sm_before_add[w]@.key() == d@ && sm_before_add[w]@.is_live());
                    }
                }
            }
            match self.insert(entry) {
                Ok(()) => {},
                Err(e) => {
                    proof {
                        assert(false);
                    }
                    return Err(SoftwareManagerError::from(
                        crate::errors::PackageManagerError::PackageInstallFailed,
                    ));
                },
            }
            proof {
                assert(self.softwares@ == sm_mid.push(entry));
                let post = self.softwares@;
                assert(sm_before_add.len() == sm_mid.len());
                assert forall|j: int|
                    0 <= j < sm_mid.len() implies (#[trigger] sm_mid[j])@.dependencies
                        == sm_before_add[j]@.dependencies by {}
                assert forall|q: (Seq<char>, VersionWrapper)|
                    #[trigger] edge_count_from(sm_mid, pre.len() as int, q) == edge_count_from(
                    sm_before_add,
                    pre.len() as int,
                    q,
                ) by {
                    lemma_edge_count_congruent(sm_mid, sm_before_add, pre.len() as int, q);
                }
                assert(self.is_live_key(d@)) by {
                    assert(post[sm_mid.len() as int]@.key() == d@);
                    assert(post[sm_mid.len() as int]@.is_live());
                }
                assert(key_in(download_list@, d@)) by {
                    assert(download_list@[t as int]@ == d@);
                }
                // the old entries: one more round of capped additions
                assert forall|j: int|
                    0 <= j < pre.len() implies {
                        let v = (#[trigger] post[j])@;
                        let o = pre[j]@;
                        &&& v.archive == o.archive
                        &&& v.version == o.version
                        &&& v.dependencies == o.dependencies
                        &&& v.status == o.status
                        &&& v.reference_count == (if o.is_live() {
                            cap_add(
                                o.reference_count as nat,
                                edge_count_from(post, pre.len() as int, o.key()),
                            )
                        } else {
                            o.reference_count as nat
                        })
                    } by {
                    assert(post[j] == sm_mid[j]);
                    let o = pre[j]@;
                    if o.is_live() {
                        let e0 = edge_count_from(sm_before_add, pre.len() as int, o.key());
                        let c = count_key(deps@, o.key());
                        assert(sm_before_add[j]@.is_live());
                        assert(sm_before_add[j]@.key() == o.key());
                        assert(sm_before_add[j]@.reference_count == cap_add(
                            o.reference_count as nat,
                            e0,
                        ));
                        assert(sm_mid[j]@.reference_count == cap_add(
                            cap_add(o.reference_count as nat, e0),
                            c,
                        ));
                        assert(cap_add(cap_add(o.reference_count as nat, e0), c) == cap_add(
                            o.reference_count as nat,
                            e0 + c,
                        ));
                        lemma_count_key_as_keys(deps@, o.key());
                        assert(c == key_count(entry@.dependencies, o.key()));
                        lemma_edge_count_push(sm_mid, entry, pre.len() as int, o.key());
                        assert(edge_count_from(post, pre.len() as int, o.key()) == e0 + c);
                    } else {
                        assert(sm_before_add[j]@.reference_count == o.reference_count);
                        assert(!sm_before_add[j]@.is_live());
                        assert(sm_mid[j]@.reference_count == o.reference_count);
                    }
                }
                // the appended entries: their suffix gains the new edges
                assert forall|j: int|
                    pre.len() <= j < post.len() implies {
                        let v = (#[trigger] post[j])@;
                        &&& v.reference_count == cap_add(
                            0,
                            edge_count_from(post, j + 1, v.key()),
                        )
                        &&& v.status == SoftwareStatus::Available
                        &&& key_in(download_list@, v.key())
                        &&& provider.spec_contains(v.key())
                        &&& v.dependencies == provider.deps_of(v.key())
                        &&& pm.spec_contains(v.key())
                    } by {
                    if j < sm_mid.len() {
                        assert(post[j] == sm_mid[j]);
                        let v0 = sm_before_add[j]@;
                        let e0 = edge_count_from(sm_before_add, j + 1, v0.key());
                        let c = count_key(deps@, v0.key());
                        assert(v0.reference_count == cap_add(0, e0));
                        assert(v0.status == SoftwareStatus::Available);
                        assert(v0.is_live());
                        assert(sm_mid[j]@.key() == v0.key());
                        assert(sm_mid[j]@.reference_count == cap_add(cap_add(0, e0), c));
                        assert(cap_add(cap_add(0, e0), c) == cap_add(0, e0 + c));
                        lemma_edge_count_congruent(sm_mid, sm_before_add, j + 1, v0.key());
                        lemma_count_key_as_keys(deps@, v0.key());
                        lemma_edge_count_push(sm_mid, entry, j + 1, v0.key());
                        assert(edge_count_from(post, j + 1, v0.key()) == e0 + c);
                    } else {
                        assert(post[j] == entry);
                        assert(edge_count_from(post, j + 1, entry@.key()) == 0);
                    }
                }
                assert forall|i: int| 0 <= i < t + 1 implies self.is_live_key(
                    (#[trigger] download_list@[i])@,
                ) by {
                    if i < t {
                        let w = choose|w: int|
                            0 <= w < sm_before_add.len() && (#[trigger] sm_before_add[w])@.key()
                                == download_list@[i]@ && sm_before_add[w]@.is_live();
                        assert(sm_mid[w]@.key() == sm_before_add[w]@.key());
                        assert(sm_mid[w]@.status == sm_before_add[w]@.status);
                        assert(post[w] == sm_mid[w]);
                    }
                }
            }
            t = t + 1;
        }
        Ok(())
    }

    /// Resolves and installs a want-set in one step: a failed resolution
    /// leaves every registry untouched.
    pub fn install_package(
        &mut self,
        dependencies: &Vec<Dependency>,
        provider: &DependencyProvider,
        pm: &mut PackageManager,
    ) -> (r: Result<(), SoftwareManagerError>)
        requires
            old(self).wf(),
            provider.wf(),
            old(pm).wf(),
        ensures
            final(self).wf(),
            final(pm).wf(),
            final(self).softwares@.len() >= old(self).softwares@.len(),
            forall|j: int|
                0 <= j < old(self).softwares@.len() ==> {
                    let v = (#[trigger] final(self).softwares@[j])@;
                    let o = old(self).softwares@[j]@;
                    &&& v.archive == o.archive
                    &&& v.version == o.version
                    &&& v.dependencies == o.dependencies
                    &&& v.status == o.status
                    &&& v.reference_count == (if o.is_live() {
                        cap_add(
                            o.reference_count as nat,
                            edge_count_from(
                                final(self).softwares@,
                                old(self).softwares@.len() as int,
                                o.key(),
                            ),
                        )
                    } else {
                        o.reference_count as nat
                    })
                },
            forall|j: int|
                old(self).softwares@.len() <= j < final(self).softwares@.len() ==> {
                    let v = (#[trigger] final(self).softwares@[j])@;
                    &&& v.reference_count == cap_add(
                        0,
                        edge_count_from(final(self).softwares@, j + 1, v.key()),
                    )
                    &&& v.status == SoftwareStatus::Available
                    &&& provider.spec_contains(v.key())
                    &&& v.dependencies == provider.deps_of(v.key())
                    &&& final(pm).spec_contains(v.key())
                },
            match r {
                Ok(()) => forall|i: int|
                    0 <= i < dependencies@.len() ==> final(self).is_live_key(
                        (#[trigger] dependencies@[i])@,
                    ),
                Err(SoftwareManagerError::CircularDependency(c)) => cycle_in(*provider, c@)
                    && final(self).softwares@ == old(self).softwares@ && final(pm).packages@ == old(
                    pm,
                ).packages@,
                Err(SoftwareManagerError::SoftwareNotFound(d)) => !provider.spec_contains(d@)
                    && final(self).softwares@ == old(self).softwares@ && final(pm).packages@ == old(
                    pm,
                ).packages@,
                Err(_) => false,
            },
    {
        let download_list = match self.check(dependencies, provider) {
            Ok(list) => list,
            Err(e) => {
                return Err(e);
            },
        };
        match self.install(&download_list, provider, pm) {
            Ok(()) => {
                proof {
                    assert forall|i: int| 0 <= i < dependencies@.len() implies self.is_live_key(
                        (#[trigger] dependencies@[i])@,
                    ) by {
                        if old(self).is_available(dependencies@[i]@) {
                            let w = choose|w: int|
                                0 <= w < old(self).softwares@.len() && (
                                #[trigger] old(self).softwares@[w])@.key() == dependencies@[i]@
                                    && old(self).softwares@[w]@.status == SoftwareStatus::Available;
                            assert(self.softwares@[w]@.key() == old(self).softwares@[w]@.key());
                            assert(self.softwares@[w]@.status == old(
                                self,
                            ).softwares@[w]@.status);
                            assert(self.is_live_key(dependencies@[i]@));
                        } else {
                            assert(key_in(download_list@, dependencies@[i]@));
                            let w = choose|w: int|
                                0 <= w < download_list@.len() && (#[trigger] download_list@[w])@
                                    == dependencies@[i]@;
                            assert(self.is_live_key(download_list@[w]@));
                        }
                    }
                }
                Ok(())
            },
            Err(e) => {
                proof {
                    match e {
                        SoftwareManagerError::SoftwareNotFound(_) => {
                            assert(false);
                        },
                        _ => {
                            assert(false);
                        },
                    }
                }
                Err(e)
            },
        }
    }

    /// Adds one reference for every element of the want-set, in order,
    /// saturating at the counter's ceiling. A want-set member without a
    /// live entry stops the walk there; the references already added
    /// stand.
    pub fn update_reference(&mut self, list: &PackageList) -> (r: Result<
        (),
        SoftwareManagerError,
    >)
        requires
            old(self).wf(),
        ensures
            final(self).wf(),
            final(self).softwares@.len() == old(self).softwares@.len(),
            forall|j: int|
                0 <= j < old(self).softwares@.len() ==> {
                    let v = (#[trigger] final(self).softwares@[j])@;
                    let o = old(self).softwares@[j]@;
                    &&& v.archive == o.archive
                    &&& v.version == o.version
                    &&& v.dependencies == o.dependencies
                    &&& v.status == o.status
                },
            match r {
                Ok(()) => (forall|j: int|
                    0 <= j < old(self).softwares@.len() ==> (#[trigger] final(self).softwares@[j])@.reference_count == (if old(self).softwares@[j]@.is_live() {
                        cap_add(
                            old(self).softwares@[j]@.reference_count as nat,
                            count_key(list.dependencies@, old(self).softwares@[j]@.key()),
                        )
                    } else {
                        old(self).softwares@[j]@.reference_count as nat
                    })) && (forall|i: int|
                    0 <= i < list.dependencies@.len() ==> old(self).is_live_key(
                        (#[trigger] list.dependencies@[i])@,
                    )),
                Err(e) => (e matches SoftwareManagerError::SoftwareNotFound(d) && exists|f: int|
                    {
                        &&& 0 <= f < list.dependencies@.len()
                        &&& (#[trigger] list.dependencies@[f])@ == d@
                        &&& !old(self).is_live_key(d@)
                        &&& forall|t: int|
                            0 <= t < f ==> old(self).is_live_key(
                                (#[trigger] list.dependencies@[t])@,
                            )
                        &&& forall|j: int|
                            0 <= j < old(self).softwares@.len() ==> (#[trigger] final(self).softwares@[j])@.reference_count == (if old(
                                self,
                            ).softwares@[j]@.is_live() {
                                cap_add(
                                    old(self).softwares@[j]@.reference_count as nat,
                                    count_key(
                                        list.dependencies@.subrange(0, f),
                                        old(self).softwares@[j]@.key(),
                                    ),
                                )
                            } else {
                                old(self).softwares@[j]@.reference_count as nat
                            })
                    }),
            },
    {
        let ghost pre = old(self).softwares@;
        let ghost deps = list.dependencies@;
        let mut t: usize = 0;
        while t < list.dependencies.len()
            invariant
                0 <= t <= deps.len(),
                deps == list.dependencies@,
                pre == old(self).softwares@,
                old(self).wf(),
                self.wf(),
                self.softwares@.len() == pre.len(),
                forall|i: int| 0 <= i < t ==> old(self).is_live_key((#[trigger] deps[i])@),
                forall|j: int|
                    0 <= j < pre.len() ==> {
                        let v = (#[trigger] self.softwares@[j])@;
                        let o = pre[j]@;
                        &&& v.archive == o.archive
                        &&& v.version == o.version
                        &&& v.dependencies == o.dependencies
                        &&& v.status == o.status
                        &&& v.reference_count == (if o.is_live() {
                            cap_add(
                                o.reference_count as nat,
                                count_key(deps.subrange(0, t as int), o.key()),
                            )
                        } else {
                            o.reference_count as nat
                        })
                    },
            decreases deps.len() - t,
        {
            let d = &list.dependencies[t];
            proof {
                assert(deps.subrange(0, t as int + 1).drop_last() =~= deps.subrange(0, t as int));
                assert(deps.subrange(0, t as int + 1).last() == deps[t as int]);
            }
            let ix = match self.find_live_index(d) {
                Some(ix) => ix,
                None => {
                    proof {
                        assert(deps[t as int]@ == d@);
                        assert(!old(self).is_live_key(d@)) by {
                            if old(self).is_live_key(d@) {
                                let w = choose|w: int|
                                    0 <= w < pre.len() && (#[trigger] pre[w])@.key() == d@
                                        && pre[w]@.is_live();
                                assert(self.softwares@[w]@.key() == d@);
                                assert(self.softwares@[w]@.is_live());
                                assert(self.is_live_key(d@));
                            }
                        }
                    }
                    return Err(SoftwareManagerError::SoftwareNotFound(d.clone()));
                },
            };
            let ghost mid = self.softwares@;
            let mut entry = self.softwares[ix].clone();
            if entry.inner.reference_count < u32::MAX {
                entry.inner.add();
            }
            self.softwares.set(ix, entry);
            proof {
                assert(mid[ix as int]@.key() == d@);
                assert(mid[ix as int]@.is_live());
                assert(pre[ix as int]@.is_live());
                assert(pre[ix as int]@.key() == d@);
                assert(old(self).is_live_key(deps[t as int]@));
                assert forall|j: int|
                    0 <= j < pre.len() implies {
                        let v = (#[trigger] self.softwares@[j])@;
                        let o = pre[j]@;
                        &&& v.archive == o.archive
                        &&& v.version == o.version
                        &&& v.dependencies == o.dependencies
                        &&& v.status == o.status
                        &&& v.reference_count == (if o.is_live() {
                            cap_add(
                                o.reference_count as nat,
                                count_key(deps.subrange(0, t as int + 1), o.key()),
                            )
                        } else {
                            o.reference_count as nat
                        })
                    } by {
                    if j == ix {
                        assert(count_key(deps.subrange(0, t as int + 1), pre[j]@.key())
                            == count_key(deps.subrange(0, t as int), pre[j]@.key()) + 1);
                    } else {
                        assert(self.softwares@[j] == mid[j]);
                        if pre[j]@.is_live() {
                            if pre[j]@.key() == d@ {
                                assert(self.softwares@[j]@.is_live());
                                assert(self.softwares@[ix as int]@.is_live());
                                assert(self.softwares@[j]@.key() == self.softwares@[
                                    ix as int
                                ]@.key());
                                assert(false);
                            }
                            assert(count_key(deps.subrange(0, t as int + 1), pre[j]@.key())
                                == count_key(deps.subrange(0, t as int), pre[j]@.key()));
                        }
                    }
                }
                assert(self.wf()) by {
                    assert forall|i: int, j: int|
                        0 <= i < self.softwares@.len() && 0 <= j < self.softwares@.len() && (
                        #[trigger] self.softwares@[i])@.is_live() && (
                        #[trigger] self.softwares@[j])@.is_live() && self.softwares@[i]@.key()
                            == self.softwares@[j]@.key() implies i == j by {
                        assert(pre[i]@.is_live() && pre[j]@.is_live());
                        assert(pre[i]@.key() == pre[j]@.key());
                        assert(old(self).wf());
                    }
                    assert forall|i: int| 0 <= i < self.softwares@.len() implies ((
                    #[trigger] self.softwares@[i])@.status == SoftwareStatus::Removed
                        ==> self.softwares@[i]@.reference_count == 0) by {
                        if self.softwares@[i]@.status == SoftwareStatus::Removed {
                            assert(pre[i]@.status == SoftwareStatus::Removed);
                            assert(!pre[i]@.is_live());
                            assert(self.softwares@[i]@.reference_count
                                == pre[i]@.reference_count);
                        }
                    }
                }
            }
            t = t + 1;
        }
        proof {
            assert(deps.subrange(0, deps.len() as int) =~= deps);
        }
        Ok(())
    }
}

/// How one garbage-collection step may change the registry: entries keep
/// their identity and dependency list, reference counts never grow, and a
/// status only moves from `Available` to `Removed`.
pub open spec fn gc_step_ok(pre: Seq<Software>, post: Seq<Software>) -> bool {
    &&& post.len() == pre.len()
    &&& forall|j: int|
        0 <= j < pre.len() ==> {
            let v = (#[trigger] post[j])@;
            let o = pre[j]@;
            &&& v.archive == o.archive
            &&& v.version == o.version
            &&& v.dependencies == o.dependencies
            &&& v.reference_count <= o.reference_count
            &&& (v.status == o.status || (o.status == SoftwareStatus::Available && v.status
                == SoftwareStatus::Removed))
        }
}

/// Entry `j` is ripe for collection and its payload is still in the store:
/// available, unreferenced, and known to the package registry.
pub open spec fn coll_with_pm(s: Seq<Software>, pm: PackageManager, j: int) -> bool {
    &&& s[j]@.status == SoftwareStatus::Available
    &&& s[j]@.reference_count == 0
    &&& pm.spec_contains(s[j]@.key())
}

/// Reference counts saturate downward at zero when edges are released.
pub open spec fn cap_sub(r: nat, a: nat) -> nat {
    if r >= a {
        (r - a) as nat
    } else {
        0
    }
}

/// The dependency edges pointing at `k` from the entries at or after
/// `from` that went from `Available` to `Removed` between `pre` and `post`.
pub open spec fn removed_edge_count(
    pre: Seq<Software>,
    post: Seq<Software>,
    from: int,
    k: (Seq<char>, VersionWrapper),
) -> nat
    decreases pre.len() - from,
{
    if from < 0 || from >= pre.len() {
        0
    } else {
        (if pre[from]@.status == SoftwareStatus::Available && post[from]@.status
            == SoftwareStatus::Removed {
            key_count(pre[from]@.dependencies, k)
        } else {
            0nat
        }) + removed_edge_count(pre, post, from + 1, k)
    }
}

/// The running ledger of one cascading removal with target `idx`: with
/// the edges of `dk` before position `t` already handed out, every still
/// available entry's count is its old count less the applied edges of the
/// entries removed so far, and every removed entry's old count was
/// exhausted by those edges.
#[verifier::opaque]
pub open spec fn cascade_ledger(
    pre: Seq<Software>,
    cur: Seq<Software>,
    dk: Seq<(Seq<char>, VersionWrapper)>,
    t: int,
    idx: int,
) -> bool {
    &&& forall|q: (Seq<char>, VersionWrapper)|
        #[trigger] key_count(dk.subrange(t, dk.len() as int), q) <= removed_edge_count(
            pre,
            cur,
            0,
            q,
        )
    &&& forall|j: int|
        0 <= j < pre.len() && (#[trigger] cur[j])@.status == SoftwareStatus::Available
            ==> cur[j]@.reference_count == cap_sub(
            pre[j]@.reference_count as nat,
            (removed_edge_count(pre, cur, 0, pre[j]@.key()) - key_count(
                dk.subrange(t, dk.len() as int),
                pre[j]@.key(),
            )) as nat,
        )
    &&& forall|j: int|
        0 <= j < pre.len() && j != idx && (#[trigger] pre[j])@.status
            == SoftwareStatus::Available && cur[j]@.status == SoftwareStatus::Removed
            ==> pre[j]@.reference_count + key_count(
            dk.subrange(t, dk.len() as int),
            pre[j]@.key(),
        ) <= removed_edge_count(pre, cur, 0, pre[j]@.key())
}

/// The frame of one cascading removal: the store only shrinks, no new
/// collectable entry with a stored payload appears, and a surviving
/// available entry keeps its payload in the store.
#[verifier::opaque]
pub open spec fn cascade_frame(
    pre: Seq<Software>,
    prepm: PackageManager,
    cur: Seq<Software>,
    pm: PackageManager,
) -> bool {
    &&& forall|q: (Seq<char>, VersionWrapper)|
        pm.spec_contains(q) ==> prepm.spec_contains(q)
    &&& forall|j: int|
        0 <= j < pre.len() && coll_with_pm(cur, pm, j) ==> coll_with_pm(pre, prepm, j)
    &&& forall|j: int|
        0 <= j < pre.len() && (#[trigger] cur[j])@.status == SoftwareStatus::Available
            && prepm.spec_contains(cur[j]@.key()) ==> pm.spec_contains(cur[j]@.key())
}

/// Removed-edge counts add up across two consecutive collection steps.
pub proof fn lemma_rec_chain(
    a: Seq<Software>,
    b: Seq<Software>,
    c: Seq<Software>,
    from: int,
    k: (Seq<char>, VersionWrapper),
)
    requires
        a.len() == b.len(),
        b.len() == c.len(),
        gc_step_ok(a, b),
        gc_step_ok(b, c),
    ensures
        removed_edge_count(a, c, from, k) == removed_edge_count(a, b, from, k)
            + removed_edge_count(b, c, from, k),
    decreases a.len() - from,
{
    if 0 <= from && from < a.len() {
        assert(b[from]@.dependencies == a[from]@.dependencies);
        lemma_rec_chain(a, b, c, from + 1, k);
    }
}

/// A step that flips exactly one entry contributes exactly that entry's
/// edges.
pub proof fn lemma_rec_single(
    a: Seq<Software>,
    b: Seq<Software>,
    idx: int,
    from: int,
    k: (Seq<char>, VersionWrapper),
)
    requires
        a.len() == b.len(),
        0 <= from,
        0 <= idx < a.len(),
        forall|j: int| 0 <= j < a.len() && j != idx ==> (#[trigger] b[j])@.status == a[j]@.status,
        a[idx]@.status == SoftwareStatus::Available,
        b[idx]@.status == SoftwareStatus::Removed,
    ensures
        removed_edge_count(a, b, from, k) == if from <= idx {
            key_count(a[idx]@.dependencies, k)
        } else {
            0nat
        },
    decreases a.len() - from,
{
    if from < a.len() {
        lemma_rec_single(a, b, idx, from + 1, k);
    }
}

/// A step that flips no entry contributes no edges.
pub proof fn lemma_rec_none(
    a: Seq<Software>,
    b: Seq<Software>,
    from: int,
    k: (Seq<char>, VersionWrapper),
)
    requires
        a.len() == b.len(),
        forall|j: int| 0 <= j < a.len() ==> (#[trigger] b[j])@.status == a[j]@.status,
    ensures
        removed_edge_count(a, b, from, k) == 0,
    decreases a.len() - from,
{
    if 0 <= from && from < a.len() {
        lemma_rec_none(a, b, from + 1, k);
    }
}

/// Removed-edge counts depend only on the two sides' statuses and the
/// pre side's dependency lists.
pub proof fn lemma_rec_status_congruent(
    pre: Seq<Software>,
    a: Seq<Software>,
    b: Seq<Software>,
    from: int,
    k: (Seq<char>, VersionWrapper),
)
    requires
        pre.len() == a.len(),
        a.len() == b.len(),
        forall|j: int| 0 <= j < a.len() ==> (#[trigger] a[j])@.status == b[j]@.status,
    ensures
        removed_edge_count(pre, a, from, k) == removed_edge_count(pre, b, from, k),
    decreases pre.len() - from,
{
    if 0 <= from && from < pre.len() {
        lemma_rec_status_congruent(pre, a, b, from + 1, k);
    }
}

/// Key counting peels from the front as well as from the back.
pub proof fn lemma_key_count_front(ks: Seq<(Seq<char>, VersionWrapper)>, k: (Seq<char>, VersionWrapper))
    requires
        ks.len() > 0,
    ensures
        key_count(ks, k) == (if ks[0] == k {
            1nat
        } else {
            0nat
        }) + key_count(ks.drop_first(), k),
    decreases ks.len(),
{
    if ks.len() == 1 {
        assert(ks.drop_first().len() == 0);
        assert(ks.last() == ks[0]);
        assert(key_count(ks.drop_first(), k) == 0);
        assert(ks.drop_last().len() == 0);
        assert(key_count(ks.drop_last(), k) == 0);
        assert(key_count(ks, k) == key_count(ks.drop_last(), k) + (if ks.last() == k {
            1nat
        } else {
            0nat
        }));
    } else {
        lemma_key_count_front(ks.drop_last(), k);
        assert(ks.drop_last().drop_first() =~= ks.drop_first().drop_last());
        assert(ks.drop_first().last() == ks.last());
        assert(ks.drop_last()[0] == ks[0]);
        assert(ks.drop_first().len() > 0);
        assert(key_count(ks.drop_first(), k) == key_count(ks.drop_first().drop_last(), k) + (
        if ks.drop_first().last() == k {
            1nat
        } else {
            0nat
        }));
        assert(key_count(ks, k) == key_count(ks.drop_last(), k) + (if ks.last() == k {
            1nat
        } else {
            0nat
        }));
        assert(ks.drop_last().drop_first() == ks.drop_first().drop_last());
        assert(key_count(ks.drop_last(), k) == (if ks[0] == k {
            1nat
        } else {
            0nat
        }) + key_count(ks.drop_last().drop_first(), k));
        assert(key_count(ks.drop_first(), k) == key_count(ks.drop_last().drop_first(), k) + (
        if ks.last() == k {
            1nat
        } else {
            0nat
        }));
        assert(key_count(ks, k) == (if ks[0] == k {
            1nat
        } else {
            0nat
        }) + key_count(ks.drop_first(), k));
    }
}

/// Stepping a suffix forward releases exactly the element passed over.
pub proof fn lemma_key_count_suffix_step(
    ks: Seq<(Seq<char>, VersionWrapper)>,
    t: int,
    k: (Seq<char>, VersionWrapper),
)
    requires
        0 <= t < ks.len(),
    ensures
        key_count(ks.subrange(t, ks.len() as int), k) == (if ks[t] == k {
            1nat
        } else {
            0nat
        }) + key_count(ks.subrange(t + 1, ks.len() as int), k),
{
    let suf = ks.subrange(t, ks.len() as int);
    lemma_key_count_front(suf, k);
    assert(suf[0] == ks[t]);
    assert(suf.drop_first() =~= ks.subrange(t + 1, ks.len() as int));
}


/// The number of `Available` entries.
pub open spec fn avail_count(s: Seq<Software>) -> nat
    decreases s.len(),
{
    if s.len() == 0 {
        0
    } else {
        avail_count(s.drop_last()) + (if s.last()@.status == SoftwareStatus::Available {
            1nat
        } else {
            0nat
        })
    }
}

/// Pointwise dominance of availability bounds the count.
pub proof fn lemma_avail_count_le(s1: Seq<Software>, s2: Seq<Software>)
    requires
        s1.len() == s2.len(),
        forall|j: int|
            0 <= j < s1.len() ==> ((#[trigger] s1[j])@.status == SoftwareStatus::Available ==> (
            #[trigger] s2[j])@.status == SoftwareStatus::Available),
    ensures
        avail_count(s1) <= avail_count(s2),
    decreases s1.len(),
{
    if s1.len() > 0 {
        assert forall|j: int|
            0 <= j < s1.drop_last().len() implies ((#[trigger] s1.drop_last()[j])@.status
            == SoftwareStatus::Available ==> (#[trigger] s2.drop_last()[j])@.status
            == SoftwareStatus::Available) by {
            assert(s1.drop_last()[j] == s1[j]);
            assert(s2.drop_last()[j] == s2[j]);
        }
        lemma_avail_count_le(s1.drop_last(), s2.drop_last());
        assert(s1.last() == s1[s1.len() - 1]);
        assert(s2.last() == s2[s2.len() - 1]);
    }
}

/// Losing one available entry makes the count strictly smaller.
pub proof fn lemma_avail_count_lt(s1: Seq<Software>, s2: Seq<Software>, w: int)
    requires
        s1.len() == s2.len(),
        forall|j: int|
            0 <= j < s1.len() ==> ((#[trigger] s1[j])@.status == SoftwareStatus::Available ==> (
            #[trigger] s2[j])@.status == SoftwareStatus::Available),
        0 <= w < s1.len(),
        s2[w]@.status == SoftwareStatus::Available,
        s1[w]@.status != SoftwareStatus::Available,
    ensures
        avail_count(s1) < avail_count(s2),
    decreases s1.len(),
{
    assert forall|j: int|
        0 <= j < s1.drop_last().len() implies ((#[trigger] s1.drop_last()[j])@.status
        == SoftwareStatus::Available ==> (#[trigger] s2.drop_last()[j])@.status
        == SoftwareStatus::Available) by {
        assert(s1.drop_last()[j] == s1[j]);
        assert(s2.drop_last()[j] == s2[j]);
    }
    if w == s1.len() - 1 {
        lemma_avail_count_le(s1.drop_last(), s2.drop_last());
        assert(s1.last() == s1[w]);
        assert(s2.last() == s2[w]);
    } else {
        assert(s1.drop_last()[w] == s1[w]);
        assert(s2.drop_last()[w] == s2[w]);
        lemma_avail_count_lt(s1.drop_last(), s2.drop_last(), w);
        assert(s1.last() == s1[s1.len() - 1]);
        assert(s2.last() == s2[s2.len() - 1]);
    }
}

impl SoftwareManager {
    /// Cascading removal of one unreferenced entry: its payload leaves the
    /// store, its status becomes `Removed`, and each direct dependency
    /// loses one reference; a dependency that thereby reaches zero is
    /// removed recursively. When the store no longer holds the entry's
    /// payload, nothing changes and the error is surfaced.
    #[verifier::rlimit(100)]
    #[verifier::spinoff_prover]
    fn remove_software(&mut self, idx: usize, pm: &mut PackageManager) -> (r: Result<
        (),
        SoftwareManagerError,
    >)
        requires
            old(self).wf(),
            old(pm).wf(),
            idx < old(self).softwares@.len(),
            old(self).softwares@[idx as int]@.status == SoftwareStatus::Available,
            old(self).softwares@[idx as int]@.reference_count == 0,
        ensures
            final(self).wf(),
            final(pm).wf(),
            gc_step_ok(old(self).softwares@, final(self).softwares@),
            forall|k: (Seq<char>, VersionWrapper)|
                final(pm).spec_contains(k) ==> old(pm).spec_contains(k),
            forall|j: int|
                0 <= j < old(self).softwares@.len() && coll_with_pm(
                    final(self).softwares@,
                    *final(pm),
                    j,
                ) ==> coll_with_pm(old(self).softwares@, *old(pm), j),
            !coll_with_pm(final(self).softwares@, *final(pm), idx as int),
            avail_count(final(self).softwares@) <= avail_count(old(self).softwares@),
            !old(pm).spec_contains(old(self).softwares@[idx as int]@.key()) ==> final(self).softwares@ == old(self).softwares@ && final(pm).packages@ == old(
                pm,
            ).packages@,
            old(pm).spec_contains(old(self).softwares@[idx as int]@.key()) ==> final(self).softwares@[idx as int]@.status == SoftwareStatus::Removed,
            forall|j: int|
                0 <= j < old(self).softwares@.len() && (#[trigger] final(self).softwares@[j])@.status
                    == SoftwareStatus::Available && old(pm).spec_contains(
                    old(self).softwares@[j]@.key(),
                ) ==> final(pm).spec_contains(old(self).softwares@[j]@.key()),
            (forall|j: int|
                0 <= j < old(self).softwares@.len() && (#[trigger] old(self).softwares@[j])@.status
                    == SoftwareStatus::Available ==> old(pm).spec_contains(
                    old(self).softwares@[j]@.key(),
                )) ==> r is Ok,
            r is Ok ==> forall|j: int|
                0 <= j < old(self).softwares@.len() && (#[trigger] final(self).softwares@[j])@.status
                    == SoftwareStatus::Available ==> final(self).softwares@[j]@.reference_count
                    == cap_sub(
                    old(self).softwares@[j]@.reference_count as nat,
                    removed_edge_count(
                        old(self).softwares@,
                        final(self).softwares@,
                        0,
                        old(self).softwares@[j]@.key(),
                    ),
                ),
            r is Ok ==> forall|j: int|
                0 <= j < old(self).softwares@.len() && j != idx && (#[trigger] old(
                    self,
                ).softwares@[j])@.status == SoftwareStatus::Available && final(self).softwares@[j]@.status == SoftwareStatus::Removed ==> old(
                    self,
                ).softwares@[j]@.reference_count <= removed_edge_count(
                    old(self).softwares@,
                    final(self).softwares@,
                    0,
                    old(self).softwares@[j]@.key(),
                ),
            match r {
                Ok(()) => final(self).softwares@[idx as int]@.status == SoftwareStatus::Removed,
                Err(e) => e matches SoftwareManagerError::PackageNotFound(_),
            },
        decreases avail_count(self.softwares@),
    {
        let ghost pre = old(self).softwares@;
        let ghost prepm = *old(pm);
        let entry = self.softwares[idx].clone();
        match pm.uninstall_package(entry.archive.clone(), entry.version) {
            Ok(()) => {},
            Err(e) => {
                proof {
                    assert(!prepm.spec_contains(pre[idx as int]@.key()));
                    assert(gc_step_ok(pre, self.softwares@));
                    lemma_avail_count_le(self.softwares@, pre);
                    assert(pre[idx as int]@.status == SoftwareStatus::Available);
                }
                return Err(SoftwareManagerError::from(e));
            },
        }
        let mut marked = self.softwares[idx].clone();
        marked.inner.remove();
        self.softwares.set(idx, marked);
        proof {
            assert(self.softwares@[idx as int]@.status == SoftwareStatus::Removed);
            assert(self.softwares@[idx as int]@.reference_count == 0);
            assert(gc_step_ok(pre, self.softwares@)) by {
                assert forall|j: int|
                    0 <= j < pre.len() implies {
                        let v = (#[trigger] self.softwares@[j])@;
                        let o = pre[j]@;
                        &&& v.archive == o.archive
                        &&& v.version == o.version
                        &&& v.dependencies == o.dependencies
                        &&& v.reference_count <= o.reference_count
                        &&& (v.status == o.status || (o.status == SoftwareStatus::Available
                            && v.status == SoftwareStatus::Removed))
                    } by {
                    if j != idx {
                        assert(self.softwares@[j] == pre[j]);
                    }
                }
            }
            assert(self.wf()) by {
                assert forall|i: int, j: int|
                    0 <= i < self.softwares@.len() && 0 <= j < self.softwares@.len() && (
                    #[trigger] self.softwares@[i])@.is_live() && (
                    #[trigger] self.softwares@[j])@.is_live() && self.softwares@[i]@.key()
                        == self.softwares@[j]@.key() implies i == j by {
                    assert(pre[i]@.is_live() && pre[j]@.is_live());
                    assert(pre[i]@.key() == pre[j]@.key());
                    assert(old(self).wf());
                }
                assert forall|i: int| 0 <= i < self.softwares@.len() implies ((
                #[trigger] self.softwares@[i])@.status == SoftwareStatus::Removed
                    ==> self.softwares@[i]@.reference_count == 0) by {
                    if i != idx {
                        assert(self.softwares@[i] == pre[i]);
                    }
                }
            }
            lemma_avail_count_lt(self.softwares@, pre, idx as int);
            assert forall|k: (Seq<char>, VersionWrapper)| pm.spec_contains(k) implies
                prepm.spec_contains(k) by {}
            assert forall|j: int|
                0 <= j < pre.len() && coll_with_pm(self.softwares@, *pm, j) implies coll_with_pm(
                pre,
                prepm,
                j,
            ) by {
                if j != idx {
                    assert(self.softwares@[j] == pre[j]);
                }
            }
        }
        let ghost dk = pre[idx as int]@.dependencies;
        proof {
            assert(entry@ == pre[idx as int]@);
            assert(keys_of(entry.dependencies@) == dk);
            // at the start the whole dependency list is still pending, and
            // the only removed entry is the target itself
            assert forall|q: (Seq<char>, VersionWrapper)|
                #[trigger] removed_edge_count(pre, self.softwares@, 0, q) == key_count(dk, q) by {
                lemma_rec_single(pre, self.softwares@, idx as int, 0, q);
            }
            assert forall|q: (Seq<char>, VersionWrapper)|
                #[trigger] key_count(dk.subrange(0, dk.len() as int), q) <= removed_edge_count(
                pre,
                self.softwares@,
                0,
                q,
            ) by {
                assert(dk.subrange(0, dk.len() as int) =~= dk);
            }
            assert forall|j: int|
                0 <= j < pre.len() && (#[trigger] self.softwares@[j])@.status
                    == SoftwareStatus::Available implies self.softwares@[j]@.reference_count
                == cap_sub(
                pre[j]@.reference_count as nat,
                (removed_edge_count(pre, self.softwares@, 0, pre[j]@.key()) - key_count(
                    dk.subrange(0, dk.len() as int),
                    pre[j]@.key(),
                )) as nat,
            ) by {
                assert(j != idx);
                assert(self.softwares@[j] == pre[j]);
                assert(dk.subrange(0, dk.len() as int) =~= dk);
            }
            assert forall|j: int|
                0 <= j < pre.len() && (#[trigger] self.softwares@[j])@.status
                    == SoftwareStatus::Available && prepm.spec_contains(
                self.softwares@[j]@.key()) implies pm.spec_contains(self.softwares@[j]@.key()) by {
                assert(j != idx);
                assert(self.softwares@[j] == pre[j]);
                assert(pre[j]@.is_live() && pre[idx as int]@.is_live());
                assert(pre[j]@.key() != pre[idx as int]@.key());
            }
            assert forall|j: int|
                0 <= j < pre.len() && j != idx as int && (#[trigger] pre[j])@.status
                    == SoftwareStatus::Available && self.softwares@[j]@.status
                    == SoftwareStatus::Removed implies false by {
                assert(self.softwares@[j] == pre[j]);
            }
            assert(cascade_ledger(pre, self.softwares@, dk, 0, idx as int)) by {
                reveal(cascade_ledger);
            }
            assert(cascade_frame(pre, prepm, self.softwares@, *pm)) by {
                reveal(cascade_frame);
            }
        }
        let mut k: usize = 0;
        while k < entry.dependencies.len()
            invariant
                0 <= k <= entry.dependencies@.len(),
                pre == old(self).softwares@,
                prepm == *old(pm),
                idx < pre.len(),
                self.wf(),
                pm.wf(),
                gc_step_ok(pre, self.softwares@),
                self.softwares@[idx as int]@.status == SoftwareStatus::Removed,
                prepm.spec_contains(pre[idx as int]@.key()),
                avail_count(self.softwares@) < avail_count(pre),
                dk == pre[idx as int]@.dependencies,
                dk == keys_of(entry.dependencies@),
                cascade_ledger(pre, self.softwares@, dk, k as int, idx as int),
                cascade_frame(pre, prepm, self.softwares@, *pm),
            decreases entry.dependencies@.len() - k,
        {
            let d = &entry.dependencies[k];
            proof {
                assert(keys_of(entry.dependencies@)[k as int] == entry.dependencies@[k as int]@);
                assert(dk[k as int] == d@);
            }
            match self.find_live_index(d) {
                None => {
                    proof {
                        reveal(cascade_ledger);
                        assert(cascade_ledger(pre, self.softwares@, dk, k as int, idx as int));
                        assert forall|j: int|
                            0 <= j < pre.len() && (#[trigger] self.softwares@[j])@.status
                                == SoftwareStatus::Available implies self.softwares@[j]@.key()
                            != dk[k as int] by {
                            if self.softwares@[j]@.key() == dk[k as int] {
                                assert(self.softwares@[j]@.is_live());
                                assert(self.is_live_key(d@));
                            }
                        }
                        assert forall|a: int|
                            0 <= a < pre.len() implies (#[trigger] self.softwares@[a])@.key()
                            == pre[a]@.key() by {}
                        Self::lemma_skip_ledger(pre, self.softwares@, dk, k as int, idx as int);
                        assert(cascade_ledger(
                            pre,
                            self.softwares@,
                            dk,
                            k as int + 1,
                            idx as int,
                        ));
                    }
                },
                Some(j) => {
                    if matches!(self.softwares[j].inner.status, SoftwareStatus::Available) {
                        let ghost midpre = self.softwares@;
                        let mut de = self.softwares[j].clone();
                        let newrc = de.inner.descrease();
                        self.softwares.set(j, de);
                        proof {
                            assert(self.softwares@[j as int]@.status
                                == SoftwareStatus::Available);
                            assert(self.softwares@[j as int]@.reference_count == cap_sub(
                                midpre[j as int]@.reference_count as nat,
                                1,
                            ));
                            assert(gc_step_ok(pre, self.softwares@)) by {
                                assert forall|a: int|
                                    0 <= a < pre.len() implies {
                                        let v = (#[trigger] self.softwares@[a])@;
                                        let o = pre[a]@;
                                        &&& v.archive == o.archive
                                        &&& v.version == o.version
                                        &&& v.dependencies == o.dependencies
                                        &&& v.reference_count <= o.reference_count
                                        &&& (v.status == o.status || (o.status
                                            == SoftwareStatus::Available && v.status
                                            == SoftwareStatus::Removed))
                                    } by {
                                    if a != j {
                                        assert(self.softwares@[a] == midpre[a]);
                                    }
                                }
                            }
                            assert(self.wf()) by {
                                assert forall|a: int, b: int|
                                    0 <= a < self.softwares@.len() && 0 <= b
                                        < self.softwares@.len() && (
                                    #[trigger] self.softwares@[a])@.is_live() && (
                                    #[trigger] self.softwares@[b])@.is_live()
                                        && self.softwares@[a]@.key() == self.softwares@[b]@.key()
                                        implies a == b by {
                                    if a != j {
                                        assert(self.softwares@[a] == midpre[a]);
                                    }
                                    if b != j {
                                        assert(self.softwares@[b] == midpre[b]);
                                    }
                                    assert(midpre[a]@.is_live() && midpre[b]@.is_live());
                                    assert(midpre[a]@.key() == midpre[b]@.key());
                                }
                                assert forall|a: int| 0 <= a < self.softwares@.len() implies ((
                                #[trigger] self.softwares@[a])@.status == SoftwareStatus::Removed
                                    ==> self.softwares@[a]@.reference_count == 0) by {
                                    if a != j {
                                        assert(self.softwares@[a] == midpre[a]);
                                    }
                                }
                            }
                            assert(avail_count(self.softwares@) < avail_count(pre)) by {
                                assert forall|a: int|
                                    0 <= a < self.softwares@.len() implies ((
                                #[trigger] self.softwares@[a])@.status
                                    == SoftwareStatus::Available ==> (
                                #[trigger] midpre[a])@.status == SoftwareStatus::Available) by {
                                    if a != j {
                                        assert(self.softwares@[a] == midpre[a]);
                                    }
                                }
                                lemma_avail_count_le(self.softwares@, midpre);
                            }
                            // the edge ledger: one pending edge was applied
                            reveal(cascade_ledger);
                            assert(cascade_ledger(pre, midpre, dk, k as int, idx as int));
                            assert(midpre[j as int]@.key() == dk[k as int]);
                            assert forall|a: int|
                                0 <= a < pre.len() implies (#[trigger] midpre[a])@.key()
                                == pre[a]@.key() by {}
                            assert forall|a: int|
                                0 <= a < pre.len() && a != j as int && (
                                #[trigger] self.softwares@[a])@.status
                                    == SoftwareStatus::Available implies self.softwares@[a]@.key()
                                != dk[k as int] by {
                                if self.softwares@[a]@.key() == dk[k as int] {
                                    assert(self.softwares@[a]@.is_live());
                                    assert(self.softwares@[j as int]@.is_live());
                                    assert(self.softwares@[a]@.key() == self.softwares@[
                                        j as int
                                    ]@.key());
                                }
                            }
                            Self::lemma_decrement_ledger(
                                pre,
                                midpre,
                                self.softwares@,
                                dk,
                                k as int,
                                idx as int,
                                j as int,
                            );
                            assert(cascade_ledger(
                                pre,
                                self.softwares@,
                                dk,
                                k as int + 1,
                                idx as int,
                            ));
                            reveal(cascade_frame);
                            assert(cascade_frame(pre, prepm, midpre, *pm));
                            assert forall|a: int|
                                0 <= a < pre.len() && (#[trigger] self.softwares@[a])@.status
                                    == SoftwareStatus::Available && prepm.spec_contains(
                                self.softwares@[a]@.key()) implies pm.spec_contains(
                                self.softwares@[a]@.key()) by {
                                if a != j {
                                    assert(self.softwares@[a] == midpre[a]);
                                } else {
                                    assert(self.softwares@[a]@.key() == midpre[a]@.key());
                                    assert(midpre[a]@.status == SoftwareStatus::Available);
                                }
                            }
                        }
                        if newrc == 0 {
                            let ghost before_child = self.softwares@;
                            let ghost before_child_pm = *pm;
                            match self.remove_software(j, pm) {
                                Ok(()) => {},
                                Err(e) => {
                                    proof {
                                        reveal(cascade_frame);
                                        assert(cascade_frame(
                                            pre,
                                            prepm,
                                            midpre,
                                            before_child_pm,
                                        ));
                                        Self::lemma_gc_compose(
                                            pre,
                                            before_child,
                                            self.softwares@,
                                            prepm,
                                            before_child_pm,
                                            *pm,
                                            j as int,
                                            idx as int,
                                        );
                                        let post = self.softwares@;
                                        assert(post[idx as int]@.status
                                            == SoftwareStatus::Removed);
                                        assert forall|a: int|
                                            0 <= a < pre.len() && (#[trigger] post[a])@.status
                                                == SoftwareStatus::Available
                                                && prepm.spec_contains(pre[a]@.key()) implies
                                            pm.spec_contains(pre[a]@.key()) by {
                                            assert(before_child[a]@.status
                                                == SoftwareStatus::Available);
                                            assert(before_child[a]@.key() == pre[a]@.key());
                                            assert(post[a]@.key() == pre[a]@.key());
                                        }
                                        assert(!(forall|a: int|
                                            0 <= a < pre.len() && (#[trigger] pre[a])@.status
                                                == SoftwareStatus::Available
                                                ==> prepm.spec_contains(pre[a]@.key()))) by {
                                            if forall|a: int|
                                                0 <= a < pre.len() && (#[trigger] pre[a])@.status
                                                    == SoftwareStatus::Available
                                                    ==> prepm.spec_contains(pre[a]@.key()) {
                                                assert forall|a: int|
                                                    0 <= a < before_child.len() && (
                                                #[trigger] before_child[a])@.status
                                                    == SoftwareStatus::Available implies
                                                    before_child_pm.spec_contains(
                                                    before_child[a]@.key()) by {
                                                    assert(pre[a]@.status
                                                        == SoftwareStatus::Available);
                                                    assert(before_child[a]@.key()
                                                        == pre[a]@.key());
                                                    assert(prepm.spec_contains(pre[a]@.key()));
                                                }
                                                assert(false);
                                            }
                                        }
                                    }
                                    return Err(e);
                                },
                            }
                            proof {
                                reveal(cascade_frame);
                                assert(cascade_frame(pre, prepm, midpre, before_child_pm));
                                Self::lemma_gc_compose(
                                    pre,
                                    before_child,
                                    self.softwares@,
                                    prepm,
                                    before_child_pm,
                                    *pm,
                                    j as int,
                                    idx as int,
                                );
                                let post = self.softwares@;
                                reveal(cascade_ledger);
                                assert(cascade_ledger(
                                    pre,
                                    before_child,
                                    dk,
                                    k as int + 1,
                                    idx as int,
                                ));
                                assert(before_child[j as int]@.status
                                    == SoftwareStatus::Available);
                                assert(before_child[j as int]@.reference_count == 0);
                                Self::lemma_child_ledger(
                                    pre,
                                    before_child,
                                    post,
                                    dk,
                                    k as int + 1,
                                    idx as int,
                                    j as int,
                                );
                                assert(cascade_ledger(pre, post, dk, k as int + 1, idx as int));
                                assert forall|a: int|
                                    0 <= a < pre.len() && (#[trigger] post[a])@.status
                                        == SoftwareStatus::Available && prepm.spec_contains(
                                    post[a]@.key()) implies pm.spec_contains(post[a]@.key()) by {
                                    assert(before_child[a]@.status == SoftwareStatus::Available);
                                    assert(before_child[a]@.key() == post[a]@.key());
                                }
                                assert(cascade_frame(pre, prepm, post, *pm));
                            }
                        } else {
                            proof {
                                reveal(cascade_frame);
                                assert forall|a: int|
                                    0 <= a < pre.len() && coll_with_pm(self.softwares@, *pm, a)
                                    implies coll_with_pm(pre, prepm, a) by {
                                    if a != j {
                                        assert(self.softwares@[a] == midpre[a]);
                                        assert(coll_with_pm(midpre, *pm, a));
                                    } else {
                                        assert(self.softwares@[a]@.reference_count == newrc);
                                    }
                                }
                                assert(cascade_frame(pre, prepm, self.softwares@, *pm));
                            }
                        }
                    } else {
                        proof {
                            reveal(cascade_ledger);
                            assert(cascade_ledger(
                                pre,
                                self.softwares@,
                                dk,
                                k as int,
                                idx as int,
                            ));
                            assert forall|a: int|
                                0 <= a < pre.len() && (#[trigger] self.softwares@[a])@.status
                                    == SoftwareStatus::Available implies self.softwares@[a]@.key()
                                != dk[k as int] by {
                                if self.softwares@[a]@.key() == dk[k as int] {
                                    assert(self.softwares@[a]@.is_live());
                                    assert(self.softwares@[j as int]@.is_live());
                                    assert(self.softwares@[j as int]@.key() == d@);
                                    assert(a == j as int);
                                }
                            }
                            assert forall|a: int|
                                0 <= a < pre.len() implies (#[trigger] self.softwares@[a])@.key()
                                == pre[a]@.key() by {}
                            Self::lemma_skip_ledger(pre, self.softwares@, dk, k as int, idx as int);
                            assert(cascade_ledger(
                                pre,
                                self.softwares@,
                                dk,
                                k as int + 1,
                                idx as int,
                            ));
                        }
                    }
                },
            }
            k = k + 1;
        }
        proof {
            reveal(cascade_frame);
            assert(cascade_frame(pre, prepm, self.softwares@, *pm));
            reveal(cascade_ledger);
            assert(cascade_ledger(pre, self.softwares@, dk, dk.len() as int, idx as int));
            assert forall|q: (Seq<char>, VersionWrapper)|
                #[trigger] key_count(dk.subrange(dk.len() as int, dk.len() as int), q) == 0 by {
                assert(dk.subrange(dk.len() as int, dk.len() as int) =~= Seq::<
                    (Seq<char>, VersionWrapper),
                >::empty());
            }
            assert forall|j: int|
                0 <= j < pre.len() && (#[trigger] self.softwares@[j])@.status
                    == SoftwareStatus::Available implies self.softwares@[j]@.reference_count
                == cap_sub(
                pre[j]@.reference_count as nat,
                removed_edge_count(pre, self.softwares@, 0, pre[j]@.key()),
            ) by {
                assert(self.softwares@[j]@.reference_count == cap_sub(
                    pre[j]@.reference_count as nat,
                    (removed_edge_count(pre, self.softwares@, 0, pre[j]@.key()) - key_count(
                        dk.subrange(dk.len() as int, dk.len() as int),
                        pre[j]@.key(),
                    )) as nat,
                ));
            }
            assert forall|j: int|
                0 <= j < pre.len() && j != idx as int && (#[trigger] pre[j])@.status
                    == SoftwareStatus::Available && self.softwares@[j]@.status
                    == SoftwareStatus::Removed implies pre[j]@.reference_count
                <= removed_edge_count(pre, self.softwares@, 0, pre[j]@.key()) by {
                assert(pre[j]@.reference_count + key_count(
                    dk.subrange(dk.len() as int, dk.len() as int),
                    pre[j]@.key(),
                ) <= removed_edge_count(pre, self.softwares@, 0, pre[j]@.key()));
            }
        }
        Ok(())
    }

    /// One pending edge was applied: the entry holding its key lost one
    /// reference and the ledger steps forward.
    proof fn lemma_decrement_ledger(
        pre: Seq<Software>,
        midpre: Seq<Software>,
        cur: Seq<Software>,
        dk: Seq<(Seq<char>, VersionWrapper)>,
        k: int,
        idx: int,
        j: int,
    )
        requires
            0 <= k < dk.len(),
            0 <= idx < pre.len(),
            0 <= j < pre.len(),
            pre.len() == midpre.len(),
            midpre.len() == cur.len(),
            forall|q: (Seq<char>, VersionWrapper)|
                #[trigger] key_count(dk.subrange(k, dk.len() as int), q) <= removed_edge_count(
                    pre,
                    midpre,
                    0,
                    q,
                ),
            forall|a: int|
                0 <= a < pre.len() && (#[trigger] midpre[a])@.status == SoftwareStatus::Available
                    ==> midpre[a]@.reference_count == cap_sub(
                    pre[a]@.reference_count as nat,
                    (removed_edge_count(pre, midpre, 0, pre[a]@.key()) - key_count(
                        dk.subrange(k, dk.len() as int),
                        pre[a]@.key(),
                    )) as nat,
                ),
            forall|a: int|
                0 <= a < pre.len() && a != idx && (#[trigger] pre[a])@.status
                    == SoftwareStatus::Available && midpre[a]@.status == SoftwareStatus::Removed
                    ==> pre[a]@.reference_count + key_count(
                    dk.subrange(k, dk.len() as int),
                    pre[a]@.key(),
                ) <= removed_edge_count(pre, midpre, 0, pre[a]@.key()),
            forall|a: int| 0 <= a < pre.len() && a != j ==> (#[trigger] cur[a]) == midpre[a],
            forall|a: int| 0 <= a < pre.len() ==> (#[trigger] midpre[a])@.key() == pre[a]@.key(),
            cur[j]@.status == midpre[j]@.status,
            cur[j]@.key() == midpre[j]@.key(),
            midpre[j]@.status == SoftwareStatus::Available,
            cur[j]@.reference_count == cap_sub(midpre[j]@.reference_count as nat, 1),
            midpre[j]@.key() == dk[k],
            forall|a: int|
                0 <= a < pre.len() && a != j && (#[trigger] cur[a])@.status
                    == SoftwareStatus::Available ==> cur[a]@.key() != dk[k],
        ensures
            forall|q: (Seq<char>, VersionWrapper)|
                #[trigger] key_count(dk.subrange(k + 1, dk.len() as int), q) <= removed_edge_count(
                    pre,
                    cur,
                    0,
                    q,
                ),
            forall|a: int|
                0 <= a < pre.len() && (#[trigger] cur[a])@.status == SoftwareStatus::Available
                    ==> cur[a]@.reference_count == cap_sub(
                    pre[a]@.reference_count as nat,
                    (removed_edge_count(pre, cur, 0, pre[a]@.key()) - key_count(
                        dk.subrange(k + 1, dk.len() as int),
                        pre[a]@.key(),
                    )) as nat,
                ),
            forall|a: int|
                0 <= a < pre.len() && a != idx && (#[trigger] pre[a])@.status
                    == SoftwareStatus::Available && cur[a]@.status == SoftwareStatus::Removed
                    ==> pre[a]@.reference_count + key_count(
                    dk.subrange(k + 1, dk.len() as int),
                    pre[a]@.key(),
                ) <= removed_edge_count(pre, cur, 0, pre[a]@.key()),
    {
        assert forall|q: (Seq<char>, VersionWrapper)|
            #[trigger] removed_edge_count(pre, cur, 0, q) == removed_edge_count(
            pre,
            midpre,
            0,
            q,
        ) by {
            assert forall|a: int| 0 <= a < cur.len() implies (#[trigger] cur[a])@.status
                == midpre[a]@.status by {
                if a != j {
                    assert(cur[a] == midpre[a]);
                }
            }
            lemma_rec_status_congruent(pre, cur, midpre, 0, q);
        }
        assert forall|q: (Seq<char>, VersionWrapper)|
            #[trigger] key_count(dk.subrange(k + 1, dk.len() as int), q) <= removed_edge_count(
                pre,
                cur,
                0,
                q,
            ) by {
            lemma_key_count_suffix_step(dk, k, q);
        }
        assert forall|a: int|
            0 <= a < pre.len() && (#[trigger] cur[a])@.status == SoftwareStatus::Available implies
            cur[a]@.reference_count == cap_sub(
            pre[a]@.reference_count as nat,
            (removed_edge_count(pre, cur, 0, pre[a]@.key()) - key_count(
                dk.subrange(k + 1, dk.len() as int),
                pre[a]@.key(),
            )) as nat,
        ) by {
            lemma_key_count_suffix_step(dk, k, pre[a]@.key());
            if a == j {
                assert(pre[a]@.key() == dk[k]);
                assert(midpre[a]@.reference_count == cap_sub(
                    pre[a]@.reference_count as nat,
                    (removed_edge_count(pre, midpre, 0, pre[a]@.key()) - key_count(
                        dk.subrange(k, dk.len() as int),
                        pre[a]@.key(),
                    )) as nat,
                ));
                assert(key_count(dk.subrange(k, dk.len() as int), pre[a]@.key()) == 1 + key_count(
                    dk.subrange(k + 1, dk.len() as int),
                    pre[a]@.key(),
                ));
            } else {
                assert(cur[a] == midpre[a]);
                assert(pre[a]@.key() != dk[k]);
            }
        }
        assert forall|a: int|
            0 <= a < pre.len() && a != idx && (#[trigger] pre[a])@.status
                == SoftwareStatus::Available && cur[a]@.status == SoftwareStatus::Removed implies
            pre[a]@.reference_count + key_count(
            dk.subrange(k + 1, dk.len() as int),
            pre[a]@.key(),
        ) <= removed_edge_count(pre, cur, 0, pre[a]@.key()) by {
            assert(cur[a] == midpre[a]);
            lemma_key_count_suffix_step(dk, k, pre[a]@.key());
        }
    }

    /// Composes the ledger across one recursive removal: the child's exact
    /// bookkeeping adds onto what the surrounding call had already applied.
    proof fn lemma_child_ledger(
        pre: Seq<Software>,
        bc: Seq<Software>,
        post: Seq<Software>,
        dk: Seq<(Seq<char>, VersionWrapper)>,
        t: int,
        idx: int,
        j: int,
    )
        requires
            0 <= t <= dk.len(),
            0 <= j < pre.len(),
            pre.len() == bc.len(),
            bc.len() == post.len(),
            gc_step_ok(pre, bc),
            gc_step_ok(bc, post),
            forall|q: (Seq<char>, VersionWrapper)|
                #[trigger] key_count(dk.subrange(t, dk.len() as int), q) <= removed_edge_count(
                    pre,
                    bc,
                    0,
                    q,
                ),
            forall|a: int|
                0 <= a < pre.len() && (#[trigger] bc[a])@.status == SoftwareStatus::Available
                    ==> bc[a]@.reference_count == cap_sub(
                    pre[a]@.reference_count as nat,
                    (removed_edge_count(pre, bc, 0, pre[a]@.key()) - key_count(
                        dk.subrange(t, dk.len() as int),
                        pre[a]@.key(),
                    )) as nat,
                ),
            forall|a: int|
                0 <= a < pre.len() && a != idx && (#[trigger] pre[a])@.status
                    == SoftwareStatus::Available && bc[a]@.status == SoftwareStatus::Removed
                    ==> pre[a]@.reference_count + key_count(
                    dk.subrange(t, dk.len() as int),
                    pre[a]@.key(),
                ) <= removed_edge_count(pre, bc, 0, pre[a]@.key()),
            bc[j]@.status == SoftwareStatus::Available,
            bc[j]@.reference_count == 0,
            forall|a: int|
                0 <= a < bc.len() && (#[trigger] post[a])@.status == SoftwareStatus::Available
                    ==> post[a]@.reference_count == cap_sub(
                    bc[a]@.reference_count as nat,
                    removed_edge_count(bc, post, 0, bc[a]@.key()),
                ),
            forall|a: int|
                0 <= a < bc.len() && a != j && (#[trigger] bc[a])@.status
                    == SoftwareStatus::Available && post[a]@.status == SoftwareStatus::Removed
                    ==> bc[a]@.reference_count <= removed_edge_count(bc, post, 0, bc[a]@.key()),
        ensures
            forall|q: (Seq<char>, VersionWrapper)|
                #[trigger] key_count(dk.subrange(t, dk.len() as int), q) <= removed_edge_count(
                    pre,
                    post,
                    0,
                    q,
                ),
            forall|a: int|
                0 <= a < pre.len() && (#[trigger] post[a])@.status == SoftwareStatus::Available
                    ==> post[a]@.reference_count == cap_sub(
                    pre[a]@.reference_count as nat,
                    (removed_edge_count(pre, post, 0, pre[a]@.key()) - key_count(
                        dk.subrange(t, dk.len() as int),
                        pre[a]@.key(),
                    )) as nat,
                ),
            forall|a: int|
                0 <= a < pre.len() && a != idx && (#[trigger] pre[a])@.status
                    == SoftwareStatus::Available && post[a]@.status == SoftwareStatus::Removed
                    ==> pre[a]@.reference_count + key_count(
                    dk.subrange(t, dk.len() as int),
                    pre[a]@.key(),
                ) <= removed_edge_count(pre, post, 0, pre[a]@.key()),
    {
        assert forall|q: (Seq<char>, VersionWrapper)|
            #[trigger] removed_edge_count(pre, post, 0, q) == removed_edge_count(pre, bc, 0, q)
                + removed_edge_count(bc, post, 0, q) by {
            lemma_rec_chain(pre, bc, post, 0, q);
        }
        assert forall|a: int| 0 <= a < pre.len() implies ((#[trigger] bc[a])@.key()
            == pre[a]@.key() && post[a]@.key() == pre[a]@.key()) by {}
        assert forall|a: int|
            0 <= a < pre.len() && (#[trigger] post[a])@.status == SoftwareStatus::Available implies
            post[a]@.reference_count == cap_sub(
            pre[a]@.reference_count as nat,
            (removed_edge_count(pre, post, 0, pre[a]@.key()) - key_count(
                dk.subrange(t, dk.len() as int),
                pre[a]@.key(),
            )) as nat,
        ) by {
            assert(bc[a]@.status == SoftwareStatus::Available);
            assert(bc[a]@.key() == pre[a]@.key());
            let pend = key_count(dk.subrange(t, dk.len() as int), pre[a]@.key());
            let eb = removed_edge_count(pre, bc, 0, pre[a]@.key());
            let ec = removed_edge_count(bc, post, 0, pre[a]@.key());
            assert(pend <= eb);
            assert(post[a]@.reference_count == cap_sub(
                cap_sub(pre[a]@.reference_count as nat, (eb - pend) as nat),
                ec,
            ));
        }
        assert forall|a: int|
            0 <= a < pre.len() && a != idx && (#[trigger] pre[a])@.status
                == SoftwareStatus::Available && post[a]@.status == SoftwareStatus::Removed implies
            pre[a]@.reference_count + key_count(
            dk.subrange(t, dk.len() as int),
            pre[a]@.key(),
        ) <= removed_edge_count(pre, post, 0, pre[a]@.key()) by {
            let pend = key_count(dk.subrange(t, dk.len() as int), pre[a]@.key());
            let eb = removed_edge_count(pre, bc, 0, pre[a]@.key());
            let ec = removed_edge_count(bc, post, 0, pre[a]@.key());
            assert(pend <= eb);
            if bc[a]@.status == SoftwareStatus::Removed {
                assert(pre[a]@.reference_count + pend <= eb);
            } else {
                assert(bc[a]@.status == SoftwareStatus::Available);
                assert(bc[a]@.key() == pre[a]@.key());
                assert(bc[a]@.reference_count == cap_sub(
                    pre[a]@.reference_count as nat,
                    (eb - pend) as nat,
                ));
                if a == j {
                    assert(bc[a]@.reference_count == 0);
                } else {
                    assert(bc[a]@.reference_count <= ec);
                }
            }
        }
    }

    /// One pending edge was passed over without a live target: the ledger
    /// invariants step forward unchanged.
    proof fn lemma_skip_ledger(
        pre: Seq<Software>,
        cur: Seq<Software>,
        dk: Seq<(Seq<char>, VersionWrapper)>,
        k: int,
        idx: int,
    )
        requires
            0 <= k < dk.len(),
            0 <= idx < pre.len(),
            pre.len() == cur.len(),
            forall|q: (Seq<char>, VersionWrapper)|
                #[trigger] key_count(dk.subrange(k, dk.len() as int), q) <= removed_edge_count(
                    pre,
                    cur,
                    0,
                    q,
                ),
            forall|j: int|
                0 <= j < pre.len() && (#[trigger] cur[j])@.status == SoftwareStatus::Available
                    ==> cur[j]@.reference_count == cap_sub(
                    pre[j]@.reference_count as nat,
                    (removed_edge_count(pre, cur, 0, pre[j]@.key()) - key_count(
                        dk.subrange(k, dk.len() as int),
                        pre[j]@.key(),
                    )) as nat,
                ),
            forall|j: int|
                0 <= j < pre.len() && j != idx && (#[trigger] pre[j])@.status
                    == SoftwareStatus::Available && cur[j]@.status == SoftwareStatus::Removed
                    ==> pre[j]@.reference_count + key_count(
                    dk.subrange(k, dk.len() as int),
                    pre[j]@.key(),
                ) <= removed_edge_count(pre, cur, 0, pre[j]@.key()),
            forall|j: int|
                0 <= j < pre.len() && (#[trigger] cur[j])@.status == SoftwareStatus::Available
                    ==> cur[j]@.key() != dk[k],
            forall|j: int| 0 <= j < pre.len() ==> (#[trigger] cur[j])@.key() == pre[j]@.key(),
        ensures
            forall|q: (Seq<char>, VersionWrapper)|
                #[trigger] key_count(dk.subrange(k + 1, dk.len() as int), q) <= removed_edge_count(
                    pre,
                    cur,
                    0,
                    q,
                ),
            forall|j: int|
                0 <= j < pre.len() && (#[trigger] cur[j])@.status == SoftwareStatus::Available
                    ==> cur[j]@.reference_count == cap_sub(
                    pre[j]@.reference_count as nat,
                    (removed_edge_count(pre, cur, 0, pre[j]@.key()) - key_count(
                        dk.subrange(k + 1, dk.len() as int),
                        pre[j]@.key(),
                    )) as nat,
                ),
            forall|j: int|
                0 <= j < pre.len() && j != idx && (#[trigger] pre[j])@.status
                    == SoftwareStatus::Available && cur[j]@.status == SoftwareStatus::Removed
                    ==> pre[j]@.reference_count + key_count(
                    dk.subrange(k + 1, dk.len() as int),
                    pre[j]@.key(),
                ) <= removed_edge_count(pre, cur, 0, pre[j]@.key()),
    {
        assert forall|q: (Seq<char>, VersionWrapper)|
            #[trigger] key_count(dk.subrange(k + 1, dk.len() as int), q) <= key_count(
                dk.subrange(k, dk.len() as int),
                q,
            ) by {
            lemma_key_count_suffix_step(dk, k, q);
        }
        assert forall|j: int|
            0 <= j < pre.len() && (#[trigger] cur[j])@.status == SoftwareStatus::Available implies
            cur[j]@.reference_count == cap_sub(
            pre[j]@.reference_count as nat,
            (removed_edge_count(pre, cur, 0, pre[j]@.key()) - key_count(
                dk.subrange(k + 1, dk.len() as int),
                pre[j]@.key(),
            )) as nat,
        ) by {
            lemma_key_count_suffix_step(dk, k, pre[j]@.key());
            assert(cur[j]@.key() == pre[j]@.key());
            assert(pre[j]@.key() != dk[k]);
        }
        assert forall|j: int|
            0 <= j < pre.len() && j != idx && (#[trigger] pre[j])@.status
                == SoftwareStatus::Available && cur[j]@.status == SoftwareStatus::Removed implies
            pre[j]@.reference_count + key_count(
            dk.subrange(k + 1, dk.len() as int),
            pre[j]@.key(),
        ) <= removed_edge_count(pre, cur, 0, pre[j]@.key()) by {
            lemma_key_count_suffix_step(dk, k, pre[j]@.key());
        }
    }


    /// Composes the invariants across one recursive removal: the child ran
    /// from `mid` to `post`, the surrounding call had reached `mid` from
    /// `pre`, and the child's target was `j` while ours is `idx`.
    proof fn lemma_gc_compose(
        pre: Seq<Software>,
        mid: Seq<Software>,
        post: Seq<Software>,
        prepm: PackageManager,
        midpm: PackageManager,
        postpm: PackageManager,
        j: int,
        idx: int,
    )
        requires
            gc_step_ok(pre, mid),
            gc_step_ok(mid, post),
            0 <= idx < pre.len(),
            0 <= j < pre.len(),
            forall|q: (Seq<char>, VersionWrapper)|
                midpm.spec_contains(q) ==> prepm.spec_contains(q),
            forall|q: (Seq<char>, VersionWrapper)|
                postpm.spec_contains(q) ==> midpm.spec_contains(q),
            forall|a: int|
                0 <= a < pre.len() && a != j && coll_with_pm(mid, midpm, a) ==> coll_with_pm(
                    pre,
                    prepm,
                    a,
                ),
            forall|a: int|
                0 <= a < mid.len() && coll_with_pm(post, postpm, a) ==> coll_with_pm(
                    mid,
                    midpm,
                    a,
                ),
            !coll_with_pm(post, postpm, j),
            mid[idx]@.status == SoftwareStatus::Removed,
            avail_count(mid) < avail_count(pre),
            avail_count(post) <= avail_count(mid),
        ensures
            gc_step_ok(pre, post),
            forall|q: (Seq<char>, VersionWrapper)|
                postpm.spec_contains(q) ==> prepm.spec_contains(q),
            forall|a: int|
                0 <= a < pre.len() && coll_with_pm(post, postpm, a) ==> coll_with_pm(
                    pre,
                    prepm,
                    a,
                ),
            post[idx]@.status == SoftwareStatus::Removed,
            avail_count(post) < avail_count(pre),
    {
        assert forall|a: int|
            0 <= a < pre.len() implies {
                let v = (#[trigger] post[a])@;
                let o = pre[a]@;
                &&& v.archive == o.archive
                &&& v.version == o.version
                &&& v.dependencies == o.dependencies
                &&& v.reference_count <= o.reference_count
                &&& (v.status == o.status || (o.status == SoftwareStatus::Available && v.status
                    == SoftwareStatus::Removed))
            } by {
            assert(coll_with_pm(post, postpm, a) ==> coll_with_pm(mid, midpm, a));
            let m = mid[a]@;
            assert(post[a]@.reference_count <= m.reference_count);
            assert(m.reference_count <= pre[a]@.reference_count);
        }
        assert(post[idx]@.status == SoftwareStatus::Removed) by {
            assert(mid[idx]@.status == SoftwareStatus::Removed);
        }
        assert forall|a: int|
            0 <= a < pre.len() && coll_with_pm(post, postpm, a) implies coll_with_pm(
            pre,
            prepm,
            a,
        ) by {
            assert(coll_with_pm(mid, midpm, a));
            if a == j {
                assert(!coll_with_pm(post, postpm, j));
            }
        }
    }

    /// One garbage-collection pass: every available entry whose reference
    /// count is zero is removed, cascading through the dependencies it was
    /// keeping alive. A removal the store refuses is skipped and the scan
    /// continues, so a pass over a registry with nothing left to collect
    /// changes nothing.
    #[verifier::rlimit(100)]
    pub fn garbage_collection(&mut self, pm: &mut PackageManager) -> (r: Result<
        (),
        SoftwareManagerError,
    >)
        requires
            old(self).wf(),
            old(pm).wf(),
        ensures
            final(self).wf(),
            final(pm).wf(),
            r is Ok,
            gc_step_ok(old(self).softwares@, final(self).softwares@),
            forall|q: (Seq<char>, VersionWrapper)|
                final(pm).spec_contains(q) ==> old(pm).spec_contains(q),
            forall|j: int|
                0 <= j < final(self).softwares@.len() ==> !coll_with_pm(
                    final(self).softwares@,
                    *final(pm),
                    j,
                ),
            (forall|j: int|
                0 <= j < old(self).softwares@.len() ==> !coll_with_pm(
                    old(self).softwares@,
                    *old(pm),
                    j,
                )) ==> final(self).softwares@ == old(self).softwares@ && final(pm).packages@ == old(
                pm,
            ).packages@,
            forall|j: int|
                0 <= j < old(self).softwares@.len() && (#[trigger] old(self).softwares@[j])@.status
                    == SoftwareStatus::Available && old(self).softwares@[j]@.reference_count == 0
                    && old(pm).spec_contains(old(self).softwares@[j]@.key()) ==> final(self).softwares@[j]@.status == SoftwareStatus::Removed,
            forall|j: int|
                0 <= j < old(self).softwares@.len() && (#[trigger] final(self).softwares@[j])@.status
                    == SoftwareStatus::Available && old(pm).spec_contains(
                    old(self).softwares@[j]@.key(),
                ) ==> final(pm).spec_contains(old(self).softwares@[j]@.key()),
            (forall|j: int|
                0 <= j < old(self).softwares@.len() && (#[trigger] old(self).softwares@[j])@.status
                    == SoftwareStatus::Available ==> old(pm).spec_contains(
                    old(self).softwares@[j]@.key(),
                )) ==> {
                &&& forall|j: int|
                    0 <= j < old(self).softwares@.len() && (#[trigger] final(self).softwares@[j])@.status == SoftwareStatus::Available ==> final(self).softwares@[j]@.reference_count == cap_sub(
                        old(self).softwares@[j]@.reference_count as nat,
                        removed_edge_count(
                            old(self).softwares@,
                            final(self).softwares@,
                            0,
                            old(self).softwares@[j]@.key(),
                        ),
                    )
                &&& forall|j: int|
                    0 <= j < old(self).softwares@.len() && (#[trigger] old(
                        self,
                    ).softwares@[j])@.status == SoftwareStatus::Available && final(self).softwares@[j]@.status == SoftwareStatus::Removed ==> old(
                        self,
                    ).softwares@[j]@.reference_count <= removed_edge_count(
                        old(self).softwares@,
                        final(self).softwares@,
                        0,
                        old(self).softwares@[j]@.key(),
                    )
            },
    {
        let ghost pre = old(self).softwares@;
        let ghost prepm = *old(pm);
        let ghost dk0 = Seq::<(Seq<char>, VersionWrapper)>::empty();
        proof {
            assert(cascade_ledger(pre, self.softwares@, dk0, 0, -1)) by {
                reveal(cascade_ledger);
                assert forall|q: (Seq<char>, VersionWrapper)|
                    #[trigger] removed_edge_count(pre, self.softwares@, 0, q) == 0 by {
                    lemma_rec_none(pre, self.softwares@, 0, q);
                }
                assert(dk0.subrange(0, dk0.len() as int) =~= dk0);
                assert forall|j: int|
                    0 <= j < pre.len() && (#[trigger] self.softwares@[j])@.status
                        == SoftwareStatus::Available implies self.softwares@[j]@.reference_count
                    == cap_sub(
                    pre[j]@.reference_count as nat,
                    (removed_edge_count(pre, self.softwares@, 0, pre[j]@.key()) - key_count(
                        dk0.subrange(0, dk0.len() as int),
                        pre[j]@.key(),
                    )) as nat,
                ) by {
                    assert(self.softwares@[j] == pre[j]);
                }
            }
        }
        let mut i: usize = 0;
        while i < self.softwares.len()
            invariant
                pre == old(self).softwares@,
                prepm == *old(pm),
                0 <= i <= self.softwares@.len(),
                self.wf(),
                pm.wf(),
                gc_step_ok(pre, self.softwares@),
                forall|q: (Seq<char>, VersionWrapper)|
                    pm.spec_contains(q) ==> prepm.spec_contains(q),
                forall|j: int|
                    0 <= j < pre.len() && coll_with_pm(self.softwares@, *pm, j) ==> coll_with_pm(
                        pre,
                        prepm,
                        j,
                    ),
                forall|j: int| 0 <= j < i ==> !coll_with_pm(self.softwares@, *pm, j),
                (forall|j: int| 0 <= j < pre.len() ==> !coll_with_pm(pre, prepm, j)) ==> (
                self.softwares@ == pre && pm.packages@ == prepm.packages@),
                dk0 == Seq::<(Seq<char>, VersionWrapper)>::empty(),
                forall|j: int|
                    0 <= j < pre.len() && (#[trigger] self.softwares@[j])@.status
                        == SoftwareStatus::Available && prepm.spec_contains(pre[j]@.key())
                        ==> pm.spec_contains(pre[j]@.key()),
                forall|j: int|
                    0 <= j < i && (#[trigger] pre[j])@.status == SoftwareStatus::Available
                        && pre[j]@.reference_count == 0 && prepm.spec_contains(pre[j]@.key())
                        ==> self.softwares@[j]@.status == SoftwareStatus::Removed,
                (forall|j: int|
                    0 <= j < pre.len() && (#[trigger] pre[j])@.status == SoftwareStatus::Available
                        ==> prepm.spec_contains(pre[j]@.key())) ==> cascade_ledger(
                    pre,
                    self.softwares@,
                    dk0,
                    0,
                    -1,
                ),
            decreases self.softwares@.len() - i,
        {
            let e = &self.softwares[i];
            if matches!(e.inner.status, SoftwareStatus::Available) && e.inner.reference_count
                == 0 {
                let ghost mid = self.softwares@;
                let ghost midpm = *pm;
                let res = self.remove_software(i, pm);
                proof {
                    assert forall|a: int|
                        0 <= a < pre.len() implies {
                            let v = (#[trigger] self.softwares@[a])@;
                            let o = pre[a]@;
                            &&& v.archive == o.archive
                            &&& v.version == o.version
                            &&& v.dependencies == o.dependencies
                            &&& v.reference_count <= o.reference_count
                            &&& (v.status == o.status || (o.status == SoftwareStatus::Available
                                && v.status == SoftwareStatus::Removed))
                        } by {
                        let m = mid[a]@;
                        assert(self.softwares@[a]@.reference_count <= m.reference_count);
                    }
                    assert forall|j: int|
                        0 <= j < pre.len() && coll_with_pm(self.softwares@, *pm, j) implies
                        coll_with_pm(pre, prepm, j) by {
                        assert(coll_with_pm(mid, midpm, j));
                    }
                    assert forall|j: int| 0 <= j < i + 1 implies !coll_with_pm(
                        self.softwares@,
                        *pm,
                        j,
                    ) by {
                        if j < i {
                            if coll_with_pm(self.softwares@, *pm, j) {
                                assert(coll_with_pm(mid, midpm, j));
                            }
                        } else {
                            assert(!coll_with_pm(self.softwares@, *pm, i as int));
                        }
                    }
                    if forall|j: int| 0 <= j < pre.len() ==> !coll_with_pm(pre, prepm, j) {
                        assert(mid == pre && pm.packages@ == prepm.packages@ ==> true);
                        assert(mid == pre);
                        assert(midpm.packages@ == prepm.packages@);
                        assert(!coll_with_pm(pre, prepm, i as int));
                        assert(!midpm.spec_contains(mid[i as int]@.key())) by {
                            assert(mid[i as int]@.status == SoftwareStatus::Available);
                            assert(mid[i as int]@.reference_count == 0);
                            if prepm.spec_contains(pre[i as int]@.key()) {
                                assert(coll_with_pm(pre, prepm, i as int));
                            }
                            if midpm.spec_contains(mid[i as int]@.key()) {
                                assert(midpm.packages@ == prepm.packages@);
                                assert(prepm.spec_contains(mid[i as int]@.key()));
                            }
                        }
                        assert(self.softwares@ == mid && pm.packages@ == midpm.packages@);
                    }
                    // a surviving available entry keeps its stored payload
                    assert forall|a: int|
                        0 <= a < pre.len() && (#[trigger] self.softwares@[a])@.status
                            == SoftwareStatus::Available && prepm.spec_contains(pre[a]@.key())
                        implies pm.spec_contains(pre[a]@.key()) by {
                        assert(mid[a]@.status == SoftwareStatus::Available);
                        assert(mid[a]@.key() == pre[a]@.key());
                        assert(midpm.spec_contains(mid[a]@.key()));
                    }
                    // an entry collectable at the start, with its payload
                    // stored, ends removed once its turn has passed
                    assert forall|a: int|
                        0 <= a < i + 1 && (#[trigger] pre[a])@.status == SoftwareStatus::Available
                            && pre[a]@.reference_count == 0 && prepm.spec_contains(pre[a]@.key())
                        implies self.softwares@[a]@.status == SoftwareStatus::Removed by {
                        if a < i {
                            assert(mid[a]@.status == SoftwareStatus::Removed);
                        } else {
                            assert(mid[a]@.status == SoftwareStatus::Available);
                            assert(mid[a]@.key() == pre[a]@.key());
                            assert(midpm.spec_contains(mid[a]@.key()));
                        }
                    }
                    // the exact ledger, whenever the store held everything
                    if forall|j: int|
                        0 <= j < pre.len() && (#[trigger] pre[j])@.status
                            == SoftwareStatus::Available ==> prepm.spec_contains(pre[j]@.key()) {
                        assert forall|a: int|
                            0 <= a < mid.len() && (#[trigger] mid[a])@.status
                                == SoftwareStatus::Available implies midpm.spec_contains(
                            mid[a]@.key()) by {
                            assert(pre[a]@.status == SoftwareStatus::Available);
                            assert(mid[a]@.key() == pre[a]@.key());
                        }
                        assert(res is Ok);
                        reveal(cascade_ledger);
                        assert(cascade_ledger(pre, mid, dk0, 0, -1));
                        assert(mid[i as int]@.status == SoftwareStatus::Available);
                        assert(mid[i as int]@.reference_count == 0);
                        Self::lemma_child_ledger(
                            pre,
                            mid,
                            self.softwares@,
                            dk0,
                            0,
                            -1,
                            i as int,
                        );
                        assert(cascade_ledger(pre, self.softwares@, dk0, 0, -1));
                    }
                }
            } else {
                proof {
                    assert(!coll_with_pm(self.softwares@, *pm, i as int));
                    assert forall|a: int|
                        0 <= a < i + 1 && (#[trigger] pre[a])@.status == SoftwareStatus::Available
                            && pre[a]@.reference_count == 0 && prepm.spec_contains(pre[a]@.key())
                        implies self.softwares@[a]@.status == SoftwareStatus::Removed by {
                        if a == i {
                            if self.softwares@[a]@.status == SoftwareStatus::Available {
                                assert(self.softwares@[a]@.reference_count
                                    <= pre[a]@.reference_count);
                            }
                        }
                    }
                }
            }
            i = i + 1;
        }
        proof {
            if forall|j: int|
                0 <= j < pre.len() && (#[trigger] pre[j])@.status == SoftwareStatus::Available
                    ==> prepm.spec_contains(pre[j]@.key()) {
                reveal(cascade_ledger);
                assert(cascade_ledger(pre, self.softwares@, dk0, 0, -1));
                assert forall|q: (Seq<char>, VersionWrapper)|
                    #[trigger] key_count(dk0.subrange(0, dk0.len() as int), q) == 0 by {
                    assert(dk0.subrange(0, dk0.len() as int) =~= dk0);
                }
                assert forall|j: int|
                    0 <= j < pre.len() && (#[trigger] self.softwares@[j])@.status
                        == SoftwareStatus::Available implies self.softwares@[j]@.reference_count
                    == cap_sub(
                    pre[j]@.reference_count as nat,
                    removed_edge_count(pre, self.softwares@, 0, pre[j]@.key()),
                ) by {
                    assert(self.softwares@[j]@.reference_count == cap_sub(
                        pre[j]@.reference_count as nat,
                        (removed_edge_count(pre, self.softwares@, 0, pre[j]@.key()) - key_count(
                            dk0.subrange(0, dk0.len() as int),
                            pre[j]@.key(),
                        )) as nat,
                    ));
                }
                assert forall|j: int|
                    0 <= j < pre.len() && (#[trigger] pre[j])@.status == SoftwareStatus::Available
                        && self.softwares@[j]@.status == SoftwareStatus::Removed implies
                    pre[j]@.reference_count <= removed_edge_count(
                    pre,
                    self.softwares@,
                    0,
                    pre[j]@.key(),
                ) by {
                    assert(pre[j]@.reference_count + key_count(
                        dk0.subrange(0, dk0.len() as int),
                        pre[j]@.key(),
                    ) <= removed_edge_count(pre, self.softwares@, 0, pre[j]@.key()));
                }
            }
        }
        Ok(())
    }
}

} // verus!
