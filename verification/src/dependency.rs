//! Package identities and want-sets: a `Dependency` is the (name, version)
//! pointer used for graph traversal; a `Package` is the full immutable
//! description of one installable unit; a `PackageList` is an ordered
//! want-set of dependencies.

use vstd::prelude::*;
use crate::version::{VersionWrapper, parse_version, is_canonical_version, version_matches};
use crate::errors::SoftwareManagerError;

verus! {

/// A (name, version) pointer. Identity for registry and graph purposes is
/// the pair of both fields.
#[derive(Debug)]
pub struct Dependency {
    pub archive: String,
    pub version_wrapper: VersionWrapper,
}

impl View for Dependency {
    type V = (Seq<char>, VersionWrapper);

    open spec fn view(&self) -> (Seq<char>, VersionWrapper) {
        (self.archive@, self.version_wrapper)
    }
}

impl Clone for Dependency {
    fn clone(&self) -> (r: Self)
        ensures
            r == *self,
    {
        Dependency { archive: self.archive.clone(), version_wrapper: self.version_wrapper }
    }
}

impl Dependency {
    pub fn new(archive: String, version_wrapper: VersionWrapper) -> (r: Dependency)
        ensures
            r == (Dependency { archive, version_wrapper }),
    {
        Dependency { archive, version_wrapper }
    }

    /// The `"name-version"` spelling of this pointer.
    pub fn to_string(&self) -> (r: String)
        ensures
            r@ == dep_str(self.archive@, self.version_wrapper),
    {
        let mut s = self.archive.clone();
        s.append("-");
        let v = self.version_wrapper.to_string();
        s.append(v.as_str());
        proof {
            reveal_strlit("-");
            assert(s@ =~= dep_str(self.archive@, self.version_wrapper));
        }
        s
    }

    /// True when the two pointers name the same (name, version) identity.
    pub fn key_eq(&self, other: &Dependency) -> (r: bool)
        ensures
            r == (self@ == other@),
    {
        let same = self.archive == other.archive && self.version_wrapper.major
            == other.version_wrapper.major && self.version_wrapper.minor
            == other.version_wrapper.minor && self.version_wrapper.patch
            == other.version_wrapper.patch;
        proof {
            if same {
                assert(self@ == other@);
            } else {
                assert(self@ != other@);
            }
        }
        same
    }
}

/// The full immutable description of one installable unit, as supplied by
/// the package information source. Identity is (archive, version).
#[derive(Debug)]
pub struct Package {
    pub archive: String,
    pub version_wrapper: VersionWrapper,
    pub component: String,
    pub origin: String,
    pub label: String,
    pub architecture: String,
    pub download: String,
    pub others: String,
}

impl Clone for Package {
    fn clone(&self) -> (r: Self)
        ensures
            r == *self,
    {
        Package {
            archive: self.archive.clone(),
            version_wrapper: self.version_wrapper,
            component: self.component.clone(),
            origin: self.origin.clone(),
            label: self.label.clone(),
            architecture: self.architecture.clone(),
            download: self.download.clone(),
            others: self.others.clone(),
        }
    }
}

impl Package {
    /// The registry identity of this package.
    pub open spec fn key(&self) -> (Seq<char>, VersionWrapper) {
        (self.archive@, self.version_wrapper)
    }

    pub fn new(
        archive: String,
        version_wrapper: VersionWrapper,
        component: String,
        origin: String,
        label: String,
        architecture: String,
        download: String,
        others: String,
    ) -> (r: Package)
        ensures
            r == (Package {
                archive,
                version_wrapper,
                component,
                origin,
                label,
                architecture,
                download,
                others,
            }),
    {
        Package { archive, version_wrapper, component, origin, label, architecture, download, others }
    }

    /// The `"name-version"` spelling of this package's identity.
    pub fn to_string(&self) -> (r: String)
        ensures
            r@ == dep_str(self.archive@, self.version_wrapper),
    {
        let mut s = self.archive.clone();
        s.append("-");
        let v = self.version_wrapper.to_string();
        s.append(v.as_str());
        proof {
            reveal_strlit("-");
            assert(s@ =~= dep_str(self.archive@, self.version_wrapper));
        }
        s
    }

    /// The download reference of this package.
    pub fn download(&self) -> (r: String)
        ensures
            r == self.download,
    {
        self.download.clone()
    }

    /// The (name, version) pointer of this package.
    pub fn dependency(&self) -> (r: Dependency)
        ensures
            r@ == self.key(),
    {
        Dependency { archive: self.archive.clone(), version_wrapper: self.version_wrapper }
    }
}

/// An ordered want-set: the declared list of top-level packages one
/// installation request asks for. Insertion order is preserved.
#[derive(Debug)]
pub struct PackageList {
    pub dependencies: Vec<Dependency>,
}

impl View for PackageList {
    type V = Seq<(Seq<char>, VersionWrapper)>;

    open spec fn view(&self) -> Seq<(Seq<char>, VersionWrapper)> {
        self.dependencies@.map_values(|d: Dependency| d@)
    }
}

impl Clone for PackageList {
    fn clone(&self) -> (r: Self)
        ensures
            r.dependencies@ == self.dependencies@,
    {
        let mut out: Vec<Dependency> = Vec::new();
        let mut k: usize = 0;
        while k < self.dependencies.len()
            invariant
                0 <= k <= self.dependencies.len(),
                out@.len() == k,
                forall|j: int| 0 <= j < k ==> out@[j] == self.dependencies@[j],
            decreases self.dependencies.len() - k,
        {
            out.push(self.dependencies[k].clone());
            k = k + 1;
        }
        proof {
            assert(out@ =~= self.dependencies@);
        }
        PackageList { dependencies: out }
    }
}

impl PackageList {
    pub fn new(vec: Vec<Dependency>) -> (r: PackageList)
        ensures
            r.dependencies == vec,
    {
        PackageList { dependencies: vec }
    }

    /// Wraps an already-built dependency vector as a want-set.
    pub fn with_dependencies(vec: Vec<Dependency>) -> (r: PackageList)
        ensures
            r.dependencies == vec,
    {
        PackageList { dependencies: vec }
    }
}


/// The `"name-version"` spelling of a package pointer.
pub open spec fn dep_str(name: Seq<char>, v: VersionWrapper) -> Seq<char> {
    name + seq!['-'] + crate::version::version_str(v)
}

/// There is a dash at `i` and none before it.
pub open spec fn first_dash_at(s: Seq<char>, i: int) -> bool {
    &&& 0 <= i < s.len()
    &&& s[i] == '-'
    &&& forall|k: int| 0 <= k < i ==> #[trigger] s[k] != '-'
}

/// `m` closes the version segment that starts after the dash at `i`: it is
/// the next dash after `i`, or the end of the token.
pub open spec fn version_segment_end(s: Seq<char>, i: int, m: int) -> bool {
    &&& i < m <= s.len()
    &&& (m == s.len() || s[m] == '-')
    &&& forall|k: int| i < k < m ==> #[trigger] s[k] != '-'
}

/// The token splits as `name-version[-...]` with a canonical version part.
pub open spec fn token_ok(s: Seq<char>) -> bool {
    exists|i: int, m: int|
        {
            &&& #[trigger] first_dash_at(s, i)
            &&& #[trigger] version_segment_end(s, i, m)
            &&& is_canonical_version(s.subrange(i + 1, m))
        }
}

/// `d` is the dependency written in the token `s`: its name is everything
/// before the first dash, its version the segment between the first and
/// second dash (or the end).
pub open spec fn token_parses_to(s: Seq<char>, d: Dependency) -> bool {
    exists|i: int, m: int|
        {
            &&& #[trigger] first_dash_at(s, i)
            &&& #[trigger] version_segment_end(s, i, m)
            &&& d.archive@ == s.subrange(0, i)
            &&& is_canonical_version(s.subrange(i + 1, m))
            &&& version_matches(s.subrange(i + 1, m), d.version_wrapper)
        }
}

/// Parses one `"name-version"` want-set token.
pub fn parse_dependency(token: &str) -> (r: Result<Dependency, SoftwareManagerError>)
    ensures
        match r {
            Ok(d) => token_ok(token@) && token_parses_to(token@, d),
            Err(e) => !token_ok(token@) && e matches SoftwareManagerError::ParseDependencyError(_),
        },
{
    let n = token.unicode_len();
    let i = match crate::version::find_char(token, '-', 0) {
        Some(i) => i,
        None => {
            proof {
                assert forall|p: int| !first_dash_at(token@, p) by {
                    if 0 <= p < token@.len() {
                        assert(token@[p] != '-');
                    }
                }
            }
            return Err(SoftwareManagerError::ParseDependencyError(token.to_owned()));
        },
    };
    let m = match crate::version::find_char(token, '-', i + 1) {
        Some(j) => j,
        None => n,
    };
    let name = token.substring_char(0, i);
    let part = token.substring_char(i + 1, m);
    match parse_version(part) {
        Some(v) => {
            let d = Dependency { archive: name.to_owned(), version_wrapper: v };
            proof {
                assert(first_dash_at(token@, i as int));
                assert(version_segment_end(token@, i as int, m as int));
                assert(token_parses_to(token@, d));
            }
            Ok(d)
        },
        None => {
            proof {
                assert forall|p: int, q: int|
                    first_dash_at(token@, p) && version_segment_end(token@, p, q) implies
                    !is_canonical_version(token@.subrange(p + 1, q)) by {
                    assert(p == i) by {
                        assert(token@[p] == '-');
                        if p < i {
                            assert(token@[p] != '-');
                        }
                        if i < p {
                            assert(token@[i as int] != '-');
                        }
                    }
                    assert(q == m) by {
                        if q < m {
                            assert(q < token@.len());
                            assert(token@[q] == '-');
                            assert(token@[q] != '-');
                        }
                        if m < q {
                            assert(m < token@.len());
                            assert(token@[m as int] == '-');
                            assert(token@[m as int] != '-');
                        }
                    }
                }
            }
            Err(SoftwareManagerError::ParseDependencyError(part.to_owned()))
        },
    }
}

/// The raw bootstrap profile: want-set tokens as read from the local file,
/// before any validation.
#[derive(Debug)]
pub struct BootstrapConfigurationTemp {
    pub depends: Vec<String>,
    pub recommended: Vec<String>,
}

/// The validated bootstrap profile: required and recommended want-sets.
#[derive(Debug)]
pub struct BootstrapConfiguration {
    pub depends: Vec<Dependency>,
    pub recommended: Vec<Dependency>,
}

/// `out` is the elementwise parse of the token list `toks`.
pub open spec fn tokens_parse_to(toks: Seq<String>, out: Seq<Dependency>) -> bool {
    &&& out.len() == toks.len()
    &&& forall|k: int| 0 <= k < toks.len() ==> token_parses_to(toks[k]@, #[trigger] out[k])
}

/// Parses every token of a list, failing on the first malformed one.
pub(crate) fn parse_token_list(list: &Vec<String>) -> (r: Result<Vec<Dependency>, SoftwareManagerError>)
    ensures
        match r {
            Ok(out) => tokens_parse_to(list@, out@),
            Err(e) => (exists|k: int| 0 <= k < list@.len() && !token_ok(#[trigger] list@[k]@))
                && e matches SoftwareManagerError::ParseDependencyError(_),
        },
{
    let mut out: Vec<Dependency> = Vec::new();
    let mut k: usize = 0;
    while k < list.len()
        invariant
            0 <= k <= list@.len(),
            out@.len() == k,
            forall|j: int| 0 <= j < k ==> token_parses_to(list@[j]@, #[trigger] out@[j]),
        decreases list@.len() - k,
    {
        match parse_dependency(list[k].as_str()) {
            Ok(d) => {
                out.push(d);
            },
            Err(e) => {
                return Err(e);
            },
        }
        k = k + 1;
    }
    Ok(out)
}

impl BootstrapConfiguration {
    /// The required want-set of the bootstrap profile.
    pub fn get_depends(&self) -> (r: Vec<Dependency>)
        ensures
            r@ == self.depends@,
    {
        let mut out: Vec<Dependency> = Vec::new();
        let mut k: usize = 0;
        while k < self.depends.len()
            invariant
                0 <= k <= self.depends@.len(),
                out@.len() == k,
                forall|j: int| 0 <= j < k ==> out@[j] == self.depends@[j],
            decreases self.depends@.len() - k,
        {
            out.push(self.depends[k].clone());
            k = k + 1;
        }
        proof {
            assert(out@ =~= self.depends@);
        }
        out
    }

    /// The recommended want-set of the bootstrap profile.
    pub fn get_recommends(&self) -> (r: Vec<Dependency>)
        ensures
            r@ == self.recommended@,
    {
        let mut out: Vec<Dependency> = Vec::new();
        let mut k: usize = 0;
        while k < self.recommended.len()
            invariant
                0 <= k <= self.recommended@.len(),
                out@.len() == k,
                forall|j: int| 0 <= j < k ==> out@[j] == self.recommended@[j],
            decreases self.recommended@.len() - k,
        {
            out.push(self.recommended[k].clone());
            k = k + 1;
        }
        proof {
            assert(out@ =~= self.recommended@);
        }
        out
    }

    /// Validates a raw profile: every `"name-version"` token of both lists
    /// must parse; the first malformed token fails the whole profile.
    pub fn from_temp(temp: BootstrapConfigurationTemp) -> (r: Result<
        BootstrapConfiguration,
        SoftwareManagerError,
    >)
        ensures
            match r {
                Ok(c) => tokens_parse_to(temp.depends@, c.depends@) && tokens_parse_to(
                    temp.recommended@,
                    c.recommended@,
                ),
                Err(e) => ((exists|k: int|
                    0 <= k < temp.depends@.len() && !token_ok(#[trigger] temp.depends@[k]@))
                    || (exists|k: int|
                    0 <= k < temp.recommended@.len() && !token_ok(#[trigger] temp.recommended@[k]@)))
                    && e matches SoftwareManagerError::ParseDependencyError(_),
            },
    {
        let depends = match parse_token_list(&temp.depends) {
            Ok(v) => v,
            Err(e) => {
                return Err(e);
            },
        };
        let recommended = match parse_token_list(&temp.recommended) {
            Ok(v) => v,
            Err(e) => {
                return Err(e);
            },
        };
        Ok(BootstrapConfiguration { depends, recommended })
    }
}

} // verus!
