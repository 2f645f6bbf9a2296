//! The data of a resolution: versions, the dependency graph, the audit
//! store and the policy.

use vstd::prelude::*;
use vstd::string::*;
use crate::criteria::CriteriaSet;

verus! {

/// A version of a package: three numbers, a pre-release tag and build
/// metadata, the last two empty where the version has none.
#[derive(Clone, Debug, PartialEq, Eq, Hash)]
pub struct Version {
    pub major: u64,
    pub minor: u64,
    pub patch: u64,
    /// The pre-release tag, without the hyphen in front of it.
    pub pre: String,
    /// The build metadata, without the plus sign in front of it.
    pub build: String,
}

/// What a version holds. Two versions are the same version where they hold
/// the same.
pub ghost struct VersionView {
    pub major: u64,
    pub minor: u64,
    pub patch: u64,
    pub pre: Seq<char>,
    pub build: Seq<char>,
}

impl View for Version {
    type V = VersionView;

    open spec fn view(&self) -> VersionView {
        VersionView {
            major: self.major,
            minor: self.minor,
            patch: self.patch,
            pre: self.pre@,
            build: self.build@,
        }
    }
}

/// What the start of an audit holds, where it has one.
pub open spec fn start_view(from: Option<Version>) -> Option<VersionView> {
    match from {
        Some(v) => Some(v@),
        None => None,
    }
}

impl Version {
    /// The version that stands for the project itself: all numbers zero,
    /// no tags.
    pub open spec fn root() -> VersionView {
        VersionView { major: 0, minor: 0, patch: 0, pre: Seq::empty(), build: Seq::empty() }
    }

    /// The version with these numbers and without tags.
    pub fn new(major: u64, minor: u64, patch: u64) -> (r: Version)
        ensures
            r@ == (VersionView { major, minor, patch, pre: Seq::empty(), build: Seq::empty() }),
    {
        Version { major, minor, patch, pre: String::new(), build: String::new() }
    }

    /// The version with these numbers and tags.
    pub fn tagged(major: u64, minor: u64, patch: u64, pre: &str, build: &str) -> (r: Version)
        ensures
            r@ == (VersionView { major, minor, patch, pre: pre@, build: build@ }),
    {
        Version { major, minor, patch, pre: String::from_str(pre), build: String::from_str(build) }
    }

    /// The version that stands for the project itself.
    pub fn root_version() -> (r: Version)
        ensures
            r@ == Version::root(),
    {
        Version::new(0, 0, 0)
    }

    /// Whether this is the version that stands for the project itself.
    pub fn is_root(&self) -> (r: bool)
        ensures
            r == (self@ == Version::root()),
    {
        let r = self.major == 0 && self.minor == 0 && self.patch == 0 && self.pre.as_str().unicode_len()
            == 0 && self.build.as_str().unicode_len() == 0;
        proof {
            if r {
                assert(self.pre@ =~= Seq::<char>::empty());
                assert(self.build@ =~= Seq::<char>::empty());
            }
        }
        r
    }

    /// Whether two versions are the same version.
    pub fn same(&self, other: &Version) -> (r: bool)
        ensures
            r == (self@ == other@),
    {
        self.major == other.major && self.minor == other.minor && self.patch == other.patch
            && self.pre == other.pre && self.build == other.build
    }

    /// A copy of the version.
    pub fn copy(&self) -> (r: Version)
        ensures
            r == *self,
    {
        Version {
            major: self.major,
            minor: self.minor,
            patch: self.patch,
            pre: self.pre.clone(),
            build: self.build.clone(),
        }
    }
}

/// Whether the start of an audit is the given version.
pub fn starts_at(from: &Option<Version>, v: &Version) -> (r: bool)
    ensures
        r == (start_view(*from) == Some(v@)),
{
    match from {
        Some(f) => f.same(v),
        None => false,
    }
}

/// How a package uses a dependency.
#[derive(Clone, Copy, Debug, PartialEq, Eq, Structural)]
pub enum EdgeKind {
    Normal,
    Build,
    Dev,
}

/// One dependency of a node.
#[derive(Clone, Copy, Debug, PartialEq, Eq, Structural)]
pub struct DepEdge {
    /// Index of the node depended on.
    pub to: usize,
    pub kind: EdgeKind,
}

/// One package at one version in the resolved dependency graph.
#[derive(Debug)]
pub struct Node {
    pub name: String,
    pub version: Version,
    /// Whether the package belongs to the project rather than to a registry.
    pub first_party: bool,
    pub deps: Vec<DepEdge>,
}

/// The resolved dependency graph: an arena of nodes and the workspace roots.
#[derive(Debug)]
pub struct DepGraph {
    pub nodes: Vec<Node>,
    pub roots: Vec<usize>,
}

/// What the graph is rejected for.
#[derive(Clone, Copy, Debug, PartialEq, Eq, Structural)]
pub enum GraphError {
    /// A dependency leads to a node that the graph does not hold.
    UnknownDependency,
    /// A workspace root is no node of the graph.
    UnknownRoot,
}

impl DepGraph {
    /// Every dependency leads to a node of the graph.
    pub open spec fn deps_known(&self) -> bool {
        forall|n: int, k: int|
            0 <= n < self.nodes.len() && 0 <= k < self.nodes[n].deps.len() ==> (
            #[trigger] self.nodes[n].deps[k]).to < self.nodes.len()
    }

    /// Every workspace root is a node of the graph.
    pub open spec fn roots_known(&self) -> bool {
        forall|r: int| 0 <= r < self.roots.len() ==> #[trigger] self.roots[r] < self.nodes.len()
    }

    pub open spec fn wf(&self) -> bool {
        self.deps_known() && self.roots_known()
    }

    /// Checks that the graph refers to its own nodes only.
    pub fn check(&self) -> (r: Result<(), GraphError>)
        ensures
            match r {
                Ok(_) => self.wf(),
                Err(GraphError::UnknownDependency) => !self.deps_known(),
                Err(GraphError::UnknownRoot) => self.deps_known() && !self.roots_known(),
            },
    {
        let count = self.nodes.len();
        let mut n: usize = 0;
        while n < count
            invariant
                n <= count,
                count == self.nodes.len(),
                forall|a: int, k: int|
                    0 <= a < n && 0 <= k < self.nodes[a].deps.len() ==> (
                    #[trigger] self.nodes[a].deps[k]).to < count,
            decreases count - n,
        {
            let node = &self.nodes[n];
            let mut k: usize = 0;
            while k < node.deps.len()
                invariant
                    k <= node.deps.len(),
                    n < count,
                    count == self.nodes.len(),
                    *node == self.nodes[n as int],
                    forall|j: int| 0 <= j < k ==> (#[trigger] node.deps[j]).to < count,
                decreases node.deps.len() - k,
            {
                if node.deps[k].to >= count {
                    assert(!(self.nodes[n as int].deps[k as int].to < self.nodes.len()));
                    return Err(GraphError::UnknownDependency);
                }
                k += 1;
            }
            n += 1;
        }
        let mut r: usize = 0;
        while r < self.roots.len()
            invariant
                r <= self.roots.len(),
                count == self.nodes.len(),
                self.deps_known(),
                forall|j: int| 0 <= j < r ==> #[trigger] self.roots[j] < count,
            decreases self.roots.len() - r,
        {
            if self.roots[r] >= count {
                return Err(GraphError::UnknownRoot);
            }
            r += 1;
        }
        Ok(())
    }
}

/// What an audit or a policy asks of one dependency, by the dependency's
/// name.
#[derive(Debug)]
pub struct DepRequirement {
    pub name: String,
    pub criteria: CriteriaSet,
}

/// Where an edge of the audit graph comes from.
#[derive(Clone, Copy, Debug, PartialEq, Eq, Structural)]
pub enum AuditOrigin {
    /// An audit of a whole version.
    Full,
    /// An audit of the changes from one version to another.
    Delta,
    /// An exemption, which the suggestion engine may assume away.
    Exemption { suggest: bool },
}

/// One edge of a package's audit graph. An edge without a source version
/// starts from nothing: a full audit or an exemption.
#[derive(Debug)]
pub struct AuditEdge {
    pub from: Option<Version>,
    pub to: Version,
    pub criteria: CriteriaSet,
    pub deps: Vec<DepRequirement>,
    pub origin: AuditOrigin,
}

/// The audit graph of one package.
#[derive(Debug)]
pub struct PackageAudits {
    pub name: String,
    pub edges: Vec<AuditEdge>,
}

/// All audits and exemptions of a resolution, by package.
#[derive(Debug)]
pub struct Store {
    pub packages: Vec<PackageAudits>,
}

/// The policy of one package of the project.
#[derive(Debug)]
pub struct PolicyEntry {
    pub name: String,
    /// What the package itself must satisfy, in place of the default.
    pub criteria: Option<CriteriaSet>,
    /// What named dependencies must satisfy, in place of what the package
    /// itself is asked for.
    pub deps: Vec<DepRequirement>,
    /// The package needs audits of its own, like one from a registry.
    pub audit_as_third_party: bool,
}

/// The policy of the project, by package.
#[derive(Debug)]
pub struct Policy {
    /// What the workspace roots must satisfy where their policy says
    /// nothing, in place of the built-in default.
    pub default_criteria: Option<CriteriaSet>,
    pub entries: Vec<PolicyEntry>,
}

impl DepGraph {
    /// Node `n` is a workspace root.
    pub open spec fn is_root(&self, n: int) -> bool {
        exists|r: int| 0 <= r < self.roots.len() && #[trigger] self.roots[r] == n
    }

    /// Whether node `n` is a workspace root.
    pub fn root(&self, n: usize) -> (r: bool)
        ensures
            r == self.is_root(n as int),
    {
        let mut r: usize = 0;
        while r < self.roots.len()
            invariant
                r <= self.roots.len(),
                forall|j: int| 0 <= j < r ==> self.roots[j] != n,
            decreases self.roots.len() - r,
        {
            if self.roots[r] == n {
                return true;
            }
            r += 1;
        }
        false
    }
}

/// `p` is the first position at which `name` stands in `names`.
pub open spec fn is_first(names: Seq<Seq<char>>, name: Seq<char>, p: int) -> bool {
    &&& 0 <= p < names.len()
    &&& names[p] == name
    &&& forall|q: int| 0 <= q < p ==> names[q] != name
}

/// The first position at which `name` stands in `names`.
pub open spec fn first_named(names: Seq<Seq<char>>, name: Seq<char>) -> Option<int> {
    if exists|p: int| is_first(names, name, p) {
        Some(choose|p: int| is_first(names, name, p))
    } else {
        None
    }
}

/// The first position is the only first position.
pub proof fn lemma_first_named(names: Seq<Seq<char>>, name: Seq<char>, p: int)
    requires
        is_first(names, name, p),
    ensures
        first_named(names, name) == Some(p),
{
    let q = choose|q: int| is_first(names, name, q);
    assert(is_first(names, name, q));
    if q < p {
        assert(names[q] != name);
    }
    if p < q {
        assert(names[p] != name);
    }
}

/// A name that stands nowhere has no first position.
pub proof fn lemma_first_named_none(names: Seq<Seq<char>>, name: Seq<char>)
    requires
        forall|q: int| 0 <= q < names.len() ==> names[q] != name,
    ensures
        first_named(names, name) is None,
{
    if exists|p: int| is_first(names, name, p) {
        let p = choose|p: int| is_first(names, name, p);
        assert(names[p] != name);
    }
}

/// The store `t` is the store `s` with the edge `e` added to the audits of
/// its package `p`.
pub open spec fn edge_added(s: Store, t: Store, p: int, e: AuditEdge) -> bool {
    &&& t.packages.len() == s.packages.len()
    &&& forall|q: int| 0 <= q < s.packages.len() && q != p ==> #[trigger] t.packages[q] == s.packages[q]
    &&& t.packages[p].name == s.packages[p].name
    &&& t.packages[p].edges@ == s.packages[p].edges@.push(e)
}

impl Store {
    /// The package names, in order.
    pub open spec fn names(&self) -> Seq<Seq<char>> {
        Seq::new(self.packages.len() as nat, |p: int| self.packages[p].name@)
    }

    /// The entry that holds the audits of the package called `name`.
    pub fn find(&self, name: &String) -> (r: Option<usize>)
        ensures
            match r {
                Some(p) => p < self.packages.len() && first_named(self.names(), name@) == Some(
                    p as int,
                ),
                None => first_named(self.names(), name@) is None,
            },
    {
        let mut p: usize = 0;
        while p < self.packages.len()
            invariant
                p <= self.packages.len(),
                forall|q: int| 0 <= q < p ==> self.names()[q] != name@,
            decreases self.packages.len() - p,
        {
            assert(self.names()[p as int] == self.packages[p as int].name@);
            if self.packages[p].name == *name {
                proof {
                    lemma_first_named(self.names(), name@, p as int);
                }
                return Some(p);
            }
            p += 1;
        }
        proof {
            lemma_first_named_none(self.names(), name@);
        }
        None
    }
}

impl Policy {
    /// The package names, in order.
    pub open spec fn names(&self) -> Seq<Seq<char>> {
        Seq::new(self.entries.len() as nat, |p: int| self.entries[p].name@)
    }

    /// The entry of the package called `name`.
    pub fn find(&self, name: &String) -> (r: Option<usize>)
        ensures
            match r {
                Some(p) => p < self.entries.len() && first_named(self.names(), name@) == Some(
                    p as int,
                ),
                None => first_named(self.names(), name@) is None,
            },
    {
        let mut p: usize = 0;
        while p < self.entries.len()
            invariant
                p <= self.entries.len(),
                forall|q: int| 0 <= q < p ==> self.names()[q] != name@,
            decreases self.entries.len() - p,
        {
            assert(self.names()[p as int] == self.entries[p as int].name@);
            if self.entries[p].name == *name {
                proof {
                    lemma_first_named(self.names(), name@, p as int);
                }
                return Some(p);
            }
            p += 1;
        }
        proof {
            lemma_first_named_none(self.names(), name@);
        }
        None
    }
}

} // verus!
