//! What a resolution means.
//!
//! Every definition here is a statement about sets of criteria; nothing here
//! is executed. Three assignments of criteria to the nodes of the graph are
//! defined, each as the least one that respects its rules:
//!
//! * what each node *satisfies*, from its audits and what its dependencies
//!   satisfy;
//! * in which *context* each node is needed, from the workspace roots;
//! * what each node is *required* to satisfy, from the policy of the project
//!   and from the nodes that depend on it.

use vstd::prelude::*;
use crate::model::{
    first_named, start_view, AuditEdge, DepGraph, DepRequirement, EdgeKind, Policy, Store,
    VersionView,
};
use crate::universe::CriteriaTable;

verus! {

/// Everything a resolution is computed from.
pub struct Inputs {
    pub table: CriteriaTable,
    pub graph: DepGraph,
    pub store: Store,
    pub policy: Policy,
    /// The criteria that each edge of each package's audit graph counts for.
    pub crit: Seq<Seq<Set<nat>>>,
    /// Criteria that are taken for granted at each node.
    pub assumed: Seq<Set<nat>>,
}

/// The criteria that the store itself gives to each of its edges.
pub open spec fn store_criteria(store: Store) -> Seq<Seq<Set<nat>>> {
    Seq::new(
        store.packages.len() as nat,
        |p: int|
            Seq::new(
                store.packages[p].edges.len() as nat,
                |j: int| store.packages[p].edges[j].criteria@,
            ),
    )
}

/// Nothing taken for granted at any of `n` nodes.
pub open spec fn nothing_assumed(n: nat) -> Seq<Set<nat>> {
    Seq::new(n, |i: int| Set::<nat>::empty())
}

impl Inputs {
    /// Number of nodes.
    pub open spec fn nodes(self) -> int {
        self.graph.nodes.len() as int
    }

    pub open spec fn wf(self) -> bool {
        &&& self.table.wf()
        &&& self.graph.wf()
        &&& self.crit.len() == self.store.packages.len()
        &&& forall|p: int|
            0 <= p < self.crit.len() ==> (#[trigger] self.crit[p]).len()
                == self.store.packages[p].edges.len()
        &&& self.assumed.len() == self.graph.nodes.len()
    }

    /// The name of node `n`.
    pub open spec fn name(self, n: int) -> Seq<char> {
        self.graph.nodes[n].name@
    }

    /// The node that the `k`-th dependency of node `n` leads to.
    pub open spec fn dep(self, n: int, k: int) -> int {
        self.graph.nodes[n].deps[k].to as int
    }

    /// The kind of the `k`-th dependency of node `n`.
    pub open spec fn kind(self, n: int, k: int) -> EdgeKind {
        self.graph.nodes[n].deps[k].kind
    }

    /// The policy entry of node `n`.
    pub open spec fn policy_entry(self, n: int) -> Option<int> {
        first_named(self.policy.names(), self.name(n))
    }

    /// The entry of the store that holds the audits of node `n`.
    pub open spec fn package(self, n: int) -> Option<int> {
        first_named(self.store.names(), self.name(n))
    }

    /// Node `n` needs audits of its own: it comes from a registry, or the
    /// policy says to treat it so.
    pub open spec fn needs_audits(self, n: int) -> bool {
        !self.graph.nodes[n].first_party || match self.policy_entry(n) {
            Some(q) => self.policy.entries[q].audit_as_third_party,
            None => false,
        }
    }

    /// What the policy of node `n` asks of its dependencies by name.
    pub open spec fn policy_deps(self, n: int) -> Seq<DepRequirement> {
        match self.policy_entry(n) {
            Some(q) => self.policy.entries[q].deps@,
            None => Seq::empty(),
        }
    }
}

// ---------------------------------------------------------------------------
// What a node satisfies
// ---------------------------------------------------------------------------
/// The requirements name the dependency called `name`.
pub open spec fn names_dep(reqs: Seq<DepRequirement>, name: Seq<char>) -> bool {
    exists|r: int| 0 <= r < reqs.len() && (#[trigger] reqs[r]).name@ == name
}

/// A dependency called `name` that satisfies `have` meets every requirement
/// made of it by name.
pub open spec fn named_ok(reqs: Seq<DepRequirement>, name: Seq<char>, have: Set<nat>) -> bool {
    forall|r: int|
        0 <= r < reqs.len() && (#[trigger] reqs[r]).name@ == name ==> reqs[r].criteria@.subset_of(
            have,
        )
}

/// A dependency called `name` that satisfies `have` lets criterion `c`
/// through: it meets what is asked of it by name, or, where nothing is
/// asked of it by name, it satisfies `c` itself.
pub open spec fn dep_allows(
    reqs: Seq<DepRequirement>,
    name: Seq<char>,
    have: Set<nat>,
    c: nat,
) -> bool {
    if names_dep(reqs, name) {
        named_ok(reqs, name, have)
    } else {
        have.contains(c)
    }
}

/// Every dependency of node `n` that is no dev dependency lets criterion `c`
/// through, where the nodes satisfy `v`.
pub open spec fn deps_allow(
    inp: Inputs,
    n: int,
    reqs: Seq<DepRequirement>,
    v: Seq<Set<nat>>,
    c: nat,
) -> bool {
    forall|k: int|
        #![trigger inp.graph.nodes[n].deps[k]]
        0 <= k < inp.graph.nodes[n].deps.len() && inp.kind(n, k) != EdgeKind::Dev ==> dep_allows(
            reqs,
            inp.name(inp.dep(n, k)),
            v[inp.dep(n, k)],
            c,
        )
}

/// Edge `j` continues edge `i`: it starts at the version that `i` leads to.
pub open spec fn audit_connects(edges: Seq<AuditEdge>, i: int, j: int) -> bool {
    start_view(edges[j].from) == Some(edges[i].to@)
}

/// `x` gives every edge the criteria that reach the edge's target through
/// it: an edge from nothing gets what it carries, and an edge that continues
/// another gets what the other has and it carries itself. `masks` says what
/// each edge carries.
pub open spec fn audit_closed(
    edges: Seq<AuditEdge>,
    masks: Seq<Set<nat>>,
    x: Seq<Set<nat>>,
) -> bool {
    &&& x.len() == edges.len()
    &&& forall|j: int, c: nat|
        0 <= j < edges.len() && edges[j].from is None && masks[j].contains(c) ==> #[trigger] x[j].contains(
            c,
        )
    &&& forall|i: int, j: int, c: nat|
        0 <= i < edges.len() && 0 <= j < edges.len() && audit_connects(edges, i, j)
            && #[trigger] x[i].contains(c) && masks[j].contains(c) ==> #[trigger] x[j].contains(c)
}

/// The criteria for which a path of edges leads from nothing through edge
/// `j`, each edge of the path carrying the criterion.
pub open spec fn audit_reach(edges: Seq<AuditEdge>, masks: Seq<Set<nat>>, j: int) -> Set<nat> {
    Set::new(
        |c: nat| forall|x: Seq<Set<nat>>| #[trigger] audit_closed(edges, masks, x) ==> x[j].contains(c),
    )
}

/// The criteria for which a path of edges leads from nothing to `target`.
pub open spec fn audited(edges: Seq<AuditEdge>, masks: Seq<Set<nat>>, target: VersionView) -> Set<
    nat,
> {
    Set::new(
        |c: nat|
            exists|j: int|
                0 <= j < edges.len() && edges[j].to@ == target && #[trigger] audit_reach(
                    edges,
                    masks,
                    j,
                ).contains(c),
    )
}

/// What each edge of package `p` carries for node `n`: the criteria that the
/// edge counts for and that the dependencies of `n` let through.
pub open spec fn edge_masks(inp: Inputs, p: int, n: int, v: Seq<Set<nat>>) -> Seq<Set<nat>> {
    Seq::new(
        inp.store.packages[p].edges.len() as nat,
        |j: int|
            Set::new(
                |c: nat|
                    inp.crit[p][j].contains(c) && deps_allow(
                        inp,
                        n,
                        inp.store.packages[p].edges[j].deps@,
                        v,
                        c,
                    ),
            ),
    )
}

/// What each edge of package `p` counts for, whatever the dependencies
/// satisfy.
pub open spec fn own_masks(inp: Inputs, p: int) -> Seq<Set<nat>> {
    Seq::new(inp.store.packages[p].edges.len() as nat, |j: int| inp.crit[p][j])
}

/// What node `n` satisfies by its audits and its dependencies, before
/// implications are added. A node of the project itself needs no audits: it
/// satisfies whatever its dependencies let through, under the requirements
/// that its policy makes by name.
pub open spec fn raw_valid(inp: Inputs, n: int, v: Seq<Set<nat>>) -> Set<nat> {
    if inp.needs_audits(n) {
        match inp.package(n) {
            Some(p) => audited(
                inp.store.packages[p].edges@,
                edge_masks(inp, p, n, v),
                inp.graph.nodes[n].version@,
            ),
            None => Set::empty(),
        }
    } else {
        Set::new(|c: nat| c < inp.table.count() && deps_allow(inp, n, inp.policy_deps(n), v, c))
    }
}

/// What node `n` satisfies where the nodes satisfy `v`.
pub open spec fn node_valid(inp: Inputs, n: int, v: Seq<Set<nat>>) -> Set<nat> {
    inp.table.closure(raw_valid(inp, n, v)).union(inp.assumed[n])
}

/// `v` holds for every node all that the node satisfies under `v`.
pub open spec fn valid_closed(inp: Inputs, v: Seq<Set<nat>>) -> bool {
    &&& v.len() == inp.nodes()
    &&& forall|n: int, c: nat|
        0 <= n < inp.nodes() && #[trigger] node_valid(inp, n, v).contains(c) ==> v[n].contains(c)
}

/// What each node satisfies: the least assignment that is closed.
pub open spec fn satisfied(inp: Inputs) -> Seq<Set<nat>> {
    Seq::new(
        inp.nodes() as nat,
        |n: int|
            Set::new(
                |c: nat| forall|v: Seq<Set<nat>>| #[trigger] valid_closed(inp, v) ==> v[n].contains(c),
            ),
    )
}

/// What the audits of node `n` give it, whatever its dependencies satisfy.
pub open spec fn own_valid(inp: Inputs, n: int) -> Set<nat> {
    if inp.needs_audits(n) {
        match inp.package(n) {
            Some(p) => inp.table.closure(
                audited(inp.store.packages[p].edges@, own_masks(inp, p), inp.graph.nodes[n].version@),
            ),
            None => Set::empty(),
        }
    } else {
        inp.table.all()
    }
}

/// What the edges that lead to the version of node `n` count for, whether or
/// not anything leads to where they start.
pub open spec fn covered(inp: Inputs, n: int) -> Set<nat> {
    match inp.package(n) {
        Some(p) => inp.table.closure(
            Set::new(
                |c: nat|
                    exists|j: int|
                        0 <= j < inp.store.packages[p].edges.len() && (
                        #[trigger] inp.store.packages[p].edges[j]).to@ == inp.graph.nodes[n].version@
                            && inp.crit[p][j].contains(c),
            ),
        ),
        None => Set::empty(),
    }
}

// ---------------------------------------------------------------------------
// In which context a node is needed
// ---------------------------------------------------------------------------
/// `s` holds the workspace roots and every node that a member of `s`
/// depends on other than for development.
pub open spec fn runtime_closed(g: DepGraph, s: Set<int>) -> bool {
    &&& forall|r: int| 0 <= r < g.roots.len() ==> s.contains(#[trigger] g.roots[r] as int)
    &&& forall|n: int, k: int|
        0 <= n < g.nodes.len() && 0 <= k < g.nodes[n].deps.len() && s.contains(n) && (
        #[trigger] g.nodes[n].deps[k]).kind != EdgeKind::Dev ==> s.contains(
            g.nodes[n].deps[k].to as int,
        )
}

/// `s` holds the workspace roots and every node that a member of `s`
/// depends on in any way.
pub open spec fn reach_closed(g: DepGraph, s: Set<int>) -> bool {
    &&& forall|r: int| 0 <= r < g.roots.len() ==> s.contains(#[trigger] g.roots[r] as int)
    &&& forall|n: int, k: int|
        0 <= n < g.nodes.len() && 0 <= k < g.nodes[n].deps.len() && s.contains(n) ==> s.contains(
            (#[trigger] g.nodes[n].deps[k]).to as int,
        )
}

/// Node `n` is reached from a workspace root through dependencies that are
/// no dev dependencies.
pub open spec fn needed_for_runtime(g: DepGraph, n: int) -> bool {
    forall|s: Set<int>| #[trigger] runtime_closed(g, s) ==> s.contains(n)
}

/// Node `n` is reached from a workspace root.
pub open spec fn needed_at_all(g: DepGraph, n: int) -> bool {
    forall|s: Set<int>| #[trigger] reach_closed(g, s) ==> s.contains(n)
}

/// Node `n` is reached from a workspace root, but only through a dev
/// dependency.
pub open spec fn needed_for_dev_only(g: DepGraph, n: int) -> bool {
    needed_at_all(g, n) && !needed_for_runtime(g, n)
}

// ---------------------------------------------------------------------------
// What a node is required to satisfy
// ---------------------------------------------------------------------------
/// What a workspace root is asked for where its policy says nothing: what
/// the project has set as its default; or else `safe-to-deploy` where the
/// root is needed at run time, `safe-to-run` where it is not.
pub open spec fn default_criteria(inp: Inputs, n: int) -> Set<nat> {
    match inp.policy.default_criteria {
        Some(s) => s@,
        None => if needed_for_runtime(inp.graph, n) {
            set![0nat, 1nat]
        } else {
            set![0nat]
        },
    }
}

/// What a node of the project is asked for where its policy does not say:
/// a workspace root the default, another node nothing.
pub open spec fn unstated_criteria(inp: Inputs, n: int) -> Set<nat> {
    if inp.graph.is_root(n) {
        default_criteria(inp, n)
    } else {
        Set::empty()
    }
}

/// What node `n` is asked for on its own account: a node of the project
/// what its policy says, and a workspace root without such a policy the
/// default; another node nothing.
pub open spec fn self_required(inp: Inputs, n: int) -> Set<nat> {
    if inp.graph.nodes[n].first_party {
        match inp.policy_entry(n) {
            Some(q) => match inp.policy.entries[q].criteria {
                Some(s) => s@,
                None => unstated_criteria(inp, n),
            },
            None => unstated_criteria(inp, n),
        }
    } else {
        Set::empty()
    }
}

/// Everything that the requirements ask of the dependency called `name`.
pub open spec fn named_union(reqs: Seq<DepRequirement>, name: Seq<char>) -> Set<nat> {
    Set::new(
        |c: nat|
            exists|r: int|
                0 <= r < reqs.len() && (#[trigger] reqs[r]).name@ == name && reqs[r].criteria@.contains(
                    c,
                ),
    )
}

/// Criterion `c` is `safe-to-deploy` or implies it.
pub open spec fn deploys(table: CriteriaTable, c: nat) -> bool {
    table.implies(c, 1)
}

/// What is left of `s` across a dev dependency: `safe-to-deploy`, and what
/// implies it, becomes `safe-to-run`.
pub open spec fn downgrade(table: CriteriaTable, s: Set<nat>) -> Set<nat> {
    Set::new(
        |c: nat|
            (s.contains(c) && !deploys(table, c)) || (c == 0 && exists|t: nat|
                s.contains(t) && #[trigger] deploys(table, t)),
    )
}

/// The requirements on node `n` that it hands on to a dependency of the
/// given kind: to a dev dependency all of them, to another dependency those
/// that `n` does not satisfy.
pub open spec fn handed_on(kind: EdgeKind, need: Set<nat>, have: Set<nat>) -> Set<nat> {
    if kind == EdgeKind::Dev {
        need
    } else {
        need.difference(have)
    }
}

/// The policy of node `n` names its `k`-th dependency.
pub open spec fn overridden(inp: Inputs, n: int, k: int) -> bool {
    !inp.needs_audits(n) && names_dep(inp.policy_deps(n), inp.name(inp.dep(n, k)))
}

/// What node `n`, asked for `need`, asks of its `k`-th dependency. Where the
/// policy of `n` names the dependency, that is what the policy says, as soon
/// as anything is handed on. Else it is what is handed on, downgraded across
/// a dev dependency.
pub open spec fn demand(inp: Inputs, have: Seq<Set<nat>>, n: int, k: int, need: Set<nat>) -> Set<nat> {
    let handed = handed_on(inp.kind(n, k), need, have[n]);
    if overridden(inp, n, k) {
        if exists|t: nat| handed.contains(t) {
            named_union(inp.policy_deps(n), inp.name(inp.dep(n, k)))
        } else {
            Set::empty()
        }
    } else if inp.kind(n, k) == EdgeKind::Dev {
        downgrade(inp.table, handed)
    } else {
        handed
    }
}

/// `r` asks every node for what it is asked on its own account and for what
/// the nodes that depend on it ask of it.
pub open spec fn required_closed(inp: Inputs, have: Seq<Set<nat>>, r: Seq<Set<nat>>) -> bool {
    &&& r.len() == inp.nodes()
    &&& forall|n: int, c: nat|
        0 <= n < inp.nodes() && self_required(inp, n).contains(c) ==> #[trigger] r[n].contains(c)
    &&& forall|n: int, k: int, c: nat|
        0 <= n < inp.nodes() && 0 <= k < inp.graph.nodes[n].deps.len() && #[trigger] demand(
            inp,
            have,
            n,
            k,
            r[n],
        ).contains(c) ==> r[inp.dep(n, k)].contains(c)
}

/// What each node is required to satisfy, where the nodes satisfy `have`:
/// the least assignment that is closed.
pub open spec fn required_given(inp: Inputs, have: Seq<Set<nat>>) -> Seq<Set<nat>> {
    Seq::new(
        inp.nodes() as nat,
        |n: int|
            Set::new(
                |c: nat|
                    forall|r: Seq<Set<nat>>| #[trigger]
                        required_closed(inp, have, r) ==> r[n].contains(c),
            ),
    )
}

/// What each node is required to satisfy.
pub open spec fn required(inp: Inputs) -> Seq<Set<nat>> {
    required_given(inp, satisfied(inp))
}

/// Node `n` satisfies all that it is required to.
pub open spec fn node_passes(inp: Inputs, n: int) -> bool {
    required(inp)[n].subset_of(satisfied(inp)[n])
}

/// Every node satisfies all that it is required to.
pub open spec fn passes(inp: Inputs) -> bool {
    forall|n: int| 0 <= n < inp.nodes() ==> #[trigger] node_passes(inp, n)
}

} // verus!
