//! Computing what each node satisfies.

use vstd::prelude::*;
use crate::bits::{
    bits_view, has_bit, lemma_bits_and, lemma_bits_low_mask, lemma_bits_or, lemma_bits_or_grows,
    lemma_bits_subset, lemma_bits_zero, low_mask,
};
use crate::criteria::CriteriaSet;
use crate::flow::{lemma_slack_update, slack, words_view};
use crate::model::{start_view, AuditEdge, DepGraph, DepRequirement, EdgeKind, Policy, Store};
use crate::paths::audited_word;
use crate::semantics::{
    audit_closed, audit_connects, audit_reach, audited, dep_allows, deps_allow, edge_masks,
    named_ok, names_dep,
    node_valid, raw_valid, satisfied, valid_closed, Inputs,
};
use crate::universe::{sets_of, CriteriaTable};

verus! {

/// The parts of a resolution that are given once: the universe of criteria,
/// the dependency graph, the audit store and the policy.
pub struct Problem<'a> {
    pub table: &'a CriteriaTable,
    pub graph: &'a DepGraph,
    pub store: &'a Store,
    pub policy: &'a Policy,
}

/// The members of each set of each row.
pub open spec fn crit_view(crit: Seq<Vec<CriteriaSet>>) -> Seq<Seq<Set<nat>>> {
    Seq::new(crit.len(), |p: int| sets_of(crit[p]@))
}

impl<'a> Problem<'a> {
    /// The inputs of the resolution in which the edges of the store count
    /// for `crit` and the nodes are granted `assumed`.
    pub open spec fn inputs(&self, crit: Seq<Vec<CriteriaSet>>, assumed: Seq<CriteriaSet>) -> Inputs {
        Inputs {
            table: *self.table,
            graph: *self.graph,
            store: *self.store,
            policy: *self.policy,
            crit: crit_view(crit),
            assumed: sets_of(assumed),
        }
    }

    /// Whether node `n` needs audits of its own.
    pub(crate) fn needs_audits(&self, n: usize, Ghost(inp): Ghost<Inputs>) -> (r: bool)
        requires
            inp.graph == *self.graph,
            inp.policy == *self.policy,
            n < self.graph.nodes.len(),
        ensures
            r == inp.needs_audits(n as int),
    {
        let node = &self.graph.nodes[n];
        if !node.first_party {
            return true;
        }
        match self.policy.find(&node.name) {
            Some(q) => self.policy.entries[q].audit_as_third_party,
            None => false,
        }
    }
}

/// The word of the criteria that a dependency called `name`, which
/// satisfies `have`, lets through under the requirements `reqs`.
pub fn requirement_word(reqs: &Vec<DepRequirement>, name: &String, have: u64) -> (r: u64)
    ensures
        forall|c: nat| c < 64 ==> #[trigger] has_bit(r, c) == dep_allows(reqs@, name@, bits_view(have), c),
{
    let mut named = false;
    let mut ok = true;
    let mut i: usize = 0;
    while i < reqs.len()
        invariant
            i <= reqs.len(),
            named == exists|r: int| 0 <= r < i && (#[trigger] reqs[r]).name@ == name@,
            ok == forall|r: int|
                0 <= r < i && (#[trigger] reqs[r]).name@ == name@ ==> reqs[r].criteria@.subset_of(
                    bits_view(have),
                ),
        decreases reqs.len() - i,
    {
        if reqs[i].name == *name {
            named = true;
            proof {
                lemma_bits_subset(reqs[i as int].criteria.bits, have);
            }
            if reqs[i].criteria.bits & have != reqs[i].criteria.bits {
                ok = false;
            }
        }
        i += 1;
    }
    proof {
        lemma_bits_low_mask(64);
        assert(low_mask(64) == u64::MAX);
        assert forall|c: nat| c < 64 implies has_bit(u64::MAX, c) by {
            assert(has_bit(low_mask(64), c));
        }
        assert forall|c: nat| has_bit(have, c) == bits_view(have).contains(c) by {}
        assert(named == names_dep(reqs@, name@));
        assert(ok == named_ok(reqs@, name@, bits_view(have)));
    }
    if named {
        if ok {
            u64::MAX
        } else {
            proof {
                lemma_bits_zero();
            }
            0
        }
    } else {
        have
    }
}

/// The word of the criteria that every dependency of node `n`, other than
/// the dev dependencies, lets through under the requirements `reqs`.
pub(crate) fn deps_word(
    graph: &DepGraph,
    n: usize,
    reqs: &Vec<DepRequirement>,
    v: &Vec<u64>,
    Ghost(inp): Ghost<Inputs>,
) -> (r: u64)
    requires
        inp.graph == *graph,
        graph.wf(),
        n < graph.nodes.len(),
        v.len() == graph.nodes.len(),
    ensures
        forall|c: nat| c < 64 ==> #[trigger] has_bit(r, c) == deps_allow(inp, n as int, reqs@, words_view(v@), c),
{
    let node = &graph.nodes[n];
    let ghost sets = words_view(v@);
    let mut acc: u64 = u64::MAX;
    proof {
        lemma_bits_low_mask(64);
        assert(low_mask(64) == u64::MAX);
        assert forall|c: nat| c < 64 implies has_bit(u64::MAX, c) by {
            assert(has_bit(low_mask(64), c));
        }
    }
    let mut k: usize = 0;
    while k < node.deps.len()
        invariant
            k <= node.deps.len(),
            inp.graph == *graph,
            graph.wf(),
            n < graph.nodes.len(),
            *node == graph.nodes[n as int],
            v.len() == graph.nodes.len(),
            sets == words_view(v@),
            forall|c: nat|
                c < 64 ==> #[trigger] has_bit(acc, c) == forall|j: int|
                    #![trigger inp.graph.nodes[n as int].deps[j]]
                    0 <= j < k && inp.kind(n as int, j) != EdgeKind::Dev ==> dep_allows(
                        reqs@,
                        inp.name(inp.dep(n as int, j)),
                        sets[inp.dep(n as int, j)],
                        c,
                    ),
        decreases node.deps.len() - k,
    {
        let edge = node.deps[k];
        assert(edge == inp.graph.nodes[n as int].deps[k as int]);
        assert(edge.to < graph.nodes.len());
        let is_dev = match edge.kind {
            EdgeKind::Dev => true,
            _ => false,
        };
        if !is_dev {
            let w = requirement_word(reqs, &graph.nodes[edge.to].name, v[edge.to]);
            let ghost before = acc;
            acc = acc & w;
            proof {
                lemma_bits_and(before, w);
                assert(sets[edge.to as int] == bits_view(v[edge.to as int]));
                assert forall|c: nat| c < 64 implies #[trigger] has_bit(acc, c) == forall|j: int|
                    #![trigger inp.graph.nodes[n as int].deps[j]]
                    0 <= j < k + 1 && inp.kind(n as int, j) != EdgeKind::Dev ==> dep_allows(
                        reqs@,
                        inp.name(inp.dep(n as int, j)),
                        sets[inp.dep(n as int, j)],
                        c,
                    ) by {
                    assert(has_bit(acc, c) == (has_bit(before, c) && has_bit(w, c)));
                    assert(has_bit(w, c) == dep_allows(
                        reqs@,
                        inp.name(inp.dep(n as int, k as int)),
                        sets[inp.dep(n as int, k as int)],
                        c,
                    ));
                    if has_bit(acc, c) {
                        assert forall|j: int|
                            #![trigger inp.graph.nodes[n as int].deps[j]]
                            0 <= j < k + 1 && inp.kind(n as int, j) != EdgeKind::Dev implies dep_allows(
                            reqs@,
                            inp.name(inp.dep(n as int, j)),
                            sets[inp.dep(n as int, j)],
                            c,
                        ) by {
                            if j < k {
                            }
                        }
                    }
                }
            }
        } else {
            proof {
                assert forall|c: nat| c < 64 implies #[trigger] has_bit(acc, c) == forall|j: int|
                    #![trigger inp.graph.nodes[n as int].deps[j]]
                    0 <= j < k + 1 && inp.kind(n as int, j) != EdgeKind::Dev ==> dep_allows(
                        reqs@,
                        inp.name(inp.dep(n as int, j)),
                        sets[inp.dep(n as int, j)],
                        c,
                    ) by {
                    if has_bit(acc, c) {
                        assert forall|j: int|
                            #![trigger inp.graph.nodes[n as int].deps[j]]
                            0 <= j < k + 1 && inp.kind(n as int, j) != EdgeKind::Dev implies dep_allows(
                            reqs@,
                            inp.name(inp.dep(n as int, j)),
                            sets[inp.dep(n as int, j)],
                            c,
                        ) by {
                            if j < k {
                            }
                        }
                    }
                }
            }
        }
        k += 1;
    }
    acc
}

// ---------------------------------------------------------------------------
// More audits never take away
// ---------------------------------------------------------------------------
/// Two edges are the same audit: they lead from the same version to the
/// same version and ask the same of the dependencies.
pub open spec fn same_audit(x: AuditEdge, y: AuditEdge) -> bool {
    &&& x.to@ == y.to@
    &&& start_view(x.from) == start_view(y.from)
    &&& same_reqs(x.deps@, y.deps@)
}

/// Two lists ask the same of the dependencies.
pub open spec fn same_reqs(x: Seq<DepRequirement>, y: Seq<DepRequirement>) -> bool {
    &&& x.len() == y.len()
    &&& forall|r: int|
        0 <= r < x.len() ==> (#[trigger] x[r]).name@ == y[r].name@ && x[r].criteria@
            == y[r].criteria@
}

/// `m` says where each edge of package `p` of `a` stands among the edges of
/// package `q` of `b`: at that place stands the same audit, and counts for
/// no less.
pub open spec fn embeds(a: Inputs, p: int, b: Inputs, q: int, m: Seq<int>) -> bool {
    let ea = a.store.packages[p].edges;
    let eb = b.store.packages[q].edges;
    &&& m.len() == ea.len()
    &&& forall|j: int|
        0 <= j < ea.len() ==> 0 <= #[trigger] m[j] < eb.len() && same_audit(ea[j], eb[m[j]])
            && a.crit[p][j].subset_of(b.crit[q][m[j]])
}

/// The audit graph of package `q` of `b` holds that of package `p` of `a`:
/// every edge of the one stands somewhere among the edges of the other, and
/// counts for no less there.
pub open spec fn edges_extend(a: Inputs, p: int, b: Inputs, q: int) -> bool {
    exists|m: Seq<int>| embeds(a, p, b, q, m)
}

/// The audit graph of package `q` of `b` holds that of package `p` of `a`
/// in front: the same edges, each counting for no less.
pub open spec fn edges_in_front(a: Inputs, p: int, b: Inputs, q: int) -> bool {
    let ea = a.store.packages[p].edges;
    let eb = b.store.packages[q].edges;
    &&& ea.len() <= eb.len()
    &&& forall|j: int| 0 <= j < ea.len() ==> #[trigger] eb[j] == ea[j]
    &&& forall|j: int| 0 <= j < ea.len() ==> (#[trigger] a.crit[p][j]).subset_of(b.crit[q][j])
}

/// Edges that stand in front stand somewhere.
pub proof fn lemma_in_front_extends(a: Inputs, p: int, b: Inputs, q: int)
    requires
        edges_in_front(a, p, b, q),
    ensures
        edges_extend(a, p, b, q),
{
    let ea = a.store.packages[p].edges;
    let eb = b.store.packages[q].edges;
    let m = Seq::new(ea.len() as nat, |j: int| j);
    assert forall|j: int| 0 <= j < ea.len() implies 0 <= #[trigger] m[j] < eb.len() && same_audit(
        ea[j],
        eb[m[j]],
    ) && a.crit[p][j].subset_of(b.crit[q][m[j]]) by {
        assert(eb[j] == ea[j]);
        assert(a.crit[p][j].subset_of(b.crit[q][j]));
    }
    assert(embeds(a, p, b, q, m));
}

/// `b` has the audits that `a` has, and maybe more: the same universe,
/// graph and policy; and for every node the audits it has in `a`, each edge
/// counting for no less.
pub open spec fn audits_grow(a: Inputs, b: Inputs) -> bool {
    &&& a.table == b.table
    &&& a.graph == b.graph
    &&& a.policy == b.policy
    &&& forall|n: int|
        0 <= n < a.nodes() ==> match #[trigger] a.package(n) {
            Some(p) => match b.package(n) {
                Some(q) => edges_extend(a, p, b, q),
                None => false,
            },
            None => true,
        }
}

/// `b` has everything that `a` has, and maybe more: its audits, and no less
/// taken for granted.
pub open spec fn store_grows(a: Inputs, b: Inputs) -> bool {
    &&& audits_grow(a, b)
    &&& forall|n: int| 0 <= n < a.nodes() ==> (#[trigger] a.assumed[n]).subset_of(b.assumed[n])
}

/// One assignment gives every node no more than another.
pub open spec fn below(v: Seq<Set<nat>>, w: Seq<Set<nat>>) -> bool {
    v.len() == w.len() && forall|n: int| 0 <= n < v.len() ==> (#[trigger] v[n]).subset_of(w[n])
}

pub proof fn lemma_dep_allows_monotone(
    reqs: Seq<DepRequirement>,
    name: Seq<char>,
    have: Set<nat>,
    more: Set<nat>,
    c: nat,
)
    requires
        have.subset_of(more),
        dep_allows(reqs, name, have, c),
    ensures
        dep_allows(reqs, name, more, c),
{
    if names_dep(reqs, name) {
        assert forall|r: int|
            0 <= r < reqs.len() && (#[trigger] reqs[r]).name@ == name implies reqs[r].criteria@.subset_of(
            more,
        ) by {
            assert(reqs[r].criteria@.subset_of(have));
        }
    }
}

pub proof fn lemma_deps_allow_monotone(
    a: Inputs,
    b: Inputs,
    n: int,
    reqs: Seq<DepRequirement>,
    v: Seq<Set<nat>>,
    w: Seq<Set<nat>>,
    c: nat,
)
    requires
        a.graph == b.graph,
        a.graph.wf(),
        0 <= n < a.nodes(),
        v.len() == a.nodes(),
        below(v, w),
        deps_allow(a, n, reqs, v, c),
    ensures
        deps_allow(b, n, reqs, w, c),
{
    assert forall|k: int|
        #![trigger b.graph.nodes[n].deps[k]]
        0 <= k < b.graph.nodes[n].deps.len() && b.kind(n, k) != EdgeKind::Dev implies dep_allows(
        reqs,
        b.name(b.dep(n, k)),
        w[b.dep(n, k)],
        c,
    ) by {
        let d = a.dep(n, k);
        assert(a.graph.nodes[n].deps[k].to < a.graph.nodes.len());
        assert(v[d].subset_of(w[d]));
        lemma_dep_allows_monotone(reqs, a.name(d), v[d], w[d], c);
    }
}

/// Lists that ask the same of the dependencies let the same through.
pub proof fn lemma_same_reqs_allow(
    inp: Inputs,
    n: int,
    x: Seq<DepRequirement>,
    y: Seq<DepRequirement>,
    v: Seq<Set<nat>>,
    c: nat,
)
    requires
        same_reqs(x, y),
        deps_allow(inp, n, x, v, c),
    ensures
        deps_allow(inp, n, y, v, c),
{
    assert forall|k: int|
        #![trigger inp.graph.nodes[n].deps[k]]
        0 <= k < inp.graph.nodes[n].deps.len() && inp.kind(n, k) != EdgeKind::Dev implies dep_allows(
        y,
        inp.name(inp.dep(n, k)),
        v[inp.dep(n, k)],
        c,
    ) by {
        let name = inp.name(inp.dep(n, k));
        let have = v[inp.dep(n, k)];
        assert(dep_allows(x, name, have, c));
        if names_dep(y, name) {
            let r = choose|r: int| 0 <= r < y.len() && (#[trigger] y[r]).name@ == name;
            assert(x[r].name@ == name);
            assert(names_dep(x, name));
            assert forall|t: int| 0 <= t < y.len() && (#[trigger] y[t]).name@ == name implies y[t].criteria@.subset_of(
                have,
            ) by {
                assert(x[t].name@ == name);
                assert(x[t].criteria@.subset_of(have));
            }
        } else {
            if names_dep(x, name) {
                let r = choose|r: int| 0 <= r < x.len() && (#[trigger] x[r]).name@ == name;
                assert(y[r].name@ == name);
            }
        }
    }
}

/// The audits lead through an edge for no less where the store holds more
/// audits and the dependencies satisfy more.
pub proof fn lemma_reach_monotone(
    a: Inputs,
    p: int,
    b: Inputs,
    q: int,
    n: int,
    v: Seq<Set<nat>>,
    w: Seq<Set<nat>>,
    m: Seq<int>,
    j: int,
)
    requires
        a.graph == b.graph,
        a.wf(),
        b.wf(),
        0 <= n < a.nodes(),
        0 <= p < a.store.packages.len(),
        0 <= q < b.store.packages.len(),
        embeds(a, p, b, q, m),
        v.len() == a.nodes(),
        below(v, w),
        0 <= j < a.store.packages[p].edges.len(),
    ensures
        audit_reach(a.store.packages[p].edges@, edge_masks(a, p, n, v), j).subset_of(
            audit_reach(b.store.packages[q].edges@, edge_masks(b, q, n, w), m[j]),
        ),
{
    let ea = a.store.packages[p].edges@;
    let eb = b.store.packages[q].edges@;
    let ma = edge_masks(a, p, n, v);
    let mb = edge_masks(b, q, n, w);
    assert forall|i: int, c: nat| 0 <= i < ea.len() && #[trigger] ma[i].contains(c) implies mb[m[i]].contains(
        c,
    ) by {
        assert(same_audit(ea[i], eb[m[i]]));
        assert(a.crit[p][i].subset_of(b.crit[q][m[i]]));
        lemma_deps_allow_monotone(a, b, n, ea[i].deps@, v, w, c);
        lemma_same_reqs_allow(b, n, ea[i].deps@, eb[m[i]].deps@, w, c);
    }
    assert forall|c: nat| audit_reach(ea, ma, j).contains(c) implies audit_reach(eb, mb, m[j]).contains(
        c,
    ) by {
        assert forall|x: Seq<Set<nat>>| #[trigger] audit_closed(eb, mb, x) implies x[m[j]].contains(
            c,
        ) by {
            let y = Seq::new(ea.len(), |i: int| x[m[i]]);
            assert forall|i: int, d: nat|
                0 <= i < ea.len() && ea[i].from is None && ma[i].contains(d) implies #[trigger] y[i].contains(
                d,
            ) by {
                assert(same_audit(ea[i], eb[m[i]]));
                assert(eb[m[i]].from is None);
                assert(mb[m[i]].contains(d));
                assert(x[m[i]].contains(d));
            }
            assert forall|i: int, k: int, d: nat|
                0 <= i < ea.len() && 0 <= k < ea.len() && audit_connects(ea, i, k)
                    && #[trigger] y[i].contains(d) && ma[k].contains(d) implies #[trigger] y[k].contains(
                d,
            ) by {
                assert(same_audit(ea[i], eb[m[i]]));
                assert(same_audit(ea[k], eb[m[k]]));
                assert(audit_connects(eb, m[i], m[k]));
                assert(x[m[i]].contains(d));
                assert(mb[m[k]].contains(d));
                assert(x[m[k]].contains(d));
            }
            assert(audit_closed(ea, ma, y));
            assert(y[j].contains(c));
        }
    }
}

/// The audits lead to the version of a node for no less where the store
/// holds more audits and the dependencies satisfy more.
pub proof fn lemma_audited_monotone(
    a: Inputs,
    p: int,
    b: Inputs,
    q: int,
    n: int,
    v: Seq<Set<nat>>,
    w: Seq<Set<nat>>,
)
    requires
        a.graph == b.graph,
        a.wf(),
        b.wf(),
        0 <= n < a.nodes(),
        0 <= p < a.store.packages.len(),
        0 <= q < b.store.packages.len(),
        edges_extend(a, p, b, q),
        v.len() == a.nodes(),
        below(v, w),
    ensures
        audited(a.store.packages[p].edges@, edge_masks(a, p, n, v), a.graph.nodes[n].version@).subset_of(
            audited(b.store.packages[q].edges@, edge_masks(b, q, n, w), b.graph.nodes[n].version@),
        ),
{
    let ea = a.store.packages[p].edges@;
    let eb = b.store.packages[q].edges@;
    let ma = edge_masks(a, p, n, v);
    let mb = edge_masks(b, q, n, w);
    let target = a.graph.nodes[n].version@;
    let m = choose|m: Seq<int>| embeds(a, p, b, q, m);
    assert forall|c: nat| audited(ea, ma, target).contains(c) implies audited(eb, mb, target).contains(
        c,
    ) by {
        let j = choose|j: int|
            0 <= j < ea.len() && ea[j].to@ == target && #[trigger] audit_reach(ea, ma, j).contains(c);
        assert(same_audit(ea[j], eb[m[j]]));
        lemma_reach_monotone(a, p, b, q, n, v, w, m, j);
        assert(audit_reach(eb, mb, m[j]).contains(c));
    }
}

/// A node has no less by its audits and its dependencies where the store
/// holds more audits and the dependencies satisfy more.
pub proof fn lemma_raw_valid_monotone(a: Inputs, b: Inputs, n: int, v: Seq<Set<nat>>, w: Seq<Set<nat>>)
    requires
        a.wf(),
        b.wf(),
        audits_grow(a, b),
        0 <= n < a.nodes(),
        v.len() == a.nodes(),
        below(v, w),
    ensures
        raw_valid(a, n, v).subset_of(raw_valid(b, n, w)),
        a.table.closure(raw_valid(a, n, v)).subset_of(b.table.closure(raw_valid(b, n, w))),
{
    assert(a.policy_entry(n) == b.policy_entry(n));
    assert(a.needs_audits(n) == b.needs_audits(n));
    assert(a.policy_deps(n) == b.policy_deps(n));
    assert(raw_valid(a, n, v).subset_of(raw_valid(b, n, w))) by {
        if a.needs_audits(n) {
            match a.package(n) {
                Some(p) => {
                    let q = b.package(n).unwrap();
                    lemma_audited_monotone(a, p, b, q, n, v, w);
                },
                None => {},
            }
        } else {
            assert forall|c: nat| raw_valid(a, n, v).contains(c) implies raw_valid(b, n, w).contains(
                c,
            ) by {
                lemma_deps_allow_monotone(a, b, n, a.policy_deps(n), v, w, c);
            }
        }
    }
    a.table.lemma_closure_monotone(raw_valid(a, n, v), raw_valid(b, n, w));
}

/// A node satisfies no less where the store holds more and its dependencies
/// satisfy more.
pub proof fn lemma_node_valid_monotone(a: Inputs, b: Inputs, n: int, v: Seq<Set<nat>>, w: Seq<Set<nat>>)
    requires
        a.wf(),
        b.wf(),
        store_grows(a, b),
        0 <= n < a.nodes(),
        v.len() == a.nodes(),
        below(v, w),
    ensures
        node_valid(a, n, v).subset_of(node_valid(b, n, w)),
{
    lemma_raw_valid_monotone(a, b, n, v, w);
    assert(a.assumed[n].subset_of(b.assumed[n]));
}

/// Every resolution has at least what itself has.
pub proof fn lemma_store_grows_reflexive(a: Inputs)
    requires
        a.wf(),
    ensures
        store_grows(a, a),
{
    assert forall|n: int| 0 <= n < a.nodes() implies match #[trigger] a.package(n) {
        Some(p) => match a.package(n) {
            Some(q) => edges_extend(a, p, a, q),
            None => false,
        },
        None => true,
    } by {
        match a.package(n) {
            Some(p) => {
                assert(edges_in_front(a, p, a, p));
                lemma_in_front_extends(a, p, a, p);
            },
            None => {},
        }
    }
}

/// What the nodes satisfy is closed, and lies below every closed
/// assignment.
pub proof fn lemma_satisfied_least(inp: Inputs)
    requires
        inp.wf(),
    ensures
        valid_closed(inp, satisfied(inp)),
        forall|v: Seq<Set<nat>>| #[trigger] valid_closed(inp, v) ==> below(satisfied(inp), v),
{
    let least = satisfied(inp);
    assert forall|v: Seq<Set<nat>>| #[trigger] valid_closed(inp, v) implies below(least, v) by {
        assert forall|n: int| 0 <= n < least.len() implies (#[trigger] least[n]).subset_of(v[n]) by {}
    }
    lemma_store_grows_reflexive(inp);
    assert forall|n: int, c: nat|
        0 <= n < inp.nodes() && #[trigger] node_valid(inp, n, least).contains(c) implies least[n].contains(
        c,
    ) by {
        assert forall|v: Seq<Set<nat>>| #[trigger] valid_closed(inp, v) implies v[n].contains(c) by {
            assert(below(least, v));
            lemma_node_valid_monotone(inp, inp, n, least, v);
            assert(node_valid(inp, n, v).contains(c));
        }
    }
}

/// Monotonicity of satisfaction: where the store holds more audits, wider
/// exemptions, or more is taken for granted, every node satisfies no less.
pub proof fn lemma_satisfied_monotone(a: Inputs, b: Inputs)
    requires
        a.wf(),
        b.wf(),
        store_grows(a, b),
    ensures
        below(satisfied(a), satisfied(b)),
{
    let sa = satisfied(a);
    let sb = satisfied(b);
    lemma_satisfied_least(b);
    assert forall|n: int, c: nat|
        0 <= n < a.nodes() && #[trigger] node_valid(a, n, sb).contains(c) implies sb[n].contains(c) by {
        assert(below(sb, sb));
        lemma_node_valid_monotone(a, b, n, sb, sb);
        assert(node_valid(b, n, sb).contains(c));
    }
    assert(valid_closed(a, sb));
    assert forall|n: int| 0 <= n < sa.len() implies (#[trigger] sa[n]).subset_of(sb[n]) by {}
}

// ---------------------------------------------------------------------------
// The computation
// ---------------------------------------------------------------------------
impl<'a> Problem<'a> {
    /// What each edge of package `p` carries for node `n`, where the nodes
    /// satisfy `v`.
    pub fn edge_mask_words(
        &self,
        crit: &Vec<Vec<CriteriaSet>>,
        assumed: &Vec<CriteriaSet>,
        p: usize,
        n: usize,
        v: &Vec<u64>,
    ) -> (masks: Vec<u64>)
        requires
            self.inputs(crit@, assumed@).wf(),
            p < self.store.packages.len(),
            n < self.graph.nodes.len(),
            v.len() == self.graph.nodes.len(),
        ensures
            masks.len() == self.store.packages[p as int].edges.len(),
            words_view(masks@) == edge_masks(
                self.inputs(crit@, assumed@),
                p as int,
                n as int,
                words_view(v@),
            ),
    {
        let ghost inp = self.inputs(crit@, assumed@);
        let ghost sets = words_view(v@);
        let edges = &self.store.packages[p].edges;
        let row = &crit[p];
        assert(inp.crit[p as int] == sets_of(row@));
        assert(inp.crit[p as int].len() == inp.store.packages[p as int].edges.len());
        let mut masks: Vec<u64> = Vec::new();
        let mut j: usize = 0;
        while j < edges.len()
            invariant
                j <= edges.len(),
                inp == self.inputs(crit@, assumed@),
                inp.wf(),
                p < self.store.packages.len(),
                *edges == self.store.packages[p as int].edges,
                *row == crit[p as int],
                row.len() == edges.len(),
                n < self.graph.nodes.len(),
                v.len() == self.graph.nodes.len(),
                sets == words_view(v@),
                masks.len() == j,
                forall|i: int|
                    0 <= i < j ==> bits_view(#[trigger] masks[i]) == edge_masks(
                        inp,
                        p as int,
                        n as int,
                        sets,
                    )[i],
            decreases edges.len() - j,
        {
            let allowed = deps_word(self.graph, n, &edges[j].deps, v, Ghost(inp));
            let m = row[j].bits & allowed;
            proof {
                lemma_bits_and(row[j as int].bits, allowed);
                assert(inp.crit[p as int][j as int] == row[j as int]@);
                assert(bits_view(m) =~= edge_masks(inp, p as int, n as int, sets)[j as int]);
            }
            masks.push(m);
            j += 1;
        }
        assert(words_view(masks@) =~= edge_masks(inp, p as int, n as int, sets));
        masks
    }

    /// What node `n` satisfies where the nodes satisfy `v`.
    pub fn node_valid_word(
        &self,
        crit: &Vec<Vec<CriteriaSet>>,
        assumed: &Vec<CriteriaSet>,
        n: usize,
        v: &Vec<u64>,
    ) -> (r: u64)
        requires
            self.inputs(crit@, assumed@).wf(),
            n < self.graph.nodes.len(),
            v.len() == self.graph.nodes.len(),
        ensures
            bits_view(r) == node_valid(self.inputs(crit@, assumed@), n as int, words_view(v@)),
    {
        let ghost inp = self.inputs(crit@, assumed@);
        let ghost sets = words_view(v@);
        let node = &self.graph.nodes[n];
        let raw: u64 = if self.needs_audits(n, Ghost(inp)) {
            match self.store.find(&node.name) {
                Some(p) => {
                    let edges = &self.store.packages[p].edges;
                    let row = &crit[p];
                    assert(inp.crit[p as int] == sets_of(row@));
                    let mut masks: Vec<u64> = Vec::new();
                    let mut j: usize = 0;
                    while j < edges.len()
                        invariant
                            j <= edges.len(),
                            inp == self.inputs(crit@, assumed@),
                            inp.wf(),
                            p < self.store.packages.len(),
                            *edges == self.store.packages[p as int].edges,
                            *row == crit[p as int],
                            row.len() == edges.len(),
                            n < self.graph.nodes.len(),
                            v.len() == self.graph.nodes.len(),
                            sets == words_view(v@),
                            masks.len() == j,
                            forall|i: int|
                                0 <= i < j ==> bits_view(#[trigger] masks[i]) == edge_masks(
                                    inp,
                                    p as int,
                                    n as int,
                                    sets,
                                )[i],
                        decreases edges.len() - j,
                    {
                        let allowed = deps_word(self.graph, n, &edges[j].deps, v, Ghost(inp));
                        let m = row[j].bits & allowed;
                        proof {
                            lemma_bits_and(row[j as int].bits, allowed);
                            assert(inp.crit[p as int][j as int] == row[j as int]@);
                            assert(bits_view(m) =~= edge_masks(inp, p as int, n as int, sets)[j as int]);
                        }
                        masks.push(m);
                        j += 1;
                    }
                    assert(words_view(masks@) =~= edge_masks(inp, p as int, n as int, sets));
                    audited_word(edges, &masks, &node.version)
                },
                None => {
                    proof {
                        lemma_bits_zero();
                    }
                    0
                },
            }
        } else {
            let empty: Vec<DepRequirement> = Vec::new();
            let allowed = match self.policy.find(&node.name) {
                Some(q) => deps_word(self.graph, n, &self.policy.entries[q].deps, v, Ghost(inp)),
                None => {
                    assert(empty@ =~= Seq::<DepRequirement>::empty());
                    deps_word(self.graph, n, &empty, v, Ghost(inp))
                },
            };
            let universe = CriteriaSet::below(self.table.len());
            let w = allowed & universe.bits;
            proof {
                lemma_bits_and(allowed, universe.bits);
                assert(bits_view(w) =~= raw_valid(inp, n as int, sets)) by {
                    assert forall|c: nat| bits_view(w).contains(c) == raw_valid(
                        inp,
                        n as int,
                        sets,
                    ).contains(c) by {
                        assert(universe@.contains(c) == (c < self.table.count()));
                    }
                }
            }
            w
        };
        assert(bits_view(raw) == raw_valid(inp, n as int, sets));
        let closed = self.table.close(&CriteriaSet { bits: raw });
        let r = closed.bits | assumed[n].bits;
        proof {
            lemma_bits_or(closed.bits, assumed[n as int].bits);
            assert(inp.assumed[n as int] == assumed[n as int]@);
        }
        r
    }

    /// What each node satisfies.
    pub fn compute_satisfied(&self, crit: &Vec<Vec<CriteriaSet>>, assumed: &Vec<CriteriaSet>) -> (v: Vec<
        u64,
    >)
        requires
            self.inputs(crit@, assumed@).wf(),
        ensures
            v.len() == self.graph.nodes.len(),
            words_view(v@) == satisfied(self.inputs(crit@, assumed@)),
    {
        let ghost inp = self.inputs(crit@, assumed@);
        let count = self.graph.nodes.len();
        let mut v: Vec<u64> = Vec::new();
        let mut i: usize = 0;
        proof {
            lemma_bits_zero();
        }
        while i < count
            invariant
                i <= count,
                v.len() == i,
                forall|n: int| 0 <= n < i ==> #[trigger] v[n] == 0,
            decreases count - i,
        {
            v.push(0);
            i += 1;
        }
        proof {
            lemma_store_grows_reflexive(inp);
        }
        loop
            invariant
                inp == self.inputs(crit@, assumed@),
                inp.wf(),
                store_grows(inp, inp),
                count == self.graph.nodes.len(),
                v.len() == count,
                forall|x: Seq<Set<nat>>| #[trigger] valid_closed(inp, x) ==> below(words_view(v@), x),
            ensures
                v.len() == count,
                valid_closed(inp, words_view(v@)),
                forall|x: Seq<Set<nat>>| #[trigger] valid_closed(inp, x) ==> below(words_view(v@), x),
            decreases slack(v@),
        {
            let ghost start = v@;
            let mut changed = false;
            let mut n: usize = 0;
            while n < count
                invariant
                    n <= count,
                    inp == self.inputs(crit@, assumed@),
                    inp.wf(),
                    store_grows(inp, inp),
                    count == self.graph.nodes.len(),
                    v.len() == count,
                    forall|x: Seq<Set<nat>>| #[trigger]
                        valid_closed(inp, x) ==> below(words_view(v@), x),
                    slack(v@) <= slack(start),
                    changed ==> slack(v@) < slack(start),
                    !changed ==> forall|m: int|
                        0 <= m < n ==> (#[trigger] node_valid(inp, m, words_view(v@))).subset_of(
                            bits_view(v[m]),
                        ),
                decreases count - n,
            {
                let found = self.node_valid_word(crit, assumed, n, &v);
                let before = v[n];
                let after = before | found;
                proof {
                    lemma_bits_or(before, found);
                    lemma_bits_or_grows(before, found);
                    assert forall|x: Seq<Set<nat>>| #[trigger] valid_closed(inp, x) implies bits_view(
                        after,
                    ).subset_of(x[n as int]) by {
                        assert(below(words_view(v@), x));
                        lemma_node_valid_monotone(inp, inp, n as int, words_view(v@), x);
                        assert(words_view(v@)[n as int].subset_of(x[n as int]));
                        assert forall|c: nat| bits_view(found).contains(c) implies x[n as int].contains(
                            c,
                        ) by {
                            assert(node_valid(inp, n as int, x).contains(c));
                        }
                    }
                }
                if after != before {
                    let ghost prior = v@;
                    v.set(n, after);
                    changed = true;
                    proof {
                        lemma_slack_update(prior, n as int, after);
                        assert(v@ =~= prior.update(n as int, after));
                        assert forall|x: Seq<Set<nat>>| #[trigger] valid_closed(inp, x) implies below(
                            words_view(v@),
                            x,
                        ) by {
                            assert(below(words_view(prior), x));
                            assert forall|m: int| 0 <= m < count implies (#[trigger] words_view(
                                v@,
                            )[m]).subset_of(x[m]) by {
                                if m != n {
                                    assert(words_view(prior)[m].subset_of(x[m]));
                                }
                            }
                        }
                    }
                } else {
                    proof {
                        assert(bits_view(found).subset_of(bits_view(before))) by {
                            assert(bits_view(after) == bits_view(before).union(bits_view(found)));
                        }
                    }
                }
                n += 1;
            }
            if !changed {
                proof {
                    let x = words_view(v@);
                    assert forall|m: int, c: nat|
                        0 <= m < inp.nodes() && #[trigger] node_valid(inp, m, x).contains(c) implies x[m].contains(
                        c,
                    ) by {
                        assert(node_valid(inp, m, x).subset_of(bits_view(v[m])));
                    }
                }
                break ;
            }
        }
        proof {
            let x = words_view(v@);
            let least = satisfied(inp);
            assert(below(x, x));
            assert forall|n: int| 0 <= n < count implies #[trigger] x[n] =~= least[n] by {
                assert forall|c: nat| x[n].contains(c) implies least[n].contains(c) by {
                    assert forall|y: Seq<Set<nat>>| #[trigger] valid_closed(inp, y) implies y[n].contains(
                        c,
                    ) by {
                        assert(below(x, y));
                        assert(x[n].subset_of(y[n]));
                    }
                }
            }
            assert(x =~= least);
        }
        v
    }
}

} // verus!
