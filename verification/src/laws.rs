//! Laws of the resolution.

use vstd::prelude::*;
use crate::criteria::lemma_set_ext;
use crate::model::{edge_added, is_first, start_view, EdgeKind, VersionView};
use crate::resolver::{error_fits, failure_fits, failures_fit, report_fits, Failure, NodeError, Report};
use crate::satisfy::{
    audits_grow, below, edges_extend, edges_in_front, embeds, lemma_in_front_extends,
    lemma_node_valid_monotone, lemma_raw_valid_monotone, same_audit,
    lemma_reach_monotone, lemma_satisfied_least, lemma_satisfied_monotone,
    lemma_store_grows_reflexive, store_grows,
};
use crate::semantics::{
    audit_closed, audit_connects, audit_reach, audited, demand, deploys, deps_allow, edge_masks,
    handed_on, named_union, names_dep, needed_for_runtime, node_passes, node_valid,
    overridden, own_valid, passes, raw_valid, required, required_closed, required_given,
    runtime_closed, satisfied, self_required, valid_closed, Inputs,
};
use crate::suggest::{candidate_fits, candidates_fit, wanted, Candidate};

verus! {

// ---------------------------------------------------------------------------
// Requirements
// ---------------------------------------------------------------------------
/// A node that is asked for more asks its dependencies for no less.
pub proof fn lemma_demand_monotone(
    inp: Inputs,
    have: Seq<Set<nat>>,
    n: int,
    k: int,
    x: Set<nat>,
    y: Set<nat>,
)
    requires
        x.subset_of(y),
    ensures
        demand(inp, have, n, k, x).subset_of(demand(inp, have, n, k, y)),
{
    let hx = handed_on(inp.kind(n, k), x, have[n]);
    let hy = handed_on(inp.kind(n, k), y, have[n]);
    assert(hx.subset_of(hy));
    assert forall|c: nat| demand(inp, have, n, k, x).contains(c) implies demand(
        inp,
        have,
        n,
        k,
        y,
    ).contains(c) by {
        if overridden(inp, n, k) {
            let t = choose|t: nat| hx.contains(t);
            assert(hy.contains(t));
        } else if inp.kind(n, k) == EdgeKind::Dev {
            if !(hx.contains(c) && !deploys(inp.table, c)) {
                let t = choose|t: nat| hx.contains(t) && #[trigger] deploys(inp.table, t);
                assert(hy.contains(t));
            }
        }
    }
}

/// A node that satisfies more asks its dependencies for no more.
pub proof fn lemma_demand_antitone(
    inp: Inputs,
    have: Seq<Set<nat>>,
    more: Seq<Set<nat>>,
    n: int,
    k: int,
    x: Set<nat>,
)
    requires
        have[n].subset_of(more[n]),
    ensures
        demand(inp, more, n, k, x).subset_of(demand(inp, have, n, k, x)),
{
    let hm = handed_on(inp.kind(n, k), x, more[n]);
    let hh = handed_on(inp.kind(n, k), x, have[n]);
    assert(hm.subset_of(hh));
    assert forall|c: nat| demand(inp, more, n, k, x).contains(c) implies demand(
        inp,
        have,
        n,
        k,
        x,
    ).contains(c) by {
        if overridden(inp, n, k) {
            let t = choose|t: nat| hm.contains(t);
            assert(hh.contains(t));
        } else if inp.kind(n, k) == EdgeKind::Dev {
            if !(hm.contains(c) && !deploys(inp.table, c)) {
                let t = choose|t: nat| hm.contains(t) && #[trigger] deploys(inp.table, t);
                assert(hh.contains(t));
            }
        }
    }
}

/// What the nodes are required to satisfy is closed, and lies below every
/// closed assignment.
pub proof fn lemma_required_least(inp: Inputs, have: Seq<Set<nat>>)
    requires
        inp.graph.wf(),
    ensures
        required_closed(inp, have, required_given(inp, have)),
        forall|r: Seq<Set<nat>>| #[trigger]
            required_closed(inp, have, r) ==> below(required_given(inp, have), r),
{
    let least = required_given(inp, have);
    assert forall|r: Seq<Set<nat>>| #[trigger] required_closed(inp, have, r) implies below(least, r) by {
        assert forall|n: int| 0 <= n < least.len() implies (#[trigger] least[n]).subset_of(r[n]) by {}
    }
    assert forall|n: int, k: int, c: nat|
        0 <= n < inp.nodes() && 0 <= k < inp.graph.nodes[n].deps.len() && #[trigger] demand(
            inp,
            have,
            n,
            k,
            least[n],
        ).contains(c) implies least[inp.dep(n, k)].contains(c) by {
        assert(inp.graph.nodes[n].deps[k].to < inp.graph.nodes.len());
        assert forall|r: Seq<Set<nat>>| #[trigger] required_closed(inp, have, r) implies r[inp.dep(
            n,
            k,
        )].contains(c) by {
            assert(below(least, r));
            assert(least[n].subset_of(r[n]));
            lemma_demand_monotone(inp, have, n, k, least[n], r[n]);
            assert(demand(inp, have, n, k, r[n]).contains(c));
        }
    }
}

// ---------------------------------------------------------------------------
// Monotonicity
// ---------------------------------------------------------------------------
/// Monotonicity: where the store holds more audits or wider exemptions,
/// wherever among the audits of their packages the old ones stand, every
/// node satisfies no less and is required no more, so that no node that
/// passed fails.
pub proof fn lemma_monotone(a: Inputs, b: Inputs)
    requires
        a.wf(),
        b.wf(),
        store_grows(a, b),
    ensures
        below(satisfied(a), satisfied(b)),
        below(required(b), required(a)),
        forall|n: int| 0 <= n < a.nodes() && node_passes(a, n) ==> #[trigger] node_passes(b, n),
        passes(a) ==> passes(b),
{
    lemma_satisfied_monotone(a, b);
    lemma_satisfying_more(a, b);
}

/// Where the nodes satisfy no less, under the same graph and policy, they
/// are required no more, so that no node that passed fails.
pub proof fn lemma_satisfying_more(a: Inputs, b: Inputs)
    requires
        a.wf(),
        b.wf(),
        a.table == b.table,
        a.graph == b.graph,
        a.policy == b.policy,
        below(satisfied(a), satisfied(b)),
    ensures
        below(required(b), required(a)),
        forall|n: int| 0 <= n < a.nodes() && node_passes(a, n) ==> #[trigger] node_passes(b, n),
        passes(a) ==> passes(b),
{
    let sa = satisfied(a);
    let sb = satisfied(b);
    let ra = required(a);
    let rb = required(b);
    lemma_required_least(a, sa);
    lemma_required_least(b, sb);
    assert(required_closed(b, sb, ra)) by {
        assert forall|n: int, c: nat|
            0 <= n < b.nodes() && self_required(b, n).contains(c) implies #[trigger] ra[n].contains(
            c,
        ) by {
            assert(self_required(a, n) == self_required(b, n));
        }
        assert forall|n: int, k: int, c: nat|
            0 <= n < b.nodes() && 0 <= k < b.graph.nodes[n].deps.len() && #[trigger] demand(
                b,
                sb,
                n,
                k,
                ra[n],
            ).contains(c) implies ra[b.dep(n, k)].contains(c) by {
            assert(sa[n].subset_of(sb[n]));
            lemma_demand_antitone(b, sa, sb, n, k, ra[n]);
            assert(demand(b, sa, n, k, ra[n]) == demand(a, sa, n, k, ra[n])) by {
                assert(overridden(a, n, k) == overridden(b, n, k));
                assert(a.policy_deps(n) == b.policy_deps(n));
            }
            assert(demand(a, sa, n, k, ra[n]).contains(c));
        }
    }
    assert(below(rb, ra));
    assert forall|n: int| 0 <= n < a.nodes() && node_passes(a, n) implies #[trigger] node_passes(
        b,
        n,
    ) by {
        assert(rb[n].subset_of(ra[n]));
        assert(sa[n].subset_of(sb[n]));
    }
    if passes(a) {
        assert forall|n: int| 0 <= n < b.nodes() implies #[trigger] node_passes(b, n) by {
            assert(node_passes(a, n));
        }
    }
}

/// Adding an audit never turns a passing node into a failing one.
pub proof fn lemma_adding_an_audit(a: Inputs, b: Inputs, p: int, e: crate::model::AuditEdge, s: Set<nat>)
    requires
        a.wf(),
        b.wf(),
        0 <= p < a.store.packages.len(),
        b.table == a.table,
        b.graph == a.graph,
        b.policy == a.policy,
        b.assumed == a.assumed,
        edge_added(a.store, b.store, p, e),
        b.crit == a.crit.update(p, a.crit[p].push(s)),
    ensures
        store_grows(a, b),
        forall|n: int| 0 <= n < a.nodes() && node_passes(a, n) ==> #[trigger] node_passes(b, n),
        passes(a) ==> passes(b),
{
    assert(a.store.names() =~= b.store.names()) by {
        assert forall|q: int| 0 <= q < a.store.packages.len() implies a.store.names()[q]
            == b.store.names()[q] by {
            if q != p {
                assert(b.store.packages[q] == a.store.packages[q]);
            }
        }
    }
    assert forall|n: int| 0 <= n < a.nodes() implies match #[trigger] a.package(n) {
        Some(q) => match b.package(n) {
            Some(t) => edges_extend(a, q, b, t),
            None => false,
        },
        None => true,
    } by {
        match a.package(n) {
            Some(q) => {
                assert(is_first(a.store.names(), a.name(n), q));
                if q == p {
                    assert(b.store.packages[q].edges@ == a.store.packages[q].edges@.push(e));
                    assert(b.crit[q] == a.crit[q].push(s));
                } else {
                    assert(b.store.packages[q] == a.store.packages[q]);
                    assert(b.crit[q] == a.crit[q]);
                }
                assert(edges_in_front(a, q, b, q));
                lemma_in_front_extends(a, q, b, q);
            },
            None => {},
        }
    }
    lemma_monotone(a, b);
}

/// An audit added at any place among those of a package never turns a
/// passing node into a failing one.
pub proof fn lemma_inserting_an_audit(
    a: Inputs,
    b: Inputs,
    p: int,
    k: int,
    e: crate::model::AuditEdge,
    s: Set<nat>,
)
    requires
        a.wf(),
        b.wf(),
        0 <= p < a.store.packages.len(),
        0 <= k <= a.store.packages[p].edges.len(),
        b.table == a.table,
        b.graph == a.graph,
        b.policy == a.policy,
        b.assumed == a.assumed,
        b.store.packages.len() == a.store.packages.len(),
        forall|q: int|
            0 <= q < a.store.packages.len() && q != p ==> #[trigger] b.store.packages[q]
                == a.store.packages[q],
        b.store.packages[p].name == a.store.packages[p].name,
        b.store.packages[p].edges@ == a.store.packages[p].edges@.insert(k, e),
        b.crit == a.crit.update(p, a.crit[p].insert(k, s)),
    ensures
        store_grows(a, b),
        forall|n: int| 0 <= n < a.nodes() && node_passes(a, n) ==> #[trigger] node_passes(b, n),
        passes(a) ==> passes(b),
{
    assert(a.store.names() =~= b.store.names()) by {
        assert forall|q: int| 0 <= q < a.store.packages.len() implies a.store.names()[q]
            == b.store.names()[q] by {
            if q != p {
                assert(b.store.packages[q] == a.store.packages[q]);
            }
        }
    }
    assert forall|n: int| 0 <= n < a.nodes() implies match #[trigger] a.package(n) {
        Some(q) => match b.package(n) {
            Some(t) => edges_extend(a, q, b, t),
            None => false,
        },
        None => true,
    } by {
        match a.package(n) {
            Some(q) => {
                assert(is_first(a.store.names(), a.name(n), q));
                if q == p {
                    let ea = a.store.packages[p].edges@;
                    let eb = b.store.packages[p].edges@;
                    let m = Seq::new(ea.len(), |j: int| if j < k { j } else { j + 1 });
                    assert(a.crit[p].len() == ea.len());
                    assert(b.crit[p] == a.crit[p].insert(k, s));
                    assert forall|j: int| 0 <= j < ea.len() implies 0 <= #[trigger] m[j] < eb.len()
                        && same_audit(ea[j], eb[m[j]]) && a.crit[p][j].subset_of(b.crit[p][m[j]]) by {
                        assert(eb[m[j]] == ea[j]);
                        assert(b.crit[p][m[j]] == a.crit[p][j]);
                    }
                    assert(embeds(a, p, b, p, m));
                } else {
                    assert(b.store.packages[q] == a.store.packages[q]);
                    assert(b.crit[q] == a.crit[q]);
                    assert(edges_in_front(a, q, b, q));
                    lemma_in_front_extends(a, q, b, q);
                }
            },
            None => {},
        }
    }
    lemma_monotone(a, b);
}

/// Widening an exemption, or any other edge of the store, never turns a
/// passing node into a failing one.
pub proof fn lemma_widening_an_edge(a: Inputs, b: Inputs, p: int, j: int, s: Set<nat>)
    requires
        a.wf(),
        b.wf(),
        0 <= p < a.store.packages.len(),
        0 <= j < a.store.packages[p].edges.len(),
        b.table == a.table,
        b.graph == a.graph,
        b.policy == a.policy,
        b.store == a.store,
        b.assumed == a.assumed,
        a.crit[p][j].subset_of(s),
        b.crit == a.crit.update(p, a.crit[p].update(j, s)),
    ensures
        store_grows(a, b),
        forall|n: int| 0 <= n < a.nodes() && node_passes(a, n) ==> #[trigger] node_passes(b, n),
        passes(a) ==> passes(b),
{
    assert forall|n: int| 0 <= n < a.nodes() implies match #[trigger] a.package(n) {
        Some(q) => match b.package(n) {
            Some(t) => edges_extend(a, q, b, t),
            None => false,
        },
        None => true,
    } by {
        match a.package(n) {
            Some(q) => {
                assert(is_first(a.store.names(), a.name(n), q));
                if q != p {
                    assert(b.crit[q] == a.crit[q]);
                }
                assert(edges_in_front(a, q, b, q));
                lemma_in_front_extends(a, q, b, q);
            },
            None => {},
        }
    }
    lemma_monotone(a, b);
}

// ---------------------------------------------------------------------------
// Implication
// ---------------------------------------------------------------------------
/// What the nodes satisfy is what they satisfy under it: a fixed point.
pub proof fn lemma_satisfied_fixed(inp: Inputs, n: int)
    requires
        inp.wf(),
        0 <= n < inp.nodes(),
    ensures
        satisfied(inp)[n] == node_valid(inp, n, satisfied(inp)),
{
    let s = satisfied(inp);
    lemma_satisfied_least(inp);
    lemma_store_grows_reflexive(inp);
    let t = Seq::new(inp.nodes() as nat, |m: int| node_valid(inp, m, s));
    assert(below(t, s)) by {
        assert forall|m: int| 0 <= m < t.len() implies (#[trigger] t[m]).subset_of(s[m]) by {
            assert forall|c: nat| t[m].contains(c) implies s[m].contains(c) by {
                assert(node_valid(inp, m, s).contains(c));
            }
        }
    }
    assert(valid_closed(inp, t)) by {
        assert forall|m: int, c: nat|
            0 <= m < inp.nodes() && #[trigger] node_valid(inp, m, t).contains(c) implies t[m].contains(
            c,
        ) by {
            lemma_node_valid_monotone(inp, inp, m, t, s);
        }
    }
    assert(below(s, t));
    assert(s[n].subset_of(t[n]));
    assert(t[n].subset_of(s[n]));
    assert(s[n] =~= t[n]);
}

/// Implication is sound at every node: a node that satisfies `c1` satisfies
/// every `c2` that `c1` implies.
pub proof fn lemma_node_implication_sound(inp: Inputs, n: int, c1: nat, c2: nat)
    requires
        inp.wf(),
        0 <= n < inp.nodes(),
        inp.assumed[n] == Set::<nat>::empty(),
        satisfied(inp)[n].contains(c1),
        inp.table.implies(c1, c2),
    ensures
        satisfied(inp)[n].contains(c2),
{
    let s = satisfied(inp);
    lemma_satisfied_fixed(inp, n);
    let raw = raw_valid(inp, n, s);
    assert(inp.table.closure(raw).contains(c1));
    let a = choose|a: nat| raw.contains(a) && #[trigger] inp.table.implies(a, c1);
    inp.table.lemma_implies_transitive(a, c1, c2);
    assert(inp.table.closure(raw).contains(c2));
}

// ---------------------------------------------------------------------------
// Dev and run time
// ---------------------------------------------------------------------------
/// No policy asks for `safe-to-deploy`: neither of a package itself nor of
/// a dependency by name.
pub open spec fn no_policy_asks_to_deploy(inp: Inputs) -> bool {
    forall|q: int|
        #![trigger inp.policy.entries[q]]
        0 <= q < inp.policy.entries.len() ==> {
            &&& match inp.policy.entries[q].criteria {
                Some(s) => !s@.contains(1),
                None => true,
            }
            &&& forall|r: int|
                0 <= r < inp.policy.entries[q].deps.len() ==> !(
                #[trigger] inp.policy.entries[q].deps[r]).criteria@.contains(1)
        }
}

/// A workspace root is needed at run time.
pub proof fn lemma_root_is_needed(inp: Inputs, n: int)
    requires
        inp.graph.is_root(n),
    ensures
        needed_for_runtime(inp.graph, n),
{
    let r = choose|r: int| 0 <= r < inp.graph.roots.len() && #[trigger] inp.graph.roots[r] == n;
    assert forall|s: Set<int>| #[trigger] runtime_closed(inp.graph, s) implies s.contains(n) by {
        assert(s.contains(inp.graph.roots[r] as int));
    }
}

/// No policy asks `safe-to-deploy` of a node that is not needed at run
/// time: neither of such a package itself, nor, by name, of such a
/// dependency.
pub open spec fn no_policy_asks_dev_to_deploy(inp: Inputs) -> bool {
    &&& forall|m: int|
        0 <= m < inp.nodes() && !needed_for_runtime(inp.graph, m) ==> !(#[trigger] self_required(
            inp,
            m,
        )).contains(1)
    &&& forall|m: int, k: int|
        #![trigger inp.graph.nodes[m].deps[k]]
        0 <= m < inp.nodes() && 0 <= k < inp.graph.nodes[m].deps.len() && overridden(inp, m, k)
            && !needed_for_runtime(inp.graph, inp.dep(m, k)) ==> !named_union(
            inp.policy_deps(m),
            inp.name(inp.dep(m, k)),
        ).contains(1)
}

/// Where no policy asks for `safe-to-deploy` at all, none asks it of a node
/// that is not needed at run time.
pub proof fn lemma_no_policy_asks(inp: Inputs)
    requires
        no_policy_asks_to_deploy(inp),
    ensures
        no_policy_asks_dev_to_deploy(inp),
{
    assert forall|m: int| 0 <= m < inp.nodes() && !needed_for_runtime(inp.graph, m) implies !(
    #[trigger] self_required(inp, m)).contains(1) by {
        if inp.graph.is_root(m) {
            lemma_root_is_needed(inp, m);
        }
        match inp.policy_entry(m) {
            Some(q) => {
                assert(is_first(inp.policy.names(), inp.name(m), q));
                assert(match inp.policy.entries[q].criteria {
                    Some(s) => !s@.contains(1),
                    None => true,
                });
            },
            None => {},
        }
    }
    assert forall|m: int, k: int|
        #![trigger inp.graph.nodes[m].deps[k]]
        0 <= m < inp.nodes() && 0 <= k < inp.graph.nodes[m].deps.len() && overridden(inp, m, k)
            && !needed_for_runtime(inp.graph, inp.dep(m, k)) implies !named_union(
        inp.policy_deps(m),
        inp.name(inp.dep(m, k)),
    ).contains(1) by {
        let d = inp.dep(m, k);
        if named_union(inp.policy_deps(m), inp.name(d)).contains(1) {
            let q = inp.policy_entry(m).unwrap();
            assert(is_first(inp.policy.names(), inp.name(m), q));
            let w = choose|w: int|
                0 <= w < inp.policy_deps(m).len() && (#[trigger] inp.policy_deps(m)[w]).name@
                    == inp.name(d) && inp.policy_deps(m)[w].criteria@.contains(1);
            assert(!inp.policy.entries[q].deps[w].criteria@.contains(1));
        }
    }
}

/// The split between development and run time: a node that is not needed at
/// run time is never required to satisfy `safe-to-deploy`, unless a policy
/// asks it of a node that is not needed at run time. (What is asked of
/// such a node, the node asks of its own dependencies in turn.)
pub proof fn lemma_dev_only_never_deploys(inp: Inputs, n: int)
    requires
        inp.wf(),
        0 <= n < inp.nodes(),
        !needed_for_runtime(inp.graph, n),
        no_policy_asks_dev_to_deploy(inp),
    ensures
        !required(inp)[n].contains(1),
{
    let have = satisfied(inp);
    let g = inp.graph;
    let r = Seq::new(
        inp.nodes() as nat,
        |m: int| Set::new(|c: nat| needed_for_runtime(g, m) || c != 1),
    );
    inp.table.lemma_implies_reflexive(1);
    assert(required_closed(inp, have, r)) by {
        assert forall|m: int, c: nat|
            0 <= m < inp.nodes() && self_required(inp, m).contains(c) implies #[trigger] r[m].contains(
            c,
        ) by {}
        assert forall|m: int, k: int, c: nat|
            0 <= m < inp.nodes() && 0 <= k < g.nodes[m].deps.len() && #[trigger] demand(
                inp,
                have,
                m,
                k,
                r[m],
            ).contains(c) implies r[inp.dep(m, k)].contains(c) by {
            let d = inp.dep(m, k);
            assert(g.nodes[m].deps[k].to < g.nodes.len());
            if !needed_for_runtime(g, d) && c == 1 {
                if overridden(inp, m, k) {
                    assert(!named_union(inp.policy_deps(m), inp.name(d)).contains(1));
                } else if inp.kind(m, k) == EdgeKind::Dev {
                    assert(deploys(inp.table, 1));
                } else {
                    assert(r[m].contains(1));
                    assert(needed_for_runtime(g, m));
                    assert forall|s: Set<int>| #[trigger] runtime_closed(g, s) implies s.contains(d) by {
                        assert(s.contains(m));
                        assert(g.nodes[m].deps[k].kind != EdgeKind::Dev);
                    }
                }
            }
        }
    }
    assert(r[n].contains(1) == false);
}

/// A workspace root for which neither its policy nor the project sets
/// criteria is required to satisfy `safe-to-deploy`.
pub proof fn lemma_root_deploys(inp: Inputs, n: int)
    requires
        inp.wf(),
        0 <= n < inp.nodes(),
        inp.graph.is_root(n),
        inp.graph.nodes[n].first_party,
        inp.policy.default_criteria is None,
        match inp.policy_entry(n) {
            Some(q) => inp.policy.entries[q].criteria is None,
            None => true,
        },
    ensures
        required(inp)[n].contains(1),
{
    lemma_root_is_needed(inp, n);
    lemma_required_least(inp, satisfied(inp));
    assert(self_required(inp, n).contains(1));
}

// ---------------------------------------------------------------------------
// Determinism
// ---------------------------------------------------------------------------
proof fn lemma_same_failures(inp: Inputs, x: Seq<Failure>, y: Seq<Failure>, i: int)
    requires
        failures_fit(inp, x),
        failures_fit(inp, y),
        0 <= i <= x.len(),
        i <= y.len(),
        forall|j: int| 0 <= j < i ==> x[j].node == y[j].node,
    ensures
        x.len() == y.len(),
        forall|j: int| 0 <= j < x.len() ==> x[j].node == y[j].node,
    decreases x.len() + y.len() - 2 * i,
{
    if i < x.len() {
        let n = x[i].node as int;
        assert(failure_fits(inp, x[i]));
        let k = choose|k: int| 0 <= k < y.len() && y[k].node == n;
        if k < i {
            assert(x[k].node == y[k].node);
        }
        if k > i {
            let m = y[i].node as int;
            assert(failure_fits(inp, y[i]));
            let h = choose|h: int| 0 <= h < x.len() && x[h].node == m;
            if h < i {
                assert(x[h].node == y[h].node);
            }
            if h > i {
            }
        }
        assert(k == i);
        lemma_same_failures(inp, x, y, i + 1);
    } else if i < y.len() {
        let m = y[i].node as int;
        assert(failure_fits(inp, y[i]));
        let h = choose|h: int| 0 <= h < x.len() && x[h].node == m;
        assert(x[h].node == y[h].node);
    }
}

/// Determinism: the inputs determine the report. Two reports of one
/// resolution agree in what every node satisfies and is required to
/// satisfy, in every context and in every failure.
pub proof fn lemma_report_determined(inp: Inputs, x: Report, y: Report)
    requires
        report_fits(inp, x),
        report_fits(inp, y),
    ensures
        x.satisfied@ == y.satisfied@,
        x.required@ == y.required@,
        x.contexts@ == y.contexts@,
        x.failures@ == y.failures@,
{
    assert(x.satisfied@ =~= y.satisfied@) by {
        assert(x.satisfied.len() == satisfied(inp).len());
        assert(y.satisfied.len() == satisfied(inp).len());
        assert forall|n: int| 0 <= n < x.satisfied.len() implies x.satisfied[n] == y.satisfied[n] by {
            assert(crate::universe::sets_of(x.satisfied@)[n] == x.satisfied[n]@);
            assert(crate::universe::sets_of(y.satisfied@)[n] == y.satisfied[n]@);
            lemma_set_ext(x.satisfied[n], y.satisfied[n]);
        }
    }
    assert(x.required@ =~= y.required@) by {
        assert(x.required.len() == required(inp).len());
        assert(y.required.len() == required(inp).len());
        assert forall|n: int| 0 <= n < x.required.len() implies x.required[n] == y.required[n] by {
            assert(crate::universe::sets_of(x.required@)[n] == x.required[n]@);
            assert(crate::universe::sets_of(y.required@)[n] == y.required[n]@);
            lemma_set_ext(x.required[n], y.required[n]);
        }
    }
    assert(x.contexts@ =~= y.contexts@);
    lemma_same_failures(inp, x.failures@, y.failures@, 0);
    assert(x.failures@ =~= y.failures@) by {
        assert forall|i: int| 0 <= i < x.failures.len() implies x.failures[i] == y.failures[i] by {
            let f = x.failures[i];
            let g = y.failures[i];
            assert(failure_fits(inp, f));
            assert(failure_fits(inp, g));
            lemma_set_ext(f.missing, g.missing);
            assert(error_fits(inp, f.node as int, f.error));
            assert(error_fits(inp, g.node as int, g.error));
            match (f.error, g.error) {
                (NodeError::MissingAudit(a), NodeError::MissingAudit(b)) => {
                    lemma_set_ext(a, b);
                },
                _ => {},
            }
        }
    }
}

/// Where the graph holds its nodes in the order of listing, by name and
/// then by version, the report tells of the failures in that order.
pub proof fn lemma_failures_in_order(inp: Inputs, r: Report)
    requires
        report_fits(inp, r),
        inp.graph.in_order(),
    ensures
        forall|i: int, j: int|
            0 <= i < j < r.failures.len() ==> !inp.graph.node_before(
                (#[trigger] r.failures[j]).node as int,
                (#[trigger] r.failures[i]).node as int,
            ),
{
    assert forall|i: int, j: int| 0 <= i < j < r.failures.len() implies !inp.graph.node_before(
        (#[trigger] r.failures[j]).node as int,
        (#[trigger] r.failures[i]).node as int,
    ) by {
        assert(failure_fits(inp, r.failures[i]));
        assert(failure_fits(inp, r.failures[j]));
        assert(r.failures[i].node < r.failures[j].node);
    }
}

// ---------------------------------------------------------------------------
// Suggestions
// ---------------------------------------------------------------------------
/// Edge `j` of package `q` is the audit that the candidate suggests, made
/// without conditions on the dependencies.
pub open spec fn is_made(b: Inputs, q: int, j: int, c: Candidate) -> bool {
    let e = b.store.packages[q].edges[j];
    &&& start_view(e.from) == start_view(c.from)
    &&& e.to@ == c.to@
    &&& e.deps.len() == 0
    &&& c.criteria@.subset_of(b.crit[q][j])
}

/// `b` is `a` with the suggested audit made: it has everything that `a`
/// has, and among the audits of the candidate's node the one suggested.
pub open spec fn audit_made(a: Inputs, b: Inputs, c: Candidate) -> bool {
    &&& store_grows(a, b)
    &&& match b.package(c.node as int) {
        Some(q) => exists|j: int|
            0 <= j < b.store.packages[q].edges.len() && #[trigger] is_made(b, q, j, c),
        None => false,
    }
}

/// The inputs with node `n` assumed repaired: all that is required of the
/// node is taken for granted at it.
pub open spec fn granted(a: Inputs, n: int) -> Inputs {
    Inputs { assumed: a.assumed.update(n, a.assumed[n].union(required(a)[n])), ..a }
}

/// Node `n` lacks an audit and nothing else: all that the node is required
/// and does not satisfy is wanted of an audit for it; what is wanted are
/// criteria of the universe; and the dependencies of the node, other than
/// those for development, satisfy what is wanted.
pub open spec fn lacks_an_audit(a: Inputs, n: int) -> bool {
    &&& required(a)[n].subset_of(satisfied(a)[n].union(wanted(a, n)))
    &&& wanted(a, n).subset_of(a.table.all())
    &&& forall|k: int|
        #![trigger a.graph.nodes[n].deps[k]]
        0 <= k < a.graph.nodes[n].deps.len() && a.kind(n, k) != EdgeKind::Dev ==> wanted(
            a,
            n,
        ).subset_of(satisfied(a)[a.dep(n, k)])
}

/// The audits of node `n` lead to version `v` for all that is wanted of
/// the node, with the dependencies of the node as they are.
pub open spec fn leads_there(a: Inputs, n: int, v: VersionView) -> bool {
    match a.package(n) {
        Some(p) => wanted(a, n).subset_of(
            audited(a.store.packages[p].edges@, edge_masks(a, p, n, satisfied(a)), v),
        ),
        None => false,
    }
}

/// A suggested audit does what a repair is assumed to do: where the
/// candidate's node lacks an audit and nothing else, then, once the audit
/// is made, the node passes, and every node satisfies no less than with the
/// node assumed repaired. So the resolution passes if it passes with the
/// node assumed repaired.
pub proof fn lemma_suggested_audit_repairs(a: Inputs, b: Inputs, c: Candidate)
    requires
        a.wf(),
        b.wf(),
        candidate_fits(a, c),
        lacks_an_audit(a, c.node as int),
        audit_made(a, b, c),
    ensures
        node_passes(b, c.node as int),
        below(satisfied(granted(a, c.node as int)), satisfied(b)),
        forall|m: int|
            0 <= m < a.nodes() && node_passes(granted(a, c.node as int), m) ==> #[trigger] node_passes(
                b,
                m,
            ),
        passes(granted(a, c.node as int)) ==> passes(b),
{
    let n = c.node as int;
    let sa = satisfied(a);
    let sb = satisfied(b);
    let ra = required(a);
    let rb = required(b);
    lemma_monotone(a, b);
    lemma_satisfied_fixed(b, n);
    assert(a.needs_audits(n)) by {
        if !a.needs_audits(n) {
            assert(own_valid(a, n) == a.table.all());
            assert(wanted(a, n) =~= Set::<nat>::empty());
        }
    }
    assert(a.policy_entry(n) == b.policy_entry(n));
    assert(b.needs_audits(n));
    let q = b.package(n)->0;
    let j = choose|j: int| 0 <= j < b.store.packages[q].edges.len() && #[trigger] is_made(b, q, j, c);
    let edges = b.store.packages[q].edges@;
    let masks = edge_masks(b, q, n, sb);
    assert forall|t: nat| ra[n].contains(t) implies sb[n].contains(t) by {
        if sa[n].contains(t) {
            assert(sa[n].subset_of(sb[n]));
        } else {
            assert(wanted(a, n).contains(t));
            assert(t < a.table.count());
            assert(b.crit[q][j].contains(t));
            assert(deps_allow(b, n, edges[j].deps@, sb, t)) by {
                assert forall|k: int|
                    #![trigger b.graph.nodes[n].deps[k]]
                    0 <= k < b.graph.nodes[n].deps.len() && b.kind(n, k)
                        != EdgeKind::Dev implies crate::semantics::dep_allows(
                    edges[j].deps@,
                    b.name(b.dep(n, k)),
                    sb[b.dep(n, k)],
                    t,
                ) by {
                    let d = a.dep(n, k);
                    assert(!names_dep(edges[j].deps@, b.name(d)));
                    assert(a.graph.nodes[n].deps[k].to < a.graph.nodes.len());
                    assert(wanted(a, n).subset_of(sa[d]));
                    assert(sa[d].subset_of(sb[d]));
                }
            }
            assert(masks[j].contains(t));
            match c.from {
                Some(v) => {
                    assert(crate::suggest::reaches_version(a, n, v@));
                    assert(leads_there(a, n, v@));
                    let p = a.package(n)->0;
                    let ea = a.store.packages[p].edges@;
                    let ma = edge_masks(a, p, n, sa);
                    assert(is_first(a.store.names(), a.name(n), p));
                    assert(edges_extend(a, p, b, q));
                    let m = choose|m: Seq<int>| embeds(a, p, b, q, m);
                    assert(audited(ea, ma, v@).contains(t));
                    let i = choose|i: int|
                        0 <= i < ea.len() && ea[i].to@ == v@ && #[trigger] audit_reach(ea, ma, i).contains(
                            t,
                        );
                    lemma_reach_monotone(a, p, b, q, n, sa, sb, m, i);
                    assert(same_audit(ea[i], edges[m[i]]));
                    assert(audit_reach(edges, masks, m[i]).contains(t));
                    assert forall|x: Seq<Set<nat>>| #[trigger]
                        audit_closed(edges, masks, x) implies x[j].contains(t) by {
                        assert(x[m[i]].contains(t));
                        assert(audit_connects(edges, m[i], j));
                    }
                },
                None => {
                    assert forall|x: Seq<Set<nat>>| #[trigger]
                        audit_closed(edges, masks, x) implies x[j].contains(t) by {}
                },
            }
            assert(audit_reach(edges, masks, j).contains(t));
            assert(audited(edges, masks, b.graph.nodes[n].version@).contains(t));
            assert(raw_valid(b, n, sb).contains(t));
            b.table.lemma_implies_reflexive(t);
            assert(b.table.closure(raw_valid(b, n, sb)).contains(t));
            assert(node_valid(b, n, sb).contains(t));
        }
    }
    assert(node_passes(b, n)) by {
        assert(rb[n].subset_of(ra[n]));
    }
    // With the audit made, the nodes satisfy all that they satisfy with
    // the node assumed repaired.
    let g = granted(a, n);
    assert(g.wf());
    assert(audits_grow(g, b)) by {
        assert forall|m: int| 0 <= m < g.nodes() implies match #[trigger] g.package(m) {
            Some(p) => match b.package(m) {
                Some(r) => edges_extend(g, p, b, r),
                None => false,
            },
            None => true,
        } by {
            assert(g.package(m) == a.package(m));
            match a.package(m) {
                Some(p) => {
                    let r = b.package(m)->0;
                    assert(edges_extend(a, p, b, r));
                    let m = choose|m: Seq<int>| embeds(a, p, b, r, m);
                    assert(embeds(g, p, b, r, m));
                },
                None => {},
            }
        }
    }
    assert(valid_closed(g, sb)) by {
        assert forall|m: int, t: nat|
            0 <= m < g.nodes() && #[trigger] node_valid(g, m, sb).contains(t) implies sb[m].contains(
            t,
        ) by {
            assert(below(sb, sb));
            lemma_raw_valid_monotone(g, b, m, sb, sb);
            lemma_satisfied_fixed(b, m);
            if g.table.closure(raw_valid(g, m, sb)).contains(t) {
                assert(node_valid(b, m, sb).contains(t));
            } else {
                assert(g.assumed[m].contains(t));
                if a.assumed[m].contains(t) {
                    assert(a.assumed[m].subset_of(b.assumed[m]));
                    assert(node_valid(b, m, sb).contains(t));
                } else {
                    assert(m == n);
                    assert(ra[n].contains(t));
                }
            }
        }
    }
    lemma_satisfied_least(g);
    assert(below(satisfied(g), sb));
    lemma_satisfying_more(g, b);
    assert forall|m: int| 0 <= m < a.nodes() && node_passes(g, m) implies #[trigger] node_passes(
        b,
        m,
    ) by {}
}

/// What is chosen among the candidates repairs: where the node of a
/// candidate that is suggested lacks an audit and nothing else, then, once
/// the audit is made, the node passes; and the resolution passes if it
/// passes with the node assumed repaired.
pub proof fn lemma_chosen_repairs(
    a: Inputs,
    b: Inputs,
    list: Seq<Candidate>,
    costs: Seq<Option<u64>>,
    i: int,
)
    requires
        a.wf(),
        b.wf(),
        candidates_fit(a, list),
        crate::recommend::suggested(list, costs, i),
        lacks_an_audit(a, list[i].node as int),
        audit_made(a, b, list[i]),
    ensures
        node_passes(b, list[i].node as int),
        passes(granted(a, list[i].node as int)) ==> passes(b),
{
    assert(candidate_fits(a, list[i]));
    lemma_suggested_audit_repairs(a, b, list[i]);
}

/// Suggestions are complete where one audit is lacking: if a node falls
/// short and lacks an audit and nothing else, and the resolution passes
/// with the node assumed repaired, then the candidates hold an audit for
/// the node that makes the resolution pass once it is made.
pub proof fn lemma_suggestion_complete(a: Inputs, list: Seq<Candidate>, n: int)
    requires
        a.wf(),
        candidates_fit(a, list),
        0 <= n < a.nodes(),
        !node_passes(a, n),
        lacks_an_audit(a, n),
        passes(granted(a, n)),
    ensures
        exists|i: int|
            0 <= i < list.len() && (#[trigger] list[i]).node == n && list[i].from is None && forall|
                b: Inputs,
            |
                b.wf() && #[trigger] audit_made(a, b, list[i]) ==> passes(b),
{
    assert(!(wanted(a, n) =~= Set::<nat>::empty())) by {
        let t = choose|t: nat| required(a)[n].contains(t) && !satisfied(a)[n].contains(t);
        assert(wanted(a, n).contains(t));
    }
    let i = choose|i: int| 0 <= i < list.len() && list[i].node == n && list[i].from is None;
    assert(candidate_fits(a, list[i]));
    assert forall|b: Inputs| b.wf() && #[trigger] audit_made(a, b, list[i]) implies passes(b) by {
        lemma_suggested_audit_repairs(a, b, list[i]);
    }
}

} // verus!
