//! Suggestions: which audits would repair a resolution that fails.

use vstd::prelude::*;
use crate::criteria::CriteriaSet;
use crate::flow::words_view;
use crate::model::{start_view, AuditOrigin, Store, Version, VersionView};
use crate::paths::audited_word;
use crate::resolver::{error_fits, failure_fits, failures_fit, report_fits, unaudited, NodeError, Report};
use crate::satisfy::{crit_view, Problem};
use crate::semantics::{audited, edge_masks, node_passes, required, satisfied, Inputs};
use crate::universe::sets_of;

verus! {

/// An audit that could be made: of the whole version `to`, or, where `from`
/// is given, of the changes from there to `to`.
#[derive(Clone, Debug, PartialEq, Eq)]
pub struct Candidate {
    /// The node that the audit is for.
    pub node: usize,
    pub from: Option<Version>,
    pub to: Version,
    /// The criteria that the audit would have to be made for.
    pub criteria: CriteriaSet,
}

/// Edge `j` of package `p` is an exemption that suggestions may assume
/// away.
pub open spec fn is_suggestable(store: Store, p: int, j: int) -> bool {
    store.packages[p].edges[j].origin == (AuditOrigin::Exemption { suggest: true })
}

/// The criteria of the edges with those of the suggestable exemptions taken
/// away.
pub fn strip_suggestable(store: &Store, crit: &Vec<Vec<CriteriaSet>>) -> (r: Vec<Vec<CriteriaSet>>)
    requires
        crit.len() == store.packages.len(),
        forall|p: int|
            0 <= p < crit.len() ==> (#[trigger] crit[p]).len() == store.packages[p].edges.len(),
    ensures
        r.len() == crit.len(),
        forall|p: int| 0 <= p < r.len() ==> (#[trigger] r[p]).len() == crit[p].len(),
        forall|p: int, j: int|
            0 <= p < r.len() && 0 <= j < r[p].len() ==> (#[trigger] r[p][j])@ == if is_suggestable(
                *store,
                p,
                j,
            ) {
                Set::<nat>::empty()
            } else {
                crit[p][j]@
            },
{
    let mut r: Vec<Vec<CriteriaSet>> = Vec::new();
    let mut p: usize = 0;
    while p < crit.len()
        invariant
            p <= crit.len(),
            crit.len() == store.packages.len(),
            forall|q: int|
                0 <= q < crit.len() ==> (#[trigger] crit[q]).len() == store.packages[q].edges.len(),
            r.len() == p,
            forall|q: int| 0 <= q < p ==> (#[trigger] r[q]).len() == crit[q].len(),
            forall|q: int, j: int|
                0 <= q < p && 0 <= j < r[q].len() ==> (#[trigger] r[q][j])@ == if is_suggestable(
                    *store,
                    q,
                    j,
                ) {
                    Set::<nat>::empty()
                } else {
                    crit[q][j]@
                },
        decreases crit.len() - p,
    {
        let edges = &store.packages[p].edges;
        let source = &crit[p];
        let mut row: Vec<CriteriaSet> = Vec::new();
        let mut j: usize = 0;
        while j < source.len()
            invariant
                j <= source.len(),
                p < crit.len(),
                *edges == store.packages[p as int].edges,
                *source == crit[p as int],
                source.len() == edges.len(),
                row.len() == j,
                forall|i: int|
                    0 <= i < j ==> (#[trigger] row[i])@ == if is_suggestable(*store, p as int, i) {
                        Set::<nat>::empty()
                    } else {
                        source[i]@
                    },
            decreases source.len() - j,
        {
            let strip = match edges[j].origin {
                AuditOrigin::Exemption { suggest } => suggest,
                _ => false,
            };
            if strip {
                row.push(CriteriaSet::empty());
            } else {
                row.push(source[j]);
            }
            j += 1;
        }
        r.push(row);
        p += 1;
    }
    r
}

/// What an audit for node `n` would have to speak of: the required
/// criteria that the node's own audits do not give it.
pub open spec fn wanted(inp: Inputs, n: int) -> Set<nat> {
    unaudited(inp, n)
}

/// The audits of the package of node `n` lead to version `v` for all that
/// is wanted of the node, with the dependencies of the node as they are.
pub open spec fn reaches_version(inp: Inputs, n: int, v: VersionView) -> bool {
    match inp.package(n) {
        Some(p) => wanted(inp, n).subset_of(
            audited(inp.store.packages[p].edges@, edge_masks(inp, p, n, satisfied(inp)), v),
        ) && exists|j: int|
            0 <= j < inp.store.packages[p].edges.len() && (#[trigger] inp.store.packages[p].edges[j]).to@
                == v,
        None => false,
    }
}

/// The candidate is an audit that node `c.node` lacks: the node falls
/// short by its own audits, the audit leads to the node's version and
/// speaks of what is wanted, and it starts from nothing or from a version
/// that the audits lead to.
pub open spec fn candidate_fits(inp: Inputs, c: Candidate) -> bool {
    &&& c.node < inp.nodes()
    &&& !node_passes(inp, c.node as int)
    &&& !(wanted(inp, c.node as int) =~= Set::<nat>::empty())
    &&& c.to == inp.graph.nodes[c.node as int].version
    &&& c.criteria@ == wanted(inp, c.node as int)
    &&& match c.from {
        Some(v) => v@ != c.to@ && reaches_version(inp, c.node as int, v@),
        None => true,
    }
}

/// The candidates are the audits that would repair the nodes that fall
/// short by their own audits: for each such node a full audit and a delta
/// audit from every version that its audits lead to; for no other node
/// anything; and none of them twice. They are grouped by node, in the order
/// of the graph.
pub open spec fn candidates_fit(inp: Inputs, list: Seq<Candidate>) -> bool {
    &&& forall|i: int| 0 <= i < list.len() ==> candidate_fits(inp, #[trigger] list[i])
    &&& forall|i: int, j: int| 0 <= i < j < list.len() ==> list[i].node <= list[j].node
    &&& forall|i: int, j: int|
        0 <= i < j < list.len() ==> list[i].node != list[j].node || start_view(list[i].from) != start_view(list[j].from)
    &&& forall|n: int|
        0 <= n < inp.nodes() && !#[trigger] node_passes(inp, n) && !(wanted(inp, n)
            =~= Set::<nat>::empty()) ==> exists|i: int|
            0 <= i < list.len() && list[i].node == n && list[i].from is None
    &&& forall|n: int, v: VersionView|
        0 <= n < inp.nodes() && !node_passes(inp, n) && !(wanted(inp, n) =~= Set::<nat>::empty())
            && v != inp.graph.nodes[n].version@ && #[trigger] reaches_version(inp, n, v) ==> exists|
            i: int,
        | 0 <= i < list.len() && list[i].node == n && start_view(list[i].from) == Some(v)
}

impl<'a> Problem<'a> {
    /// Whether the audits of package `p` lead to version `v` for all of
    /// `want`, for node `n` and where the nodes satisfy `have`.
    fn leads_to(
        &self,
        crit: &Vec<Vec<CriteriaSet>>,
        assumed: &Vec<CriteriaSet>,
        p: usize,
        n: usize,
        have: &Vec<u64>,
        v: &Version,
        want: CriteriaSet,
    ) -> (r: bool)
        requires
            self.inputs(crit@, assumed@).wf(),
            p < self.store.packages.len(),
            n < self.graph.nodes.len(),
            have.len() == self.graph.nodes.len(),
        ensures
            r == want@.subset_of(
                audited(
                    self.store.packages[p as int].edges@,
                    edge_masks(self.inputs(crit@, assumed@), p as int, n as int, words_view(have@)),
                    v@,
                ),
            ),
    {
        let edges = &self.store.packages[p].edges;
        let masks = self.edge_mask_words(crit, assumed, p, n, have);
        let w = audited_word(edges, &masks, v);
        want.is_subset(&CriteriaSet { bits: w })
    }

    /// The audits that would repair the nodes of the report that fall short
    /// by their own audits.
    pub fn candidates(&self, crit: &Vec<Vec<CriteriaSet>>, assumed: &Vec<CriteriaSet>, report: &Report) -> (r:
        Vec<Candidate>)
        requires
            self.inputs(crit@, assumed@).wf(),
            report_fits(self.inputs(crit@, assumed@), *report),
        ensures
            candidates_fit(self.inputs(crit@, assumed@), r@),
    {
        let ghost inp = self.inputs(crit@, assumed@);
        let mut have: Vec<u64> = Vec::new();
        let mut h: usize = 0;
        while h < report.satisfied.len()
            invariant
                h <= report.satisfied.len(),
                have.len() == h,
                forall|i: int| 0 <= i < h ==> #[trigger] have[i] == report.satisfied[i].bits,
            decreases report.satisfied.len() - h,
        {
            have.push(report.satisfied[h].bits);
            h += 1;
        }
        proof {
            assert(sets_of(report.satisfied@) == satisfied(inp));
            assert(words_view(have@) =~= satisfied(inp)) by {
                assert forall|i: int| 0 <= i < have.len() implies words_view(have@)[i] == satisfied(
                    inp,
                )[i] by {
                    assert(sets_of(report.satisfied@)[i] == report.satisfied[i]@);
                }
            }
            assert(have.len() == inp.nodes());
        }
        let mut out: Vec<Candidate> = Vec::new();
        let mut f: usize = 0;
        while f < report.failures.len()
            invariant
                f <= report.failures.len(),
                have.len() == self.graph.nodes.len(),
                words_view(have@) == satisfied(inp),
                inp == self.inputs(crit@, assumed@),
                inp.wf(),
                report_fits(inp, *report),
                forall|i: int| 0 <= i < out.len() ==> candidate_fits(inp, #[trigger] out[i]),
                forall|i: int, j: int| 0 <= i < j < out.len() ==> out[i].node <= out[j].node,
                forall|i: int, j: int|
                    0 <= i < j < out.len() ==> out[i].node != out[j].node || start_view(out[i].from) != start_view(out[j].from),
                forall|i: int|
                    0 <= i < out.len() && f < report.failures.len() ==> (#[trigger] out[i]).node
                        < report.failures[f as int].node,
                forall|g: int|
                    0 <= g < f && !(wanted(inp, (#[trigger] report.failures[g]).node as int)
                        =~= Set::<nat>::empty()) ==> exists|i: int|
                        0 <= i < out.len() && out[i].node == report.failures[g].node && out[i].from is None,
                forall|g: int, v: VersionView|
                    0 <= g < f && !(wanted(inp, report.failures[g].node as int) =~= Set::<nat>::empty())
                        && v != inp.graph.nodes[report.failures[g].node as int].version@
                        && #[trigger] reaches_version(inp, report.failures[g].node as int, v)
                        ==> exists|i: int|
                        0 <= i < out.len() && out[i].node == report.failures[g].node && start_view(out[i].from)
                            == Some(v),
            decreases report.failures.len() - f,
        {
            let failure = report.failures[f];
            let n = failure.node;
            assert(failure_fits(inp, failure));
            assert(error_fits(inp, n as int, failure.error));
            let at_fault = match failure.error {
                NodeError::PolicyUnsatisfied => false,
                _ => true,
            };
            let ghost before = out@;
            if at_fault {
                let own = self.own_valid_set(crit, assumed, n);
                assert(sets_of(report.required@).len() == report.required.len());
                assert(required(inp).len() == inp.nodes());
                assert(sets_of(report.required@)[n as int] == report.required[n as int]@);
                let want = report.required[n].difference(&own);
                assert(want@ =~= wanted(inp, n as int));
                let target = self.graph.nodes[n].version.copy();
                let full = Candidate { node: n, from: None, to: target.copy(), criteria: want };
                out.push(full);
                let ghost first = out@;
                assert(first == before.push(full));
                match self.store.find(&self.graph.nodes[n].name) {
                    Some(p) => {
                        let edges = &self.store.packages[p].edges;
                        let ghost start = out@;
                        assert(start == first);
                        let mut j: usize = 0;
                        while j < edges.len()
                            invariant
                                j <= edges.len(),
                                inp == self.inputs(crit@, assumed@),
                                inp.wf(),
                                n < self.graph.nodes.len(),
                                have.len() == self.graph.nodes.len(),
                                words_view(have@) == satisfied(inp),
                                !node_passes(inp, n as int),
                                inp.package(n as int) == Some(p as int),
                                p < self.store.packages.len(),
                                *edges == self.store.packages[p as int].edges,
                                target == inp.graph.nodes[n as int].version,
                                want@ == wanted(inp, n as int),
                                !(wanted(inp, n as int) =~= Set::<nat>::empty()),
                                start.len() <= out.len(),
                                start == first,
                                forall|i: int| 0 <= i < start.len() ==> out[i] == start[i],
                                forall|i: int|
                                    start.len() <= i < out.len() ==> candidate_fits(
                                        inp,
                                        #[trigger] out[i],
                                    ) && out[i].node == n,
                                forall|i: int|
                                    #![trigger out[i]]
                                    start.len() <= i < out.len() ==> exists|a: int|
                                        0 <= a < j && start_view(out[i].from) == Some((#[trigger] edges[a]).to@),
                                forall|i: int, k: int|
                                    start.len() <= i < k < out.len() ==> start_view(out[i].from) != start_view(out[k].from),
                                forall|i: int, v: VersionView|
                                    0 <= i < j && (#[trigger] edges[i]).to@ == v && v != target@
                                        && #[trigger] reaches_version(inp, n as int, v) ==> exists|
                                        k: int,
                                    | 0 <= k < out.len() && out[k].node == n && start_view(out[k].from) == Some(v),
                            decreases edges.len() - j,
                        {
                            let v = edges[j].to.copy();
                            let mut seen = false;
                            let mut i: usize = 0;
                            while i < j
                                invariant
                                    i <= j,
                                    j < edges.len(),
                                    seen == exists|a: int| 0 <= a < i && (#[trigger] edges[a]).to@ == v@,
                                decreases j - i,
                            {
                                if edges[i].to.same(&v) {
                                    seen = true;
                                }
                                i += 1;
                            }
                            if !seen && !v.same(&target) && self.leads_to(crit, assumed, p, n, &have, &v, want) {
                                let cand = Candidate { node: n, from: Some(v.copy()), to: target.copy(), criteria: want };
                                proof {
                                    assert(inp.store.packages[p as int].edges[j as int].to@ == v@);
                                    assert(reaches_version(inp, n as int, v@));
                                    assert(candidate_fits(inp, cand));
                                }
                                let ghost prior = out@;
                                out.push(cand);
                                proof {
                                    assert forall|i: int|
                                        #![trigger out[i]]
                                        start.len() <= i < out.len() implies exists|a: int|
                                        0 <= a < j + 1 && start_view(out[i].from) == Some((#[trigger] edges[a]).to@) by {
                                        if i < prior.len() {
                                            assert(out[i] == prior[i]);
                                            let a = choose|a: int|
                                                0 <= a < j && start_view(prior[i].from) == Some((#[trigger] edges[a]).to@);
                                            assert(start_view(out[i].from) == Some(edges[a].to@));
                                        } else {
                                            assert(out[i] == cand);
                                            assert(start_view(out[i].from) == Some(edges[j as int].to@));
                                        }
                                    }
                                    assert forall|i: int, k: int|
                                        start.len() <= i < k < out.len() implies start_view(out[i].from)
                                        != start_view(out[k].from) by {
                                        assert(out[i] == prior[i]);
                                        if k < prior.len() {
                                            assert(out[k] == prior[k]);
                                        } else {
                                            assert(out[k] == cand);
                                            let a = choose|a: int|
                                                0 <= a < j && start_view(prior[i].from) == Some((#[trigger] edges[a]).to@);
                                            if edges[a].to@ == v@ {
                                                assert(seen);
                                            }
                                        }
                                    }
                                    assert forall|a: int, u: VersionView|
                                        0 <= a < j + 1 && (#[trigger] edges[a]).to@ == u && u != target@
                                            && #[trigger] reaches_version(
                                            inp,
                                            n as int,
                                            u,
                                        ) implies exists|k: int|
                                        0 <= k < out.len() && out[k].node == n && start_view(out[k].from) == Some(
                                            u,
                                        ) by {
                                        if a < j {
                                            let k = choose|k: int|
                                                0 <= k < prior.len() && prior[k].node == n && start_view(prior[k].from)
                                                    == Some(u);
                                            assert(out[k] == prior[k]);
                                        } else {
                                            assert(out[out.len() - 1] == cand);
                                        }
                                    }
                                }
                            } else {
                                proof {
                                    assert forall|i: int|
                                        #![trigger out[i]]
                                        start.len() <= i < out.len() implies exists|a: int|
                                        0 <= a < j + 1 && start_view(out[i].from) == Some((#[trigger] edges[a]).to@) by {
                                        let a = choose|a: int|
                                            0 <= a < j && start_view(out[i].from) == Some((#[trigger] edges[a]).to@);
                                        assert(start_view(out[i].from) == Some(edges[a].to@));
                                    }
                                    assert forall|a: int, u: VersionView|
                                        0 <= a < j + 1 && (#[trigger] edges[a]).to@ == u && u != target@
                                            && #[trigger] reaches_version(
                                            inp,
                                            n as int,
                                            u,
                                        ) implies exists|k: int|
                                        0 <= k < out.len() && out[k].node == n && start_view(out[k].from) == Some(
                                            u,
                                        ) by {
                                        if a == j {
                                            assert(seen);
                                            let b = choose|b: int| 0 <= b < j && (#[trigger] edges[b]).to@ == v@;
                                            assert(edges[b].to@ == u);
                                        }
                                    }
                                }
                            }
                            j += 1;
                        }
                        proof {
                            assert forall|v: VersionView|
                                v != target@ && #[trigger] reaches_version(inp, n as int, v) implies exists|
                                k: int,
                            | 0 <= k < out.len() && out[k].node == n && start_view(out[k].from) == Some(v) by {
                                let i = choose|i: int|
                                    0 <= i < inp.store.packages[p as int].edges.len() && (
                                    #[trigger] inp.store.packages[p as int].edges[i]).to@ == v;
                                assert(edges[i].to@ == v);
                            }
                        }
                    },
                    None => {},
                }
                proof {
                    assert(first.len() == before.len() + 1);
                    assert(first.len() <= out.len());
                    assert forall|i: int| 0 <= i < first.len() implies out[i] == first[i] by {}
                    assert forall|i: int| first.len() <= i < out.len() implies candidate_fits(
                        inp,
                        #[trigger] out[i],
                    ) && out[i].node == n by {}
                    assert(out[before.len() as int] == first[before.len() as int]);
                    assert(out[before.len() as int] == full);
                    assert forall|i: int| 0 <= i < before.len() implies out[i] == before[i] by {
                        assert(out[i] == first[i]);
                    }
                    assert forall|i: int| 0 <= i < out.len() implies candidate_fits(inp, #[trigger] out[i]) by {
                        if i < before.len() {
                            assert(out[i] == before[i]);
                        } else if i == before.len() {
                            assert(candidate_fits(inp, full));
                        }
                    }
                    assert forall|i: int, j: int| 0 <= i < j < out.len() implies out[i].node
                        <= out[j].node by {
                        if i < before.len() {
                            assert(out[i] == before[i]);
                        }
                        if j < before.len() {
                            assert(out[j] == before[j]);
                        }
                    }
                    assert forall|i: int, j: int| 0 <= i < j < out.len() implies out[i].node
                        != out[j].node || start_view(out[i].from) != start_view(out[j].from) by {
                        if j < before.len() {
                            assert(out[i] == before[i]);
                            assert(out[j] == before[j]);
                        } else if i < before.len() {
                            assert(out[i] == before[i]);
                            assert(before[i].node < n);
                            if j > before.len() {
                                assert(out[j].node == n);
                            }
                        } else if i == before.len() {
                            assert(out[i].from is None);
                            assert(out[j].from is Some);
                        }
                    }
                }
            } else {
                assert(wanted(inp, n as int) =~= Set::<nat>::empty());
            }
            proof {
                assert forall|i: int|
                    0 <= i < out.len() && f + 1 < report.failures.len() implies (#[trigger] out[i]).node
                    < report.failures[f + 1].node by {
                    assert(failures_fit(inp, report.failures@));
                    assert(report.failures[f as int].node < report.failures[f + 1].node);
                    if i < before.len() {
                        assert(out[i] == before[i]);
                    }
                }
                assert forall|g: int|
                    0 <= g < f + 1 && !(wanted(inp, (#[trigger] report.failures[g]).node as int)
                        =~= Set::<nat>::empty()) implies exists|i: int|
                    0 <= i < out.len() && out[i].node == report.failures[g].node && out[i].from is None by {
                    if g < f {
                        let i = choose|i: int|
                            0 <= i < before.len() && before[i].node == report.failures[g].node
                                && before[i].from is None;
                        assert(out[i] == before[i]);
                    } else {
                        assert(out[before.len() as int].node == n);
                    }
                }
                assert forall|g: int, v: VersionView|
                    0 <= g < f + 1 && !(wanted(inp, report.failures[g].node as int) =~= Set::<nat>::empty())
                        && v != inp.graph.nodes[report.failures[g].node as int].version@
                        && #[trigger] reaches_version(
                        inp,
                        report.failures[g].node as int,
                        v,
                    ) implies exists|i: int|
                    0 <= i < out.len() && out[i].node == report.failures[g].node && start_view(out[i].from) == Some(
                        v,
                    ) by {
                    if g < f {
                        let i = choose|i: int|
                            0 <= i < before.len() && before[i].node == report.failures[g].node
                                && start_view(before[i].from) == Some(v);
                        assert(out[i] == before[i]);
                    }
                }
            }
            f += 1;
        }
        proof {
            assert forall|n: int|
                0 <= n < inp.nodes() && !#[trigger] node_passes(inp, n) && !(wanted(inp, n)
                    =~= Set::<nat>::empty()) implies exists|i: int|
                0 <= i < out.len() && out[i].node == n && out[i].from is None by {
                let g = choose|g: int| 0 <= g < report.failures.len() && report.failures[g].node == n;
                assert(!(wanted(inp, report.failures[g].node as int) =~= Set::<nat>::empty()));
            }
            assert forall|n: int, v: VersionView|
                0 <= n < inp.nodes() && !node_passes(inp, n) && !(wanted(inp, n) =~= Set::<nat>::empty())
                    && v != inp.graph.nodes[n].version@ && #[trigger] reaches_version(
                    inp,
                    n,
                    v,
                ) implies exists|i: int|
                0 <= i < out.len() && out[i].node == n && start_view(out[i].from) == Some(v) by {
                let g = choose|g: int| 0 <= g < report.failures.len() && report.failures[g].node == n;
                assert(!(wanted(inp, report.failures[g].node as int) =~= Set::<nat>::empty()));
            }
        }
        out
    }
}

// ---------------------------------------------------------------------------
// Guessing deeper
// ---------------------------------------------------------------------------
/// Node `n` falls short, and by its own audits.
pub open spec fn at_fault(inp: Inputs, n: int) -> bool {
    !node_passes(inp, n) && !(wanted(inp, n) =~= Set::<nat>::empty())
}

/// What is taken for granted once every node that falls short by its own
/// audits is assumed repaired: such a node is granted all that is
/// required of it.
pub open spec fn repaired(inp: Inputs) -> Seq<Set<nat>> {
    Seq::new(
        inp.nodes() as nat,
        |n: int|
            if at_fault(inp, n) {
                inp.assumed[n].union(required(inp)[n])
            } else {
                inp.assumed[n]
            },
    )
}

/// What is taken for granted in round `k` of guessing deeper: in each round
/// the nodes that fell short by their own audits in the round before are
/// assumed repaired.
pub open spec fn round_assumed(inp: Inputs, k: nat) -> Seq<Set<nat>>
    decreases k,
{
    if k == 0 {
        inp.assumed
    } else {
        repaired(Inputs { assumed: round_assumed(inp, (k - 1) as nat), ..inp })
    }
}

/// The inputs of round `k` of guessing deeper.
pub open spec fn round_inputs(inp: Inputs, k: nat) -> Inputs {
    Inputs { assumed: round_assumed(inp, k), ..inp }
}

impl<'a> Problem<'a> {
    /// What is taken for granted once every node of the report that falls
    /// short by its own audits is assumed repaired.
    pub fn assume_repaired(&self, crit: &Vec<Vec<CriteriaSet>>, assumed: &Vec<CriteriaSet>, report: &Report) -> (r:
        Vec<CriteriaSet>)
        requires
            self.inputs(crit@, assumed@).wf(),
            report_fits(self.inputs(crit@, assumed@), *report),
        ensures
            r.len() == assumed.len(),
            sets_of(r@) == repaired(self.inputs(crit@, assumed@)),
    {
        let ghost inp = self.inputs(crit@, assumed@);
        let count = assumed.len();
        let mut out: Vec<CriteriaSet> = Vec::new();
        let mut f: usize = 0;
        let mut n: usize = 0;
        assert(sets_of(report.required@).len() == report.required.len());
        assert(required(inp).len() == inp.nodes());
        while n < count
            invariant
                n <= count,
                count == assumed.len(),
                count == inp.nodes(),
                inp == self.inputs(crit@, assumed@),
                inp.wf(),
                report_fits(inp, *report),
                report.required.len() == count,
                f <= report.failures.len(),
                forall|g: int| 0 <= g < f ==> (#[trigger] report.failures[g]).node < n,
                forall|g: int| f <= g < report.failures.len() ==> (#[trigger] report.failures[g]).node >= n,
                out.len() == n,
                forall|m: int| 0 <= m < n ==> (#[trigger] out[m])@ == repaired(inp)[m],
            decreases count - n,
        {
            assert(failures_fit(inp, report.failures@));
            assert(inp.assumed[n as int] == assumed[n as int]@);
            assert(sets_of(report.required@)[n as int] == report.required[n as int]@);
            let mut grant = assumed[n];
            if f < report.failures.len() && report.failures[f].node == n {
                let failure = report.failures[f];
                assert(failure_fits(inp, failure));
                assert(error_fits(inp, n as int, failure.error));
                let faulty = match failure.error {
                    NodeError::PolicyUnsatisfied => false,
                    _ => true,
                };
                if faulty {
                    grant = grant.union(&report.required[n]);
                }
                assert(faulty == at_fault(inp, n as int));
                proof {
                    assert forall|g: int| f + 1 <= g < report.failures.len() implies (
                    #[trigger] report.failures[g]).node >= n + 1 by {
                        assert(report.failures[f as int].node < report.failures[g].node);
                    }
                }
                f += 1;
            } else {
                proof {
                    if !node_passes(inp, n as int) {
                        let g = choose|g: int|
                            0 <= g < report.failures.len() && report.failures[g].node == n;
                        if g < f {
                            assert(report.failures[g].node < n);
                        } else {
                            assert(report.failures[g].node >= n);
                            if g > f {
                                assert(report.failures[f as int].node < report.failures[g].node);
                                assert(report.failures[f as int].node >= n);
                            }
                        }
                    }
                    assert(!at_fault(inp, n as int));
                }
            }
            out.push(grant);
            n += 1;
        }
        assert(sets_of(out@) =~= repaired(inp));
        out
    }

    /// The audits that would repair the resolution, round by round. The
    /// first round is that of the resolution as it stands, without the
    /// exemptions that suggestions may assume away. Where deeper guesses are
    /// asked for, every further round assumes the audits of the round before
    /// made, and says what would still be lacking; the rounds end with the
    /// first that finds nothing, and at the latest with the round after as
    /// many rounds as the graph has nodes.
    pub fn suggest(&self, crit: &Vec<Vec<CriteriaSet>>, guess_deeper: bool) -> (r: Vec<Vec<Candidate>>)
        requires
            self.table.wf(),
            self.graph.wf(),
            crit.len() == self.store.packages.len(),
            forall|p: int|
                0 <= p < crit.len() ==> (#[trigger] crit[p]).len() == self.store.packages[p].edges.len(),
        ensures
            r.len() >= 1,
            !guess_deeper ==> r.len() == 1,
            guess_deeper ==> r[r.len() - 1].len() == 0 || r.len() == self.graph.nodes.len() + 1,
            forall|k: int| 0 <= k < r.len() - 1 ==> (#[trigger] r[k]).len() > 0,
            forall|k: int|
                0 <= k < r.len() ==> candidates_fit(
                    round_inputs(self.suggest_inputs(crit@), k as nat),
                    (#[trigger] r[k])@,
                ),
    {
        let stripped = strip_suggestable(self.store, crit);
        let count = self.graph.nodes.len();
        let mut assumed = crate::resolver::nothing_assumed_row(count);
        let ghost base = self.suggest_inputs(crit@);
        proof {
            assert(self.inputs(stripped@, assumed@).crit =~= base.crit) by {
                let x = crit_view(stripped@);
                assert forall|p: int| 0 <= p < x.len() implies #[trigger] x[p] =~= base.crit[p] by {
                    assert forall|j: int| 0 <= j < x[p].len() implies #[trigger] x[p][j] == base.crit[p][j] by {
                        assert(sets_of(stripped[p]@)[j] == stripped[p][j]@);
                        assert(sets_of(crit[p]@)[j] == crit[p][j]@);
                    }
                }
            }
            assert(self.inputs(stripped@, assumed@) == base);
            assert(base.wf()) by {
                assert forall|p: int| 0 <= p < base.crit.len() implies (#[trigger] base.crit[p]).len()
                    == base.store.packages[p].edges.len() by {
                    assert(crit_view(stripped@)[p].len() == stripped[p].len());
                }
            }
        }
        let mut out: Vec<Vec<Candidate>> = Vec::new();
        let mut round: usize = 0;
        loop
            invariant_except_break
                round == out.len(),
                round <= count,
                count == self.graph.nodes.len(),
                base == self.suggest_inputs(crit@),
                assumed.len() == count,
                self.inputs(stripped@, assumed@) == round_inputs(base, round as nat),
                self.inputs(stripped@, assumed@).wf(),
                !guess_deeper ==> round == 0,
                forall|k: int| 0 <= k < out.len() ==> (#[trigger] out[k]).len() > 0,
                forall|k: int|
                    0 <= k < out.len() ==> candidates_fit(round_inputs(base, k as nat), (#[trigger] out[k])@),
            ensures
                out.len() >= 1,
                !guess_deeper ==> out.len() == 1,
                guess_deeper ==> out[out.len() - 1].len() == 0 || out.len() == count + 1,
                forall|k: int| 0 <= k < out.len() - 1 ==> (#[trigger] out[k]).len() > 0,
                forall|k: int|
                    0 <= k < out.len() ==> candidates_fit(round_inputs(base, k as nat), (#[trigger] out[k])@),
            decreases count - round,
        {
            let report = self.resolve_with(&stripped, &assumed);
            let found = self.candidates(&stripped, &assumed, &report);
            let last = found.len() == 0 || !guess_deeper || round >= count;
            let next = if last {
                Vec::new()
            } else {
                self.assume_repaired(&stripped, &assumed, &report)
            };
            let ghost here = self.inputs(stripped@, assumed@);
            let ghost before = out@;
            out.push(found);
            proof {
                assert forall|k: int| 0 <= k < out.len() implies candidates_fit(
                    round_inputs(base, k as nat),
                    (#[trigger] out[k])@,
                ) by {
                    if k < before.len() {
                        assert(out[k] == before[k]);
                    }
                }
            }
            if last {
                proof {
                    assert forall|k: int| 0 <= k < out.len() - 1 implies (#[trigger] out[k]).len() > 0 by {
                        assert(out[k] == before[k]);
                    }
                }
                break ;
            }
            proof {
                assert forall|k: int| 0 <= k < out.len() implies (#[trigger] out[k]).len() > 0 by {
                    if k < before.len() {
                        assert(out[k] == before[k]);
                    }
                }
                let after = self.inputs(stripped@, next@);
                assert(round_assumed(base, (round + 1) as nat) == repaired(
                    Inputs { assumed: round_assumed(base, round as nat), ..base },
                ));
                assert(Inputs { assumed: round_assumed(base, round as nat), ..base } == here);
                assert(after == round_inputs(base, (round + 1) as nat));
            }
            assumed = next;
            round += 1;
        }
        out
    }

    /// The inputs of suggestions: those of the resolution as it stands,
    /// without the exemptions that suggestions may assume away, and with
    /// nothing taken for granted.
    pub open spec fn suggest_inputs(&self, crit: Seq<Vec<CriteriaSet>>) -> Inputs {
        Inputs {
            table: *self.table,
            graph: *self.graph,
            store: *self.store,
            policy: *self.policy,
            crit: Seq::new(
                crit.len(),
                |p: int|
                    Seq::new(
                        crit[p].len() as nat,
                        |j: int|
                            if is_suggestable(*self.store, p, j) {
                                Set::<nat>::empty()
                            } else {
                                crit[p][j]@
                            },
                    ),
            ),
            assumed: crate::semantics::nothing_assumed(self.graph.nodes.len() as nat),
        }
    }
}

} // verus!
