//! The resolution: what every node satisfies, what it is required to
//! satisfy, and which nodes fall short.

use vstd::prelude::*;
use crate::bits::{bits_view, has_bit, lemma_bits_and, lemma_bits_not, lemma_bits_or, lemma_bits_zero};
use crate::context::{dependency_contexts, DependencyContext};
use crate::criteria::CriteriaSet;
use crate::flow::words_view;
use crate::model::{DepGraph, GraphError, Policy, Store};
use crate::paths::audited_word;
use crate::satisfy::{crit_view, Problem};
use crate::semantics::{
    covered, needed_for_dev_only, needed_for_runtime, node_passes, nothing_assumed, own_masks,
    own_valid, passes, required, satisfied, store_criteria, Inputs,
};
use crate::universe::{sets_of, CriteriaTable};

verus! {

/// Why a node falls short.
#[derive(Clone, Copy, Debug, PartialEq, Eq, Structural)]
pub enum NodeError {
    /// No audit of the node's version speaks of these criteria.
    MissingAudit(CriteriaSet),
    /// Audits of the node's version speak of the criteria, but no path of
    /// audits leads to them.
    NoPathForCriteria,
    /// The node's own audits would do, but its dependencies do not meet
    /// what is asked of them.
    PolicyUnsatisfied,
}

/// A node that does not satisfy what it is required to.
#[derive(Clone, Copy, Debug, PartialEq, Eq, Structural)]
pub struct Failure {
    pub node: usize,
    /// The required criteria that the node does not satisfy.
    pub missing: CriteriaSet,
    pub error: NodeError,
}

/// The outcome of a resolution.
#[derive(Debug)]
pub struct Report {
    /// What each node satisfies.
    pub satisfied: Vec<CriteriaSet>,
    /// What each node is required to satisfy.
    pub required: Vec<CriteriaSet>,
    /// In which context each node is needed.
    pub contexts: Vec<DependencyContext>,
    /// The nodes that fall short, in the order of the graph.
    pub failures: Vec<Failure>,
}

/// The required criteria that the audits of node `n` do not give it,
/// whatever its dependencies satisfy.
pub open spec fn unaudited(inp: Inputs, n: int) -> Set<nat> {
    required(inp)[n].difference(own_valid(inp, n))
}

/// The error says why node `n` falls short.
pub open spec fn error_fits(inp: Inputs, n: int, e: NodeError) -> bool {
    match e {
        NodeError::MissingAudit(m) => m@ == unaudited(inp, n).difference(covered(inp, n)) && !(m@
            =~= Set::<nat>::empty()),
        NodeError::NoPathForCriteria => unaudited(inp, n).subset_of(covered(inp, n)) && !(unaudited(
            inp,
            n,
        ) =~= Set::<nat>::empty()),
        NodeError::PolicyUnsatisfied => unaudited(inp, n) =~= Set::<nat>::empty(),
    }
}

/// The failure tells of a node that falls short, what it misses and why.
pub open spec fn failure_fits(inp: Inputs, f: Failure) -> bool {
    &&& f.node < inp.nodes()
    &&& !node_passes(inp, f.node as int)
    &&& f.missing@ == required(inp)[f.node as int].difference(satisfied(inp)[f.node as int])
    &&& error_fits(inp, f.node as int, f.error)
}

/// The failures are exactly the nodes that fall short, each once, in the
/// order of the graph.
pub open spec fn failures_fit(inp: Inputs, failures: Seq<Failure>) -> bool {
    &&& forall|i: int| 0 <= i < failures.len() ==> failure_fits(inp, #[trigger] failures[i])
    &&& forall|i: int, j: int| 0 <= i < j < failures.len() ==> failures[i].node < failures[j].node
    &&& forall|n: int|
        0 <= n < inp.nodes() && !#[trigger] node_passes(inp, n) ==> exists|i: int|
            0 <= i < failures.len() && failures[i].node == n
}

/// The report is the outcome of the resolution of `inp`.
pub open spec fn report_fits(inp: Inputs, r: Report) -> bool {
    &&& sets_of(r.satisfied@) == satisfied(inp)
    &&& sets_of(r.required@) == required(inp)
    &&& r.contexts.len() == inp.nodes()
    &&& forall|n: int|
        0 <= n < inp.nodes() ==> (#[trigger] r.contexts[n]).needed_for_runtime == needed_for_runtime(
            inp.graph,
            n,
        ) && r.contexts[n].needed_for_dev_only == needed_for_dev_only(inp.graph, n)
    &&& failures_fit(inp, r.failures@)
}

impl Report {
    /// Whether every node satisfies what it is required to.
    pub fn passes(&self) -> (r: bool)
        ensures
            r == (self.failures.len() == 0),
    {
        self.failures.len() == 0
    }

    /// Whether any node falls short.
    pub fn has_errors(&self) -> (r: bool)
        ensures
            r == (self.failures.len() != 0),
    {
        self.failures.len() != 0
    }
}

/// A report without failures is one of a resolution that passes.
pub proof fn lemma_report_passes(inp: Inputs, r: Report)
    requires
        report_fits(inp, r),
    ensures
        (r.failures.len() == 0) == passes(inp),
{
    if r.failures.len() != 0 {
        let f = r.failures[0];
        assert(failure_fits(inp, f));
        assert(!node_passes(inp, f.node as int));
    }
    if !passes(inp) {
        let n = choose|n: int| 0 <= n < inp.nodes() && !#[trigger] node_passes(inp, n);
        let i = choose|i: int| 0 <= i < r.failures.len() && r.failures[i].node == n;
    }
}

/// The criteria that the store itself gives to each of its edges.
pub fn store_criteria_rows(store: &Store) -> (crit: Vec<Vec<CriteriaSet>>)
    ensures
        crit_view(crit@) == store_criteria(*store),
        crit.len() == store.packages.len(),
        forall|p: int|
            0 <= p < crit.len() ==> (#[trigger] crit[p]).len() == store.packages[p].edges.len(),
        forall|p: int, j: int|
            0 <= p < crit.len() && 0 <= j < crit[p].len() ==> #[trigger] crit[p][j]
                == store.packages[p].edges[j].criteria,
{
    let mut crit: Vec<Vec<CriteriaSet>> = Vec::new();
    let mut p: usize = 0;
    while p < store.packages.len()
        invariant
            p <= store.packages.len(),
            crit.len() == p,
            forall|q: int|
                0 <= q < p ==> (#[trigger] crit[q]).len() == store.packages[q].edges.len(),
            forall|q: int, j: int|
                0 <= q < p && 0 <= j < crit[q].len() ==> #[trigger] crit[q][j]
                    == store.packages[q].edges[j].criteria,
        decreases store.packages.len() - p,
    {
        let edges = &store.packages[p].edges;
        let mut row: Vec<CriteriaSet> = Vec::new();
        let mut j: usize = 0;
        while j < edges.len()
            invariant
                j <= edges.len(),
                row.len() == j,
                forall|i: int| 0 <= i < j ==> #[trigger] row[i] == edges[i].criteria,
            decreases edges.len() - j,
        {
            row.push(edges[j].criteria);
            j += 1;
        }
        crit.push(row);
        p += 1;
    }
    proof {
        let a = crit_view(crit@);
        let b = store_criteria(*store);
        assert forall|q: int| 0 <= q < a.len() implies #[trigger] a[q] =~= b[q] by {
            assert forall|j: int| 0 <= j < a[q].len() implies #[trigger] a[q][j] == b[q][j] by {
                assert(crit[q][j] == store.packages[q].edges[j].criteria);
            }
        }
        assert(a =~= b);
    }
    crit
}

/// A row of empty sets, one for each of `n` nodes.
pub fn nothing_assumed_row(n: usize) -> (r: Vec<CriteriaSet>)
    ensures
        r.len() == n,
        sets_of(r@) == nothing_assumed(n as nat),
{
    let mut r: Vec<CriteriaSet> = Vec::new();
    let mut i: usize = 0;
    while i < n
        invariant
            i <= n,
            r.len() == i,
            forall|k: int| 0 <= k < i ==> (#[trigger] r[k])@ == Set::<nat>::empty(),
        decreases n - i,
    {
        r.push(CriteriaSet::empty());
        i += 1;
    }
    assert(sets_of(r@) =~= nothing_assumed(n as nat));
    r
}

fn wrap_words(words: &Vec<u64>) -> (r: Vec<CriteriaSet>)
    ensures
        r.len() == words.len(),
        sets_of(r@) == words_view(words@),
        forall|i: int| 0 <= i < r.len() ==> (#[trigger] r[i]).bits == words[i],
{
    let mut r: Vec<CriteriaSet> = Vec::new();
    let mut i: usize = 0;
    while i < words.len()
        invariant
            i <= words.len(),
            r.len() == i,
            forall|k: int| 0 <= k < i ==> (#[trigger] r[k]).bits == words[k],
        decreases words.len() - i,
    {
        r.push(CriteriaSet { bits: words[i] });
        i += 1;
    }
    assert(sets_of(r@) =~= words_view(words@));
    r
}

impl<'a> Problem<'a> {
    /// What the audits of node `n` give it, whatever its dependencies
    /// satisfy.
    pub fn own_valid_set(&self, crit: &Vec<Vec<CriteriaSet>>, assumed: &Vec<CriteriaSet>, n: usize) -> (r:
        CriteriaSet)
        requires
            self.inputs(crit@, assumed@).wf(),
            n < self.graph.nodes.len(),
        ensures
            r@ == own_valid(self.inputs(crit@, assumed@), n as int),
    {
        let ghost inp = self.inputs(crit@, assumed@);
        let node = &self.graph.nodes[n];
        if self.needs_audits(n, Ghost(inp)) {
            match self.store.find(&node.name) {
                Some(p) => {
                    let edges = &self.store.packages[p].edges;
                    let row = &crit[p];
                    assert(inp.crit[p as int] == sets_of(row@));
                    let mut masks: Vec<u64> = Vec::new();
                    let mut j: usize = 0;
                    while j < row.len()
                        invariant
                            j <= row.len(),
                            masks.len() == j,
                            forall|i: int| 0 <= i < j ==> #[trigger] masks[i] == row[i].bits,
                        decreases row.len() - j,
                    {
                        masks.push(row[j].bits);
                        j += 1;
                    }
                    assert(words_view(masks@) =~= own_masks(inp, p as int)) by {
                        assert forall|i: int| 0 <= i < masks.len() implies words_view(masks@)[i]
                            == own_masks(inp, p as int)[i] by {
                            assert(inp.crit[p as int][i] == row[i]@);
                        }
                    }
                    let w = audited_word(edges, &masks, &node.version);
                    self.table.close(&CriteriaSet { bits: w })
                },
                None => CriteriaSet::empty(),
            }
        } else {
            let r = CriteriaSet::below(self.table.len());
            assert(r@ =~= inp.table.all());
            r
        }
    }

    /// What the edges that lead to the version of node `n` count for.
    pub fn covered_set(&self, crit: &Vec<Vec<CriteriaSet>>, assumed: &Vec<CriteriaSet>, n: usize) -> (r:
        CriteriaSet)
        requires
            self.inputs(crit@, assumed@).wf(),
            n < self.graph.nodes.len(),
        ensures
            r@ == covered(self.inputs(crit@, assumed@), n as int),
    {
        let ghost inp = self.inputs(crit@, assumed@);
        let node = &self.graph.nodes[n];
        match self.store.find(&node.name) {
            Some(p) => {
                let edges = &self.store.packages[p].edges;
                let row = &crit[p];
                assert(inp.crit[p as int] == sets_of(row@));
                let mut acc: u64 = 0;
                let mut j: usize = 0;
                proof {
                    lemma_bits_zero();
                }
                while j < edges.len()
                    invariant
                        j <= edges.len(),
                        row.len() == edges.len(),
                        inp.crit[p as int] == sets_of(row@),
                        *edges == inp.store.packages[p as int].edges,
                        node.version == inp.graph.nodes[n as int].version,
                        forall|c: nat|
                            has_bit(acc, c) == exists|i: int|
                                0 <= i < j && (#[trigger] inp.store.packages[p as int].edges[i]).to@
                                    == node.version@ && inp.crit[p as int][i].contains(c),
                    decreases edges.len() - j,
                {
                    let ghost before = acc;
                    assert(inp.crit[p as int][j as int] == row[j as int]@);
                    if edges[j].to.same(&node.version) {
                        acc = acc | row[j].bits;
                        proof {
                            lemma_bits_or(before, row[j as int].bits);
                        }
                    }
                    proof {
                        assert forall|c: nat|
                            has_bit(acc, c) == exists|i: int|
                                0 <= i < j + 1 && (#[trigger] inp.store.packages[p as int].edges[i]).to@
                                    == node.version@ && inp.crit[p as int][i].contains(c) by {
                            if has_bit(before, c) {
                                let i = choose|i: int|
                                    0 <= i < j && (#[trigger] inp.store.packages[p as int].edges[i]).to@
                                        == node.version@ && inp.crit[p as int][i].contains(c);
                                assert(0 <= i < j + 1);
                            }
                            if edges[j as int].to@ == node.version@ && has_bit(row[j as int].bits, c) {
                                assert(row[j as int]@.contains(c));
                                assert(inp.store.packages[p as int].edges[j as int].to@ == node.version@);
                            }
                            if exists|i: int|
                                0 <= i < j + 1 && (#[trigger] inp.store.packages[p as int].edges[i]).to@
                                    == node.version@ && inp.crit[p as int][i].contains(c) {
                                let i = choose|i: int|
                                    0 <= i < j + 1 && (
                                    #[trigger] inp.store.packages[p as int].edges[i]).to@ == node.version@
                                        && inp.crit[p as int][i].contains(c);
                                if i == j {
                                    assert(row[j as int]@.contains(c));
                                    assert(has_bit(row[j as int].bits, c));
                                }
                            }
                        }
                    }
                    j += 1;
                }
                let direct = CriteriaSet { bits: acc };
                assert(direct@ =~= Set::new(
                    |c: nat|
                        exists|i: int|
                            0 <= i < inp.store.packages[p as int].edges.len() && (
                            #[trigger] inp.store.packages[p as int].edges[i]).to@
                                == inp.graph.nodes[n as int].version@ && inp.crit[p as int][i].contains(
                                c,
                            ),
                ));
                self.table.close(&direct)
            },
            None => CriteriaSet::empty(),
        }
    }

    /// Resolves: what every node satisfies and is required to satisfy, where
    /// the edges of the store count for `crit` and the nodes are granted
    /// `assumed`.
    pub fn resolve_with(&self, crit: &Vec<Vec<CriteriaSet>>, assumed: &Vec<CriteriaSet>) -> (r: Report)
        requires
            self.inputs(crit@, assumed@).wf(),
        ensures
            report_fits(self.inputs(crit@, assumed@), r),
            (r.failures.len() == 0) == passes(self.inputs(crit@, assumed@)),
    {
        let ghost inp = self.inputs(crit@, assumed@);
        let count = self.graph.nodes.len();
        let have = self.compute_satisfied(crit, assumed);
        let contexts = dependency_contexts(self.graph);
        let need = self.compute_required(&have, &contexts, Ghost(inp));
        let mut failures: Vec<Failure> = Vec::new();
        let mut n: usize = 0;
        while n < count
            invariant
                n <= count,
                count == self.graph.nodes.len(),
                inp == self.inputs(crit@, assumed@),
                inp.wf(),
                have.len() == count,
                need.len() == count,
                words_view(have@) == satisfied(inp),
                words_view(need@) == required(inp),
                forall|i: int| 0 <= i < failures.len() ==> failure_fits(inp, #[trigger] failures[i]),
                forall|i: int| 0 <= i < failures.len() ==> (#[trigger] failures[i]).node < n,
                forall|i: int, j: int|
                    0 <= i < j < failures.len() ==> failures[i].node < failures[j].node,
                forall|m: int|
                    0 <= m < n && !#[trigger] node_passes(inp, m) ==> exists|i: int|
                        0 <= i < failures.len() && failures[i].node == m,
            decreases count - n,
        {
            let missing = need[n] & !have[n];
            proof {
                lemma_bits_and(need[n as int], !have[n as int]);
                lemma_bits_not(have[n as int]);
                assert(words_view(have@)[n as int] == bits_view(have[n as int]));
                assert(words_view(need@)[n as int] == bits_view(need[n as int]));
                assert(bits_view(missing) =~= required(inp)[n as int].difference(
                    satisfied(inp)[n as int],
                ));
                crate::bits::lemma_bits_nonzero(missing);
                if missing != 0 {
                    let c = choose|c: nat| has_bit(missing, c);
                    assert(bits_view(missing).contains(c));
                } else {
                    assert forall|c: nat| required(inp)[n as int].contains(c) implies satisfied(
                        inp,
                    )[n as int].contains(c) by {
                        if !satisfied(inp)[n as int].contains(c) {
                            assert(bits_view(missing).contains(c));
                            assert(has_bit(missing, c));
                        }
                    }
                }
            }
            if missing != 0 {
                let own = self.own_valid_set(crit, assumed, n);
                let lacking = need[n] & !own.bits;
                proof {
                    lemma_bits_and(need[n as int], !own.bits);
                    lemma_bits_not(own.bits);
                    assert(bits_view(lacking) =~= unaudited(inp, n as int));
                    crate::bits::lemma_bits_nonzero(lacking);
                }
                let error = if lacking == 0 {
                    proof {
                        lemma_bits_zero();
                    }
                    NodeError::PolicyUnsatisfied
                } else {
                    let direct = self.covered_set(crit, assumed, n);
                    let open = lacking & !direct.bits;
                    proof {
                        lemma_bits_and(lacking, !direct.bits);
                        lemma_bits_not(direct.bits);
                        assert(bits_view(open) =~= unaudited(inp, n as int).difference(
                            covered(inp, n as int),
                        ));
                        crate::bits::lemma_bits_nonzero(open);
                        let c = choose|c: nat| has_bit(lacking, c);
                        assert(bits_view(lacking).contains(c));
                    }
                    if open == 0 {
                        proof {
                            lemma_bits_zero();
                            assert forall|c: nat| unaudited(inp, n as int).contains(c) implies covered(
                                inp,
                                n as int,
                            ).contains(c) by {
                                if !covered(inp, n as int).contains(c) {
                                    assert(bits_view(open).contains(c));
                                }
                            }
                        }
                        NodeError::NoPathForCriteria
                    } else {
                        proof {
                            let c = choose|c: nat| has_bit(open, c);
                            assert(bits_view(open).contains(c));
                        }
                        NodeError::MissingAudit(CriteriaSet { bits: open })
                    }
                };
                let f = Failure { node: n, missing: CriteriaSet { bits: missing }, error };
                let ghost before = failures@;
                failures.push(f);
                proof {
                    assert(failure_fits(inp, f));
                    assert forall|m: int|
                        0 <= m < n + 1 && !#[trigger] node_passes(inp, m) implies exists|i: int|
                            0 <= i < failures.len() && failures[i].node == m by {
                        if m < n {
                            let i = choose|i: int| 0 <= i < before.len() && before[i].node == m;
                            assert(failures[i].node == m);
                        } else {
                            assert(failures[failures.len() - 1].node == m);
                        }
                    }
                }
            }
            n += 1;
        }
        let r = Report {
            satisfied: wrap_words(&have),
            required: wrap_words(&need),
            contexts,
            failures,
        };
        proof {
            assert(report_fits(inp, r));
            lemma_report_passes(inp, r);
        }
        r
    }
}

/// Resolves the graph against the store and the policy as they stand. The
/// report tells of the failures in the order of the graph; where the graph
/// holds its nodes in the order of listing, by name and then by version,
/// that is the order of the failures.
pub fn resolve(table: &CriteriaTable, graph: &DepGraph, store: &Store, policy: &Policy) -> (r: Result<
    Report,
    GraphError,
>)
    requires
        table.wf(),
    ensures
        match r {
            Ok(report) => {
                let inp = Inputs {
                    table: *table,
                    graph: *graph,
                    store: *store,
                    policy: *policy,
                    crit: store_criteria(*store),
                    assumed: nothing_assumed(graph.nodes.len() as nat),
                };
                &&& graph.wf()
                &&& report_fits(inp, report)
                &&& (report.failures.len() == 0) == passes(inp)
                &&& graph.in_order() ==> forall|i: int, j: int|
                    0 <= i < j < report.failures.len() ==> !graph.node_before(
                        (#[trigger] report.failures[j]).node as int,
                        (#[trigger] report.failures[i]).node as int,
                    )
            },
            Err(GraphError::UnknownDependency) => !graph.deps_known(),
            Err(GraphError::UnknownRoot) => graph.deps_known() && !graph.roots_known(),
        },
{
    match graph.check() {
        Err(e) => Err(e),
        Ok(_) => {
            let crit = store_criteria_rows(store);
            let assumed = nothing_assumed_row(graph.nodes.len());
            let pb = Problem { table, graph, store, policy };
            let report = pb.resolve_with(&crit, &assumed);
            proof {
                if graph.in_order() {
                    crate::laws::lemma_failures_in_order(pb.inputs(crit@, assumed@), report);
                }
            }
            Ok(report)
        },
    }
}

} // verus!
