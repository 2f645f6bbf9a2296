//! Computing what each node is required to satisfy.

use vstd::prelude::*;
use crate::bits::{
    bits_view, has_bit, lemma_bits_low_mask, lemma_bits_not, lemma_bits_or, lemma_bits_small,
    lemma_bits_zero, low_mask,
};
use crate::context::DependencyContext;
use crate::criteria::CriteriaSet;
use crate::flow::{
    edge_out, flow_closed, flow_least, lemma_flow_least_closed, rows_in_range, rows_view, solve,
    words_view, FlowEdge,
};
use crate::model::{DepRequirement, EdgeKind};
use crate::satisfy::Problem;
use crate::semantics::{
    default_criteria, demand, deploys, downgrade, handed_on, named_union, names_dep,
    needed_for_runtime, overridden, required_closed, required_given, self_required, Inputs,
};
use crate::universe::CriteriaTable;

verus! {

/// Every member is the number of a position in a word.
pub open spec fn small(x: Set<nat>) -> bool {
    forall|c: nat| x.contains(c) ==> c < 64
}

/// The edge `e` stands for what node `n` asks of its `k`-th dependency.
pub open spec fn edge_fits(inp: Inputs, have: Seq<Set<nat>>, n: int, k: int, e: FlowEdge) -> bool {
    &&& e.to == inp.dep(n, k)
    &&& forall|x: Set<nat>| (#[trigger] edge_out(e, x)).subset_of(demand(inp, have, n, k, x))
    &&& forall|x: Set<nat>| small(x) ==> demand(inp, have, n, k, x).subset_of(#[trigger] edge_out(e, x))
}

/// The system stands for the requirements of the resolution.
pub open spec fn system_fits(
    inp: Inputs,
    have: Seq<Set<nat>>,
    rows: Seq<Seq<FlowEdge>>,
    init: Seq<u64>,
) -> bool {
    &&& rows.len() == inp.nodes()
    &&& init.len() == inp.nodes()
    &&& forall|n: int| 0 <= n < inp.nodes() ==> bits_view(#[trigger] init[n]) == self_required(inp, n)
    &&& forall|n: int|
        0 <= n < inp.nodes() ==> (#[trigger] rows[n]).len() == inp.graph.nodes[n].deps.len()
    &&& forall|n: int, k: int|
        0 <= n < inp.nodes() && 0 <= k < rows[n].len() ==> edge_fits(
            inp,
            have,
            n,
            k,
            #[trigger] rows[n][k],
        )
}

proof fn lemma_required_system(
    inp: Inputs,
    have: Seq<Set<nat>>,
    rows: Seq<Seq<FlowEdge>>,
    init: Seq<u64>,
)
    requires
        inp.graph.wf(),
        system_fits(inp, have, rows, init),
    ensures
        flow_least(rows, init) == required_given(inp, have),
{
    let least = flow_least(rows, init);
    let wanted = required_given(inp, have);
    assert(rows_in_range(rows)) by {
        assert forall|v: int, k: int| 0 <= v < rows.len() && 0 <= k < rows[v].len() implies (
        #[trigger] rows[v][k]).to < rows.len() by {
            assert(edge_fits(inp, have, v, k, rows[v][k]));
            assert(inp.graph.nodes[v].deps[k].to < inp.graph.nodes.len());
        }
    }
    lemma_flow_least_closed(rows, init);
    // Every assignment closed for the requirements is closed for the system.
    assert forall|r: Seq<Set<nat>>| #[trigger] required_closed(inp, have, r) implies flow_closed(
        rows,
        init,
        r,
    ) by {
        assert forall|v: int, c: nat| 0 <= v < rows.len() && has_bit(init[v], c) implies #[trigger] r[v].contains(
            c,
        ) by {
            assert(bits_view(init[v]).contains(c));
        }
        assert forall|v: int, k: int, c: nat|
            0 <= v < rows.len() && 0 <= k < rows[v].len() && #[trigger] edge_out(rows[v][k], r[v]).contains(
                c,
            ) implies r[rows[v][k].to as int].contains(c) by {
            assert(edge_fits(inp, have, v, k, rows[v][k]));
            assert(edge_out(rows[v][k], r[v]).subset_of(demand(inp, have, v, k, r[v])));
            assert(demand(inp, have, v, k, r[v]).contains(c));
        }
    }
    // The least assignment of the system holds positions of a word only.
    let full = Seq::new(rows.len(), |v: int| Set::new(|c: nat| c < 64));
    assert(flow_closed(rows, init, full)) by {
        assert forall|v: int, k: int, c: nat|
            0 <= v < rows.len() && 0 <= k < rows[v].len() && #[trigger] edge_out(
                rows[v][k],
                full[v],
            ).contains(c) implies full[rows[v][k].to as int].contains(c) by {}
    }
    assert forall|v: int| 0 <= v < rows.len() implies small(#[trigger] least[v]) by {
        assert forall|c: nat| least[v].contains(c) implies c < 64 by {
            assert(full[v].contains(c));
        }
    }
    // So it is closed for the requirements.
    assert(required_closed(inp, have, least)) by {
        assert forall|n: int, c: nat|
            0 <= n < inp.nodes() && self_required(inp, n).contains(c) implies #[trigger] least[n].contains(
            c,
        ) by {
            assert(bits_view(init[n]).contains(c));
            assert(has_bit(init[n], c));
        }
        assert forall|n: int, k: int, c: nat|
            0 <= n < inp.nodes() && 0 <= k < inp.graph.nodes[n].deps.len() && #[trigger] demand(
                inp,
                have,
                n,
                k,
                least[n],
            ).contains(c) implies least[inp.dep(n, k)].contains(c) by {
            assert(rows[n].len() == inp.graph.nodes[n].deps.len());
            assert(edge_fits(inp, have, n, k, rows[n][k]));
            assert(small(least[n]));
            assert(demand(inp, have, n, k, least[n]).subset_of(edge_out(rows[n][k], least[n])));
            assert(edge_out(rows[n][k], least[n]).contains(c));
        }
    }
    assert forall|n: int| 0 <= n < rows.len() implies #[trigger] least[n] =~= wanted[n] by {
        assert forall|c: nat| least[n].contains(c) implies wanted[n].contains(c) by {
            assert forall|r: Seq<Set<nat>>| #[trigger] required_closed(inp, have, r) implies r[n].contains(
                c,
            ) by {
                assert(flow_closed(rows, init, r));
            }
        }
    }
    assert(least =~= wanted);
}

/// The word of the criteria that are `safe-to-deploy` or imply it.
pub fn deploy_word(table: &CriteriaTable) -> (w: u64)
    requires
        table.wf(),
    ensures
        forall|c: nat| #[trigger] has_bit(w, c) == deploys(*table, c),
{
    let mut acc = CriteriaSet::empty();
    let mut c: usize = 0;
    assert forall|d: nat| !has_bit(acc.bits, d) by {
        assert(acc@.contains(d) == has_bit(acc.bits, d));
    }
    while c < table.closures.len()
        invariant
            c <= table.closures.len(),
            table.wf(),
            forall|d: nat| #[trigger] has_bit(acc.bits, d) == (d < c && deploys(*table, d)),
        decreases table.closures.len() - c,
    {
        let ghost before = acc;
        if table.closures[c].contains(1) {
            acc = acc.insert(c);
        }
        proof {
            assert forall|d: nat| #[trigger] has_bit(acc.bits, d) == (d < c + 1 && deploys(*table, d)) by {
                assert(has_bit(before.bits, d) == (d < c && deploys(*table, d)));
                assert(acc@.contains(d) == has_bit(acc.bits, d));
                assert(before@.contains(d) == has_bit(before.bits, d));
            }
        }
        c += 1;
    }
    acc.bits
}

/// Everything that the requirements ask of the dependency called `name`,
/// and whether they name it at all.
pub fn named_union_word(reqs: &Vec<DepRequirement>, name: &String) -> (r: (bool, u64))
    ensures
        r.0 == names_dep(reqs@, name@),
        bits_view(r.1) == named_union(reqs@, name@),
{
    let mut named = false;
    let mut acc: u64 = 0;
    let mut i: usize = 0;
    proof {
        lemma_bits_zero();
    }
    while i < reqs.len()
        invariant
            i <= reqs.len(),
            named == exists|r: int| 0 <= r < i && (#[trigger] reqs[r]).name@ == name@,
            forall|c: nat|
                has_bit(acc, c) == exists|r: int|
                    0 <= r < i && (#[trigger] reqs[r]).name@ == name@ && reqs[r].criteria@.contains(c),
        decreases reqs.len() - i,
    {
        if reqs[i].name == *name {
            named = true;
            let ghost before = acc;
            acc = acc | reqs[i].criteria.bits;
            proof {
                lemma_bits_or(before, reqs[i as int].criteria.bits);
                assert forall|c: nat|
                    has_bit(acc, c) == exists|r: int|
                        0 <= r < i + 1 && (#[trigger] reqs[r]).name@ == name@
                            && reqs[r].criteria@.contains(c) by {
                    if has_bit(before, c) {
                        let r = choose|r: int|
                            0 <= r < i && (#[trigger] reqs[r]).name@ == name@
                                && reqs[r].criteria@.contains(c);
                        assert(0 <= r < i + 1);
                    }
                    if has_bit(reqs[i as int].criteria.bits, c) {
                        assert(reqs[i as int].criteria@.contains(c));
                    }
                    if exists|r: int|
                        0 <= r < i + 1 && (#[trigger] reqs[r]).name@ == name@
                            && reqs[r].criteria@.contains(c) {
                        let r = choose|r: int|
                            0 <= r < i + 1 && (#[trigger] reqs[r]).name@ == name@
                                && reqs[r].criteria@.contains(c);
                        if r == i {
                            assert(has_bit(reqs[i as int].criteria.bits, c));
                        }
                    }
                }
            }
        } else {
            proof {
                assert forall|c: nat|
                    has_bit(acc, c) == exists|r: int|
                        0 <= r < i + 1 && (#[trigger] reqs[r]).name@ == name@
                            && reqs[r].criteria@.contains(c) by {
                    if has_bit(acc, c) {
                        let r = choose|r: int|
                            0 <= r < i && (#[trigger] reqs[r]).name@ == name@
                                && reqs[r].criteria@.contains(c);
                        assert(0 <= r < i + 1);
                    }
                }
            }
        }
        i += 1;
    }
    assert(bits_view(acc) =~= named_union(reqs@, name@));
    (named, acc)
}

proof fn lemma_full_word()
    ensures
        forall|c: nat| #[trigger] has_bit(u64::MAX, c) == (c < 64),
{
    lemma_bits_low_mask(64);
    assert(low_mask(64) == u64::MAX);
    assert forall|c: nat| #[trigger] has_bit(u64::MAX, c) == (c < 64) by {
        assert(has_bit(low_mask(64), c) == (c < 64));
    }
}

impl<'a> Problem<'a> {
    /// The edge that stands for what node `n` asks of its `k`-th dependency.
    fn required_edge(
        &self,
        n: usize,
        k: usize,
        have: &Vec<u64>,
        deploying: u64,
        Ghost(inp): Ghost<Inputs>,
    ) -> (e: FlowEdge)
        requires
            inp.table == *self.table,
            inp.graph == *self.graph,
            inp.policy == *self.policy,
            inp.graph.wf(),
            inp.table.wf(),
            n < self.graph.nodes.len(),
            k < self.graph.nodes[n as int].deps.len(),
            have.len() == self.graph.nodes.len(),
            forall|c: nat| #[trigger] has_bit(deploying, c) == deploys(inp.table, c),
        ensures
            edge_fits(inp, words_view(have@), n as int, k as int, e),
    {
        let ghost sets = words_view(have@);
        let node = &self.graph.nodes[n];
        let edge = node.deps[k];
        assert(edge == inp.graph.nodes[n as int].deps[k as int]);
        assert(edge.to < self.graph.nodes.len());
        let is_dev = match edge.kind {
            EdgeKind::Dev => true,
            _ => false,
        };
        let lacking = !have[n];
        proof {
            lemma_bits_not(have[n as int]);
            lemma_bits_not(deploying);
            lemma_bits_zero();
            lemma_bits_small();
            lemma_full_word();
            assert(sets[n as int] == bits_view(have[n as int]));
            assert forall|c: nat| sets[n as int].contains(c) == has_bit(have[n as int], c) by {}
        }
        let mut named = false;
        let mut asked: u64 = 0;
        if !self.needs_audits(n, Ghost(inp)) {
            match self.policy.find(&node.name) {
                Some(q) => {
                    let found = named_union_word(
                        &self.policy.entries[q].deps,
                        &self.graph.nodes[edge.to].name,
                    );
                    named = found.0;
                    asked = found.1;
                },
                None => {
                    assert(!names_dep(inp.policy_deps(n as int), inp.name(inp.dep(n as int, k as int))));
                },
            }
        }
        assert(named == overridden(inp, n as int, k as int));
        assert(named ==> bits_view(asked) == named_union(
            inp.policy_deps(n as int),
            inp.name(inp.dep(n as int, k as int)),
        ));
        let e = if named {
            FlowEdge {
                to: edge.to,
                pass: 0,
                trigger: if is_dev {
                    u64::MAX
                } else {
                    lacking
                },
                emit: asked,
            }
        } else if is_dev {
            FlowEdge { to: edge.to, pass: !deploying, trigger: deploying, emit: 1 }
        } else {
            FlowEdge { to: edge.to, pass: lacking, trigger: 0, emit: 0 }
        };
        proof {
            let i = n as int;
            let j = k as int;
            assert(inp.kind(i, j) == edge.kind);
            assert(inp.dep(i, j) == edge.to as int);
            assert forall|t: nat| #[trigger] has_bit(lacking, t) == (t < 64 && !sets[i].contains(t)) by {
                assert(sets[i].contains(t) == has_bit(have[i], t));
            }
            assert forall|t: nat| #[trigger] has_bit(!deploying, t) == (t < 64 && !deploys(inp.table, t)) by {
                if t < 64 {
                    assert(has_bit(!deploying, t) == !has_bit(deploying, t));
                }
            }
            assert forall|t: nat| deploys(inp.table, t) implies t < 64 by {}
            assert forall|x: Set<nat>| (#[trigger] edge_out(e, x)).subset_of(
                demand(inp, sets, i, j, x),
            ) by {
                let handed = handed_on(inp.kind(i, j), x, sets[i]);
                assert forall|c: nat| edge_out(e, x).contains(c) implies demand(
                    inp,
                    sets,
                    i,
                    j,
                    x,
                ).contains(c) by {
                    if named {
                        assert(!has_bit(e.pass, c));
                        let t = choose|t: nat| x.contains(t) && has_bit(e.trigger, t);
                        assert(handed.contains(t));
                        assert(has_bit(asked, c));
                        assert(bits_view(asked).contains(c));
                    } else if is_dev {
                        assert(handed == x);
                        if !(x.contains(c) && has_bit(e.pass, c)) {
                            let t = choose|t: nat| x.contains(t) && has_bit(e.trigger, t);
                            assert(handed.contains(t) && deploys(inp.table, t));
                            assert(c == 0);
                        }
                        assert(downgrade(inp.table, handed).contains(c));
                    } else {
                        assert(!has_bit(e.emit, c));
                        assert(handed.contains(c));
                    }
                }
            }
            assert forall|x: Set<nat>| small(x) implies demand(inp, sets, i, j, x).subset_of(
                #[trigger] edge_out(e, x),
            ) by {
                let handed = handed_on(inp.kind(i, j), x, sets[i]);
                assert forall|c: nat| demand(inp, sets, i, j, x).contains(c) implies edge_out(
                    e,
                    x,
                ).contains(c) by {
                    if named {
                        let t = choose|t: nat| handed.contains(t);
                        assert(x.contains(t) && t < 64);
                        assert(has_bit(e.trigger, t));
                        assert(bits_view(asked).contains(c));
                        assert(has_bit(e.emit, c));
                    } else if is_dev {
                        assert(handed == x);
                        assert(downgrade(inp.table, handed).contains(c));
                        if !(handed.contains(c) && !deploys(inp.table, c)) {
                            let t = choose|t: nat| handed.contains(t) && #[trigger] deploys(inp.table, t);
                            assert(x.contains(t) && has_bit(e.trigger, t));
                            assert(has_bit(e.emit, c));
                        } else {
                            assert(x.contains(c) && c < 64);
                            assert(has_bit(e.pass, c));
                        }
                    } else {
                        assert(handed.contains(c));
                        assert(x.contains(c) && c < 64);
                        assert(has_bit(e.pass, c));
                    }
                }
            }
        }
        e
    }

    /// What node `n` is asked for on its own account.
    fn self_required_word(&self, n: usize, contexts: &Vec<DependencyContext>, Ghost(inp): Ghost<Inputs>) -> (w:
        u64)
        requires
            inp.graph == *self.graph,
            inp.policy == *self.policy,
            n < self.graph.nodes.len(),
            contexts.len() == self.graph.nodes.len(),
            contexts[n as int].needed_for_runtime == needed_for_runtime(inp.graph, n as int),
        ensures
            bits_view(w) == self_required(inp, n as int),
    {
        proof {
            lemma_bits_small();
            lemma_bits_zero();
        }
        let node = &self.graph.nodes[n];
        if !node.first_party {
            return 0;
        }
        let fallback: u64 = if !self.graph.root(n) {
            0
        } else {
            match self.policy.default_criteria {
                Some(s) => s.bits,
                None => if contexts[n].needed_for_runtime {
                    3
                } else {
                    1
                },
            }
        };
        assert(bits_view(fallback) == crate::semantics::unstated_criteria(inp, n as int));
        match self.policy.find(&node.name) {
            Some(q) => match self.policy.entries[q].criteria {
                Some(s) => s.bits,
                None => fallback,
            },
            None => fallback,
        }
    }

    /// What each node is required to satisfy, where the nodes satisfy
    /// `have`.
    pub(crate) fn compute_required(
        &self,
        have: &Vec<u64>,
        contexts: &Vec<DependencyContext>,
        Ghost(inp): Ghost<Inputs>,
    ) -> (r: Vec<u64>)
        requires
            inp.table == *self.table,
            inp.graph == *self.graph,
            inp.policy == *self.policy,
            inp.table.wf(),
            inp.graph.wf(),
            have.len() == self.graph.nodes.len(),
            contexts.len() == self.graph.nodes.len(),
            forall|n: int|
                0 <= n < contexts.len() ==> (#[trigger] contexts[n]).needed_for_runtime
                    == needed_for_runtime(inp.graph, n),
        ensures
            r.len() == self.graph.nodes.len(),
            words_view(r@) == required_given(inp, words_view(have@)),
    {
        let ghost sets = words_view(have@);
        let count = self.graph.nodes.len();
        let deploying = deploy_word(self.table);
        let mut rows: Vec<Vec<FlowEdge>> = Vec::new();
        let mut init: Vec<u64> = Vec::new();
        let mut n: usize = 0;
        while n < count
            invariant
                n <= count,
                count == self.graph.nodes.len(),
                inp.table == *self.table,
                inp.graph == *self.graph,
                inp.policy == *self.policy,
                inp.graph.wf(),
                inp.table.wf(),
                have.len() == count,
                contexts.len() == count,
                sets == words_view(have@),
                forall|m: int|
                    0 <= m < contexts.len() ==> (#[trigger] contexts[m]).needed_for_runtime
                        == needed_for_runtime(inp.graph, m),
                forall|c: nat| #[trigger] has_bit(deploying, c) == deploys(inp.table, c),
                rows.len() == n,
                init.len() == n,
                forall|m: int| 0 <= m < n ==> bits_view(#[trigger] init[m]) == self_required(inp, m),
                forall|m: int|
                    0 <= m < n ==> (#[trigger] rows[m]).len() == inp.graph.nodes[m].deps.len(),
                forall|m: int, k: int|
                    0 <= m < n && 0 <= k < rows[m].len() ==> edge_fits(
                        inp,
                        sets,
                        m,
                        k,
                        #[trigger] rows[m]@[k],
                    ),
            decreases count - n,
        {
            let links = self.graph.nodes[n].deps.len();
            let mut row: Vec<FlowEdge> = Vec::new();
            let mut k: usize = 0;
            while k < links
                invariant
                    k <= links,
                    n < count,
                    count == self.graph.nodes.len(),
                    links == self.graph.nodes[n as int].deps.len(),
                    inp.table == *self.table,
                    inp.graph == *self.graph,
                    inp.policy == *self.policy,
                    inp.graph.wf(),
                    inp.table.wf(),
                    have.len() == count,
                    sets == words_view(have@),
                    forall|c: nat| #[trigger] has_bit(deploying, c) == deploys(inp.table, c),
                    row.len() == k,
                    forall|j: int| 0 <= j < k ==> edge_fits(inp, sets, n as int, j, #[trigger] row[j]),
                decreases links - k,
            {
                let e = self.required_edge(n, k, have, deploying, Ghost(inp));
                row.push(e);
                k += 1;
            }
            let w = self.self_required_word(n, contexts, Ghost(inp));
            rows.push(row);
            init.push(w);
            n += 1;
        }
        proof {
            let sys = rows_view(rows@);
            assert forall|m: int, k: int| 0 <= m < inp.nodes() && 0 <= k < sys[m].len() implies edge_fits(
                inp,
                sets,
                m,
                k,
                #[trigger] sys[m][k],
            ) by {
                assert(sys[m][k] == rows[m]@[k]);
            }
            assert forall|m: int| 0 <= m < inp.nodes() implies (#[trigger] sys[m]).len()
                == inp.graph.nodes[m].deps.len() by {
                assert(sys[m] == rows[m]@);
            }
            assert(system_fits(inp, sets, sys, init@));
            lemma_required_system(inp, sets, sys, init@);
            assert(rows_in_range(sys)) by {
                assert forall|v: int, k: int| 0 <= v < sys.len() && 0 <= k < sys[v].len() implies (
                #[trigger] sys[v][k]).to < sys.len() by {
                    assert(edge_fits(inp, sets, v, k, sys[v][k]));
                    assert(inp.graph.nodes[v].deps[k].to < inp.graph.nodes.len());
                }
            }
        }
        solve(&rows, &init)
    }
}

} // verus!
