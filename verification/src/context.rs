//! In which context each node of the graph is needed.

use vstd::prelude::*;
use crate::bits::{bits_view, has_bit, lemma_bits_small, lemma_bits_zero};
use crate::flow::{
    edge_out, flow_closed, flow_least, lemma_flow_least_closed, rows_in_range, rows_view, solve,
    FlowEdge,
};
use crate::model::{DepGraph, EdgeKind};
use crate::semantics::{
    needed_at_all, needed_for_dev_only, needed_for_runtime, reach_closed, runtime_closed,
};

verus! {

/// The context in which a node is needed.
#[derive(Clone, Copy, Debug, PartialEq, Eq, Structural)]
pub struct DependencyContext {
    /// A workspace root reaches the node without a dev dependency.
    pub needed_for_runtime: bool,
    /// A workspace root reaches the node, but only through a dev dependency.
    pub needed_for_dev_only: bool,
}

spec fn context_edge(g: DepGraph, n: int, k: int) -> FlowEdge {
    FlowEdge {
        to: g.nodes[n].deps[k].to,
        pass: if g.nodes[n].deps[k].kind == EdgeKind::Dev {
            2
        } else {
            3
        },
        trigger: 0,
        emit: 0,
    }
}

spec fn context_rows(g: DepGraph) -> Seq<Seq<FlowEdge>> {
    Seq::new(
        g.nodes.len() as nat,
        |n: int| Seq::new(g.nodes[n].deps.len() as nat, |k: int| context_edge(g, n, k)),
    )
}

spec fn is_root(g: DepGraph, upto: int, n: int) -> bool {
    exists|r: int| 0 <= r < upto && #[trigger] g.roots[r] == n
}

spec fn context_init(g: DepGraph) -> Seq<u64> {
    Seq::new(
        g.nodes.len() as nat,
        |n: int|
            if is_root(g, g.roots.len() as int, n) {
                3u64
            } else {
                0u64
            },
    )
}

proof fn lemma_context_runtime(g: DepGraph, n: int)
    requires
        g.wf(),
        0 <= n < g.nodes.len(),
    ensures
        flow_least(context_rows(g), context_init(g))[n].contains(0) == needed_for_runtime(g, n),
        flow_least(context_rows(g), context_init(g))[n].contains(1) == needed_at_all(g, n),
{
    let rows = context_rows(g);
    let init = context_init(g);
    let least = flow_least(rows, init);
    lemma_bits_small();
    lemma_bits_zero();
    assert(rows_in_range(rows)) by {
        assert forall|v: int, k: int| 0 <= v < rows.len() && 0 <= k < rows[v].len() implies (
        #[trigger] rows[v][k]).to < rows.len() by {
            assert(rows[v][k] == context_edge(g, v, k));
            assert(g.nodes[v].deps[k].to < g.nodes.len());
        }
    }
    lemma_flow_least_closed(rows, init);
    // From the least assignment to the two closed sets of nodes.
    let run = Set::new(|m: int| 0 <= m < g.nodes.len() && least[m].contains(0));
    let any = Set::new(|m: int| 0 <= m < g.nodes.len() && least[m].contains(1));
    assert forall|r: int| 0 <= r < g.roots.len() implies run.contains(#[trigger] g.roots[r] as int)
        && any.contains(g.roots[r] as int) by {
        let m = g.roots[r] as int;
        assert(is_root(g, g.roots.len() as int, m));
        assert(has_bit(init[m], 0) && has_bit(init[m], 1));
    }
    assert forall|m: int, k: int|
        0 <= m < g.nodes.len() && 0 <= k < g.nodes[m].deps.len() && run.contains(m) && (
        #[trigger] g.nodes[m].deps[k]).kind != EdgeKind::Dev implies run.contains(
        g.nodes[m].deps[k].to as int,
    ) by {
        assert(rows[m][k] == context_edge(g, m, k));
        assert(edge_out(rows[m][k], least[m]).contains(0));
    }
    assert forall|m: int, k: int|
        0 <= m < g.nodes.len() && 0 <= k < g.nodes[m].deps.len() && any.contains(m) implies any.contains(
        (#[trigger] g.nodes[m].deps[k]).to as int,
    ) by {
        assert(rows[m][k] == context_edge(g, m, k));
        assert(edge_out(rows[m][k], least[m]).contains(1));
    }
    assert(runtime_closed(g, run));
    assert(reach_closed(g, any));
    // From closed sets of nodes to closed assignments.
    if least[n].contains(0) {
        assert forall|s: Set<int>| #[trigger] runtime_closed(g, s) implies s.contains(n) by {
            let x = Seq::new(
                g.nodes.len() as nat,
                |m: int| Set::new(|c: nat| (c == 0 && s.contains(m)) || c == 1),
            );
            assert forall|v: int, c: nat| 0 <= v < rows.len() && has_bit(init[v], c) implies #[trigger] x[v].contains(
                c,
            ) by {
                let r = choose|r: int| 0 <= r < g.roots.len() && #[trigger] g.roots[r] == v;
                assert(s.contains(g.roots[r] as int));
            }
            assert forall|v: int, k: int, c: nat|
                0 <= v < rows.len() && 0 <= k < rows[v].len() && #[trigger] edge_out(
                    rows[v][k],
                    x[v],
                ).contains(c) implies x[rows[v][k].to as int].contains(c) by {
                assert(rows[v][k] == context_edge(g, v, k));
                assert(g.nodes[v].deps[k].to < g.nodes.len());
                if c == 0 {
                    assert(g.nodes[v].deps[k].kind != EdgeKind::Dev);
                    assert(s.contains(g.nodes[v].deps[k].to as int));
                }
            }
            assert(flow_closed(rows, init, x));
            assert(x[n].contains(0));
        }
    }
    if least[n].contains(1) {
        assert forall|s: Set<int>| #[trigger] reach_closed(g, s) implies s.contains(n) by {
            let x = Seq::new(
                g.nodes.len() as nat,
                |m: int| Set::new(|c: nat| c == 0 || (c == 1 && s.contains(m))),
            );
            assert forall|v: int, c: nat| 0 <= v < rows.len() && has_bit(init[v], c) implies #[trigger] x[v].contains(
                c,
            ) by {
                let r = choose|r: int| 0 <= r < g.roots.len() && #[trigger] g.roots[r] == v;
                assert(s.contains(g.roots[r] as int));
            }
            assert forall|v: int, k: int, c: nat|
                0 <= v < rows.len() && 0 <= k < rows[v].len() && #[trigger] edge_out(
                    rows[v][k],
                    x[v],
                ).contains(c) implies x[rows[v][k].to as int].contains(c) by {
                assert(rows[v][k] == context_edge(g, v, k));
                assert(g.nodes[v].deps[k].to < g.nodes.len());
                if c == 1 {
                    assert(s.contains(g.nodes[v].deps[k].to as int));
                }
            }
            assert(flow_closed(rows, init, x));
            assert(x[n].contains(1));
        }
    }
    if needed_for_runtime(g, n) {
        assert(run.contains(n));
    }
    if needed_at_all(g, n) {
        assert(any.contains(n));
    }
}

/// Classifies every node: needed at run time, needed for development only,
/// or not needed.
pub fn dependency_contexts(graph: &DepGraph) -> (r: Vec<DependencyContext>)
    requires
        graph.wf(),
    ensures
        r.len() == graph.nodes.len(),
        forall|n: int|
            0 <= n < r.len() ==> (#[trigger] r[n]).needed_for_runtime == needed_for_runtime(*graph, n)
                && r[n].needed_for_dev_only == needed_for_dev_only(*graph, n),
{
    let count = graph.nodes.len();
    let mut rows: Vec<Vec<FlowEdge>> = Vec::new();
    let mut init: Vec<u64> = Vec::new();
    let mut n: usize = 0;
    while n < count
        invariant
            n <= count,
            count == graph.nodes.len(),
            graph.wf(),
            rows.len() == n,
            init.len() == n,
            forall|m: int| 0 <= m < n ==> #[trigger] init[m] == 0,
            forall|m: int| 0 <= m < n ==> (#[trigger] rows[m])@ == context_rows(*graph)[m],
        decreases count - n,
    {
        let node = &graph.nodes[n];
        let mut row: Vec<FlowEdge> = Vec::new();
        let mut k: usize = 0;
        while k < node.deps.len()
            invariant
                k <= node.deps.len(),
                n < count,
                count == graph.nodes.len(),
                *node == graph.nodes[n as int],
                row.len() == k,
                forall|j: int| 0 <= j < k ==> #[trigger] row[j] == context_edge(*graph, n as int, j),
            decreases node.deps.len() - k,
        {
            let pass: u64 = match node.deps[k].kind {
                EdgeKind::Dev => 2,
                _ => 3,
            };
            row.push(FlowEdge { to: node.deps[k].to, pass, trigger: 0, emit: 0 });
            k += 1;
        }
        assert(row@ =~= context_rows(*graph)[n as int]);
        rows.push(row);
        init.push(0);
        n += 1;
    }
    let mut r: usize = 0;
    while r < graph.roots.len()
        invariant
            r <= graph.roots.len(),
            count == graph.nodes.len(),
            graph.wf(),
            init.len() == count,
            forall|m: int|
                0 <= m < count ==> #[trigger] init[m] == if is_root(*graph, r as int, m) {
                    3u64
                } else {
                    0u64
                },
        decreases graph.roots.len() - r,
    {
        let ghost before = init@;
        init.set(graph.roots[r], 3);
        proof {
            assert forall|m: int| 0 <= m < count implies #[trigger] init[m] == if is_root(
                *graph,
                r + 1,
                m,
            ) {
                3u64
            } else {
                0u64
            } by {
                if is_root(*graph, r as int, m) {
                    let q = choose|q: int| 0 <= q < r && #[trigger] graph.roots[q] == m;
                    assert(0 <= q < r + 1 && graph.roots[q] == m);
                }
                if m == graph.roots[r as int] {
                    assert(is_root(*graph, r + 1, m));
                }
                if is_root(*graph, r + 1, m) && m != graph.roots[r as int] {
                    let q = choose|q: int| 0 <= q < r + 1 && #[trigger] graph.roots[q] == m;
                    assert(q < r);
                    assert(is_root(*graph, r as int, m));
                }
            }
        }
        r += 1;
    }
    assert(init@ =~= context_init(*graph));
    assert(rows_view(rows@) =~= context_rows(*graph));
    proof {
        assert forall|v: int, k: int|
            0 <= v < context_rows(*graph).len() && 0 <= k < context_rows(*graph)[v].len() implies (
        #[trigger] context_rows(*graph)[v][k]).to < context_rows(*graph).len() by {
            assert(context_rows(*graph)[v][k] == context_edge(*graph, v, k));
            assert(graph.nodes[v].deps[k].to < graph.nodes.len());
        }
    }
    let val = solve(&rows, &init);
    let mut out: Vec<DependencyContext> = Vec::new();
    let mut n: usize = 0;
    while n < count
        invariant
            n <= count,
            count == graph.nodes.len(),
            graph.wf(),
            val.len() == count,
            out.len() == n,
            forall|m: int|
                0 <= m < count ==> bits_view(#[trigger] val[m]) == flow_least(
                    context_rows(*graph),
                    context_init(*graph),
                )[m],
            forall|m: int|
                0 <= m < n ==> (#[trigger] out[m]).needed_for_runtime == needed_for_runtime(*graph, m)
                    && out[m].needed_for_dev_only == needed_for_dev_only(*graph, m),
        decreases count - n,
    {
        let w = val[n];
        let runtime = w & 1 != 0;
        let reached = w & 2 != 0;
        proof {
            lemma_context_runtime(*graph, n as int);
            assert(bits_view(w).contains(0) == has_bit(w, 0));
            assert(bits_view(w).contains(1) == has_bit(w, 1));
            assert((w & 1 != 0) == ((w >> 0) & 1 == 1)) by (bit_vector);
            assert((w & 2 != 0) == ((w >> 1) & 1 == 1)) by (bit_vector);
        }
        out.push(DependencyContext { needed_for_runtime: runtime, needed_for_dev_only: reached && !runtime });
        n += 1;
    }
    out
}

} // verus!
