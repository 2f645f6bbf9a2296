//! Paths through the audit graph of one package.

use vstd::prelude::*;
use crate::bits::{bits_view, has_bit, lemma_bits_or, lemma_bits_zero};
use crate::flow::{edge_out, flow_closed, flow_least, rows_view, solve, words_view, FlowEdge};
use crate::model::{starts_at, AuditEdge, Version};
use crate::semantics::{audit_closed, audit_connects, audit_reach, audited};

verus! {

spec fn audit_flow_edge(edges: Seq<AuditEdge>, masks: Seq<u64>, i: int, j: int) -> FlowEdge {
    FlowEdge {
        to: j as usize,
        pass: if audit_connects(edges, i, j) {
            masks[j]
        } else {
            0
        },
        trigger: 0,
        emit: 0,
    }
}

spec fn audit_rows(edges: Seq<AuditEdge>, masks: Seq<u64>) -> Seq<Seq<FlowEdge>> {
    Seq::new(
        edges.len(),
        |i: int| Seq::new(edges.len(), |j: int| audit_flow_edge(edges, masks, i, j)),
    )
}

spec fn audit_init(edges: Seq<AuditEdge>, masks: Seq<u64>) -> Seq<u64> {
    Seq::new(
        edges.len(),
        |j: int|
            if edges[j].from is None {
                masks[j]
            } else {
                0
            },
    )
}

proof fn lemma_audit_system(edges: Seq<AuditEdge>, masks: Seq<u64>, x: Seq<Set<nat>>)
    requires
        masks.len() == edges.len(),
        edges.len() <= usize::MAX,
    ensures
        flow_closed(audit_rows(edges, masks), audit_init(edges, masks), x) == audit_closed(
            edges,
            words_view(masks),
            x,
        ),
{
    let rows = audit_rows(edges, masks);
    let init = audit_init(edges, masks);
    let sets = words_view(masks);
    lemma_bits_zero();
    if flow_closed(rows, init, x) {
        assert forall|j: int, c: nat|
            0 <= j < edges.len() && edges[j].from is None && sets[j].contains(c) implies #[trigger] x[j].contains(
            c,
        ) by {
            assert(has_bit(init[j], c));
        }
        assert forall|i: int, j: int, c: nat|
            0 <= i < edges.len() && 0 <= j < edges.len() && audit_connects(edges, i, j)
                && #[trigger] x[i].contains(c) && sets[j].contains(c) implies #[trigger] x[j].contains(
            c,
        ) by {
            assert(rows[i][j] == audit_flow_edge(edges, masks, i, j));
            assert(edge_out(rows[i][j], x[i]).contains(c));
        }
    }
    if audit_closed(edges, sets, x) {
        assert forall|v: int, c: nat| 0 <= v < rows.len() && has_bit(init[v], c) implies #[trigger] x[v].contains(
            c,
        ) by {
            assert(sets[v].contains(c));
        }
        assert forall|v: int, k: int, c: nat|
            0 <= v < rows.len() && 0 <= k < rows[v].len() && #[trigger] edge_out(rows[v][k], x[v]).contains(
                c,
            ) implies x[rows[v][k].to as int].contains(c) by {
            assert(rows[v][k] == audit_flow_edge(edges, masks, v, k));
            assert(x[v].contains(c) && has_bit(rows[v][k].pass, c));
            assert(audit_connects(edges, v, k));
            assert(sets[k].contains(c));
            assert(x[k].contains(c));
        }
        assert(flow_closed(rows, init, x));
    }
}

/// The criteria for which a path of edges leads from nothing to `target`,
/// where `masks` says what each edge carries.
pub fn audited_word(edges: &Vec<AuditEdge>, masks: &Vec<u64>, target: &Version) -> (r: u64)
    requires
        masks.len() == edges.len(),
    ensures
        bits_view(r) == audited(edges@, words_view(masks@), target@),
{
    let n = edges.len();
    let mut init: Vec<u64> = Vec::new();
    let mut rows: Vec<Vec<FlowEdge>> = Vec::new();
    let mut i: usize = 0;
    while i < n
        invariant
            i <= n,
            n == edges.len(),
            masks.len() == n,
            init.len() == i,
            rows.len() == i,
            forall|v: int| 0 <= v < i ==> #[trigger] init[v] == audit_init(edges@, masks@)[v],
            forall|v: int| 0 <= v < i ==> (#[trigger] rows[v])@ == audit_rows(edges@, masks@)[v],
        decreases n - i,
    {
        let start: u64 = if edges[i].from.is_some() {
            0
        } else {
            masks[i]
        };
        init.push(start);
        let mut row: Vec<FlowEdge> = Vec::new();
        let mut j: usize = 0;
        while j < n
            invariant
                j <= n,
                i < n,
                n == edges.len(),
                masks.len() == n,
                row.len() == j,
                forall|u: int|
                    0 <= u < j ==> #[trigger] row[u] == audit_flow_edge(edges@, masks@, i as int, u),
            decreases n - j,
        {
            let joined = starts_at(&edges[j].from, &edges[i].to);
            let pass = if joined {
                masks[j]
            } else {
                0
            };
            row.push(FlowEdge { to: j, pass, trigger: 0, emit: 0 });
            j += 1;
        }
        assert(row@ =~= audit_rows(edges@, masks@)[i as int]);
        rows.push(row);
        i += 1;
    }
    assert(init@ =~= audit_init(edges@, masks@));
    assert(rows_view(rows@) =~= audit_rows(edges@, masks@));
    let val = solve(&rows, &init);
    let ghost sets = words_view(masks@);
    proof {
        assert forall|j: int| 0 <= j < n implies bits_view(#[trigger] val[j]) == audit_reach(
            edges@,
            sets,
            j,
        ) by {
            let least = flow_least(rows_view(rows@), init@);
            assert(bits_view(val[j]) == least[j]);
            assert forall|c: nat| least[j].contains(c) == audit_reach(edges@, sets, j).contains(c) by {
                assert forall|x: Seq<Set<nat>>|
                    #![trigger flow_closed(rows_view(rows@), init@, x)]
                    #![trigger audit_closed(edges@, sets, x)]
                    flow_closed(rows_view(rows@), init@, x) == audit_closed(edges@, sets, x) by {
                    lemma_audit_system(edges@, masks@, x);
                }
                if least[j].contains(c) {
                    assert forall|x: Seq<Set<nat>>| #[trigger]
                        audit_closed(edges@, sets, x) implies x[j].contains(c) by {
                        assert(flow_closed(rows_view(rows@), init@, x));
                    }
                }
                if audit_reach(edges@, sets, j).contains(c) {
                    assert forall|x: Seq<Set<nat>>| #[trigger]
                        flow_closed(rows_view(rows@), init@, x) implies x[j].contains(c) by {
                        assert(audit_closed(edges@, sets, x));
                    }
                }
            }
            assert(least[j] =~= audit_reach(edges@, sets, j));
        }
    }
    let mut r: u64 = 0;
    let mut j: usize = 0;
    proof {
        lemma_bits_zero();
    }
    while j < n
        invariant
            j <= n,
            n == edges.len(),
            val.len() == n,
            forall|u: int|
                0 <= u < n ==> bits_view(#[trigger] val[u]) == audit_reach(edges@, sets, u),
            forall|c: nat|
                has_bit(r, c) == exists|u: int|
                    0 <= u < j && edges[u].to@ == target@ && #[trigger] audit_reach(
                        edges@,
                        sets,
                        u,
                    ).contains(c),
        decreases n - j,
    {
        if edges[j].to.same(target) {
            let ghost before = r;
            r = r | val[j];
            proof {
                lemma_bits_or(before, val[j as int]);
                assert forall|c: nat|
                    has_bit(r, c) == exists|u: int|
                        0 <= u < j + 1 && edges[u].to@ == target@ && #[trigger] audit_reach(
                            edges@,
                            sets,
                            u,
                        ).contains(c) by {
                    if has_bit(before, c) {
                        let u = choose|u: int|
                            0 <= u < j && edges[u].to@ == target@ && #[trigger] audit_reach(
                                edges@,
                                sets,
                                u,
                            ).contains(c);
                        assert(0 <= u < j + 1);
                    }
                    if has_bit(val[j as int], c) {
                        assert(bits_view(val[j as int]).contains(c));
                        assert(audit_reach(edges@, sets, j as int).contains(c));
                    }
                    if exists|u: int|
                        0 <= u < j + 1 && edges[u].to@ == target@ && #[trigger] audit_reach(
                            edges@,
                            sets,
                            u,
                        ).contains(c) {
                        let u = choose|u: int|
                            0 <= u < j + 1 && edges[u].to@ == target@ && #[trigger] audit_reach(
                                edges@,
                                sets,
                                u,
                            ).contains(c);
                        if u == j {
                            assert(bits_view(val[j as int]).contains(c));
                        }
                    }
                }
            }
        }
        j += 1;
    }
    assert(bits_view(r) =~= audited(edges@, sets, target@));
    r
}

// ---------------------------------------------------------------------------
// Paths
// ---------------------------------------------------------------------------
/// `path` is a chain of edges for criterion `c`: the first edge starts from
/// nothing, every other edge starts where the edge before leads to, and
/// every edge carries `c`.
pub open spec fn is_path(edges: Seq<AuditEdge>, masks: Seq<Set<nat>>, path: Seq<int>, c: nat) -> bool {
    &&& path.len() > 0
    &&& forall|i: int|
        0 <= i < path.len() ==> 0 <= #[trigger] path[i] < edges.len() && masks[path[i]].contains(c)
    &&& edges[path[0]].from is None
    &&& forall|i: int|
        #![trigger path[i]]
        0 < i < path.len() ==> audit_connects(edges, path[i - 1], path[i])
}

proof fn lemma_path_in_closed(
    edges: Seq<AuditEdge>,
    masks: Seq<Set<nat>>,
    path: Seq<int>,
    c: nat,
    x: Seq<Set<nat>>,
    i: int,
)
    requires
        is_path(edges, masks, path, c),
        audit_closed(edges, masks, x),
        0 <= i < path.len(),
    ensures
        x[path[i]].contains(c),
    decreases i,
{
    if i > 0 {
        lemma_path_in_closed(edges, masks, path, c, x, i - 1);
        assert(audit_connects(edges, path[i - 1], path[i]));
        assert(x[path[i - 1]].contains(c));
    }
}

/// Where a chain of edges for a criterion leads, the criterion reaches.
pub proof fn lemma_path_reaches(edges: Seq<AuditEdge>, masks: Seq<Set<nat>>, path: Seq<int>, c: nat)
    requires
        is_path(edges, masks, path, c),
    ensures
        audit_reach(edges, masks, path.last()).contains(c),
{
    assert forall|x: Seq<Set<nat>>| #[trigger] audit_closed(edges, masks, x) implies x[path.last()].contains(
        c,
    ) by {
        lemma_path_in_closed(edges, masks, path, c, x, path.len() - 1);
    }
}

/// Where a criterion reaches, a chain of edges for it leads: what the
/// audits give a version is exactly what paths from nothing carry to it.
pub proof fn lemma_reach_has_path(edges: Seq<AuditEdge>, masks: Seq<Set<nat>>, j: int, c: nat)
    requires
        0 <= j < edges.len(),
        audit_reach(edges, masks, j).contains(c),
    ensures
        exists|path: Seq<int>| #[trigger] is_path(edges, masks, path, c) && path.last() == j,
{
    let x = Seq::new(
        edges.len(),
        |k: int|
            Set::new(
                |d: nat| exists|path: Seq<int>| #[trigger] is_path(edges, masks, path, d) && path.last() == k,
            ),
    );
    assert forall|k: int, d: nat|
        0 <= k < edges.len() && edges[k].from is None && masks[k].contains(d) implies #[trigger] x[k].contains(
        d,
    ) by {
        let path = seq![k];
        assert(is_path(edges, masks, path, d));
        assert(path.last() == k);
    }
    assert forall|i: int, k: int, d: nat|
        0 <= i < edges.len() && 0 <= k < edges.len() && audit_connects(edges, i, k)
            && #[trigger] x[i].contains(d) && masks[k].contains(d) implies #[trigger] x[k].contains(d) by {
        let before = choose|path: Seq<int>| #[trigger] is_path(edges, masks, path, d) && path.last() == i;
        let path = before.push(k);
        assert forall|m: int| 0 <= m < path.len() implies 0 <= #[trigger] path[m] < edges.len()
            && masks[path[m]].contains(d) by {
            if m < before.len() {
                assert(path[m] == before[m]);
            }
        }
        assert forall|m: int| #![trigger path[m]] 0 < m < path.len() implies audit_connects(
            edges,
            path[m - 1],
            path[m],
        ) by {
            if m < before.len() {
                assert(path[m] == before[m]);
                assert(path[m - 1] == before[m - 1]);
            } else {
                assert(path[m - 1] == before.last());
            }
        }
        assert(path[0] == before[0]);
        assert(is_path(edges, masks, path, d));
        assert(path.last() == k);
    }
    assert(audit_closed(edges, masks, x));
    assert(x[j].contains(c));
}


} // verus!
