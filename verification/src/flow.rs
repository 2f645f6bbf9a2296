//! Least solutions of set constraints over a finite graph.
//!
//! Every slot of a system holds a set of small numbers. A slot starts from an
//! initial set, and every edge carries part of what its source holds over to
//! its target: the members that the edge passes, and, once the source holds
//! any member that triggers the edge, everything the edge emits. The solver
//! computes the smallest assignment that respects all of this.

use vstd::prelude::*;
use crate::bits::{
    bits_view, has_bit, lemma_bits_and, lemma_bits_nonzero, lemma_bits_or, lemma_bits_or_grows,
    lemma_bits_zero,
};

verus! {

/// One constraint from a slot to another. The slot that is read is the one
/// whose row holds the edge.
#[derive(Clone, Copy, Debug)]
pub struct FlowEdge {
    /// Slot that receives.
    pub to: usize,
    /// Members that are carried over unchanged.
    pub pass: u64,
    /// Members whose presence at the source releases `emit`.
    pub trigger: u64,
    /// Members added to the target once the edge is triggered.
    pub emit: u64,
}

/// What an edge hands to its target when its source holds `x`.
pub open spec fn edge_out(e: FlowEdge, x: Set<nat>) -> Set<nat> {
    Set::new(
        |c: nat|
            (x.contains(c) && has_bit(e.pass, c)) || (has_bit(e.emit, c) && exists|t: nat|
                x.contains(t) && has_bit(e.trigger, t)),
    )
}

/// The same as [`edge_out`], on words.
pub open spec fn edge_word(e: FlowEdge, w: u64) -> u64 {
    (w & e.pass) | (if w & e.trigger != 0 {
        e.emit
    } else {
        0
    })
}

/// The rows of a system as plain sequences: row `v` holds the edges that
/// read slot `v`.
pub open spec fn rows_view(rows: Seq<Vec<FlowEdge>>) -> Seq<Seq<FlowEdge>> {
    Seq::new(rows.len(), |v: int| rows[v]@)
}

/// Every edge leads to a slot of the system.
pub open spec fn rows_in_range(rows: Seq<Seq<FlowEdge>>) -> bool {
    forall|v: int, k: int|
        0 <= v < rows.len() && 0 <= k < rows[v].len() ==> (#[trigger] rows[v][k]).to < rows.len()
}

/// `x` respects the initial sets and every edge.
pub open spec fn flow_closed(rows: Seq<Seq<FlowEdge>>, init: Seq<u64>, x: Seq<Set<nat>>) -> bool {
    &&& x.len() == rows.len()
    &&& forall|v: int, c: nat|
        0 <= v < rows.len() && has_bit(init[v], c) ==> #[trigger] x[v].contains(c)
    &&& forall|v: int, k: int, c: nat|
        0 <= v < rows.len() && 0 <= k < rows[v].len() && #[trigger] edge_out(rows[v][k], x[v]).contains(
            c,
        ) ==> x[rows[v][k].to as int].contains(c)
}

/// The smallest assignment that respects the initial sets and every edge:
/// a member belongs to a slot when every closed assignment puts it there.
pub open spec fn flow_least(rows: Seq<Seq<FlowEdge>>, init: Seq<u64>) -> Seq<Set<nat>> {
    Seq::new(
        rows.len(),
        |v: int|
            Set::new(
                |c: nat|
                    forall|x: Seq<Set<nat>>| #[trigger] flow_closed(rows, init, x) ==> x[v].contains(c),
            ),
    )
}

/// The sets that a vector of words stands for.
pub open spec fn words_view(words: Seq<u64>) -> Seq<Set<nat>> {
    Seq::new(words.len(), |v: int| bits_view(words[v]))
}

/// Room left in a vector of words: how far each is from the full word.
pub open spec fn slack(words: Seq<u64>) -> nat
    decreases words.len(),
{
    if words.len() == 0 {
        0
    } else {
        slack(words.drop_last()) + (u64::MAX - words.last()) as nat
    }
}

pub proof fn lemma_slack_update(words: Seq<u64>, i: int, w: u64)
    requires
        0 <= i < words.len(),
        w >= words[i],
    ensures
        slack(words.update(i, w)) + (w - words[i]) == slack(words),
    decreases words.len(),
{
    let upd = words.update(i, w);
    if i == words.len() - 1 {
        assert(upd.drop_last() =~= words.drop_last());
    } else {
        assert(upd.drop_last() =~= words.drop_last().update(i, w));
        lemma_slack_update(words.drop_last(), i, w);
    }
}

/// The word form of an edge computes its set form.
pub proof fn lemma_edge_word(e: FlowEdge, w: u64)
    ensures
        bits_view(edge_word(e, w)) == edge_out(e, bits_view(w)),
{
    let emitted: u64 = if w & e.trigger != 0 {
        e.emit
    } else {
        0
    };
    lemma_bits_or(w & e.pass, emitted);
    lemma_bits_and(w, e.pass);
    lemma_bits_and(w, e.trigger);
    lemma_bits_nonzero(w & e.trigger);
    lemma_bits_zero();
    assert forall|c: nat| bits_view(edge_word(e, w)).contains(c) == edge_out(
        e,
        bits_view(w),
    ).contains(c) by {
        if w & e.trigger != 0 {
            let t = choose|t: nat| has_bit(w & e.trigger, t);
            assert(bits_view(w).contains(t) && has_bit(e.trigger, t));
        } else {
            if exists|t: nat| bits_view(w).contains(t) && has_bit(e.trigger, t) {
                let t = choose|t: nat| bits_view(w).contains(t) && has_bit(e.trigger, t);
                assert(has_bit(w & e.trigger, t));
            }
        }
    }
    assert(bits_view(edge_word(e, w)) =~= edge_out(e, bits_view(w)));
}

/// An edge hands over no less when its source holds more.
pub proof fn lemma_edge_out_monotone(e: FlowEdge, x: Set<nat>, y: Set<nat>)
    requires
        x.subset_of(y),
    ensures
        edge_out(e, x).subset_of(edge_out(e, y)),
{
    assert forall|c: nat| edge_out(e, x).contains(c) implies edge_out(e, y).contains(c) by {
        if !(x.contains(c) && has_bit(e.pass, c)) {
            let t = choose|t: nat| x.contains(t) && has_bit(e.trigger, t);
            assert(y.contains(t) && has_bit(e.trigger, t));
        }
    }
}

/// The least assignment lies below every closed one.
pub proof fn lemma_flow_least_below(rows: Seq<Seq<FlowEdge>>, init: Seq<u64>, x: Seq<Set<nat>>)
    requires
        flow_closed(rows, init, x),
    ensures
        forall|v: int| 0 <= v < rows.len() ==> (#[trigger] flow_least(rows, init)[v]).subset_of(x[v]),
{
}

/// The least assignment is itself closed.
pub proof fn lemma_flow_least_closed(rows: Seq<Seq<FlowEdge>>, init: Seq<u64>)
    requires
        rows_in_range(rows),
        init.len() == rows.len(),
    ensures
        flow_closed(rows, init, flow_least(rows, init)),
{
    let least = flow_least(rows, init);
    assert forall|v: int, k: int, c: nat|
        0 <= v < rows.len() && 0 <= k < rows[v].len() && #[trigger] edge_out(
            rows[v][k],
            least[v],
        ).contains(c) implies least[rows[v][k].to as int].contains(c) by {
        let e = rows[v][k];
        assert forall|x: Seq<Set<nat>>| #[trigger] flow_closed(rows, init, x) implies x[e.to as int].contains(
            c,
        ) by {
            lemma_flow_least_below(rows, init, x);
            assert(least[v].subset_of(x[v]));
            lemma_edge_out_monotone(e, least[v], x[v]);
            assert(edge_out(rows[v][k], x[v]).contains(c));
        }
    }
}

/// Computes the least assignment of a system.
pub fn solve(rows: &Vec<Vec<FlowEdge>>, init: &Vec<u64>) -> (val: Vec<u64>)
    requires
        init.len() == rows.len(),
        rows_in_range(rows_view(rows@)),
    ensures
        val.len() == rows.len(),
        words_view(val@) == flow_least(rows_view(rows@), init@),
        forall|v: int|
            0 <= v < rows.len() ==> bits_view(#[trigger] val[v]) == flow_least(
                rows_view(rows@),
                init@,
            )[v],
{
    let n = rows.len();
    let ghost sys = rows_view(rows@);
    let mut val: Vec<u64> = Vec::new();
    let mut i: usize = 0;
    while i < n
        invariant
            i <= n,
            init.len() == n,
            val.len() == i,
            forall|v: int| 0 <= v < i ==> val[v] == init[v],
        decreases n - i,
    {
        val.push(init[i]);
        i += 1;
    }
    loop
        invariant
            n == rows.len(),
            sys == rows_view(rows@),
            init.len() == n,
            val.len() == n,
            rows_in_range(sys),
            forall|v: int, c: nat| 0 <= v < n && #[trigger] has_bit(init[v], c) ==> has_bit(val[v], c),
            forall|x: Seq<Set<nat>>, v: int|
                #![trigger flow_closed(sys, init@, x), x[v]]
                flow_closed(sys, init@, x) && 0 <= v < n ==> bits_view(val[v]).subset_of(x[v]),
        ensures
            val.len() == n,
            flow_closed(sys, init@, words_view(val@)),
            forall|x: Seq<Set<nat>>, v: int|
                #![trigger flow_closed(sys, init@, x), x[v]]
                flow_closed(sys, init@, x) && 0 <= v < n ==> bits_view(val[v]).subset_of(x[v]),
        decreases slack(val@),
    {
        let ghost start = val@;
        let mut changed = false;
        let mut v: usize = 0;
        while v < n
            invariant
                v <= n,
                n == rows.len(),
                sys == rows_view(rows@),
                init.len() == n,
                val.len() == n,
                rows_in_range(sys),
                forall|u: int, c: nat|
                    0 <= u < n && #[trigger] has_bit(init[u], c) ==> has_bit(val[u], c),
                forall|x: Seq<Set<nat>>, u: int|
                    #![trigger flow_closed(sys, init@, x), x[u]]
                    flow_closed(sys, init@, x) && 0 <= u < n ==> bits_view(val[u]).subset_of(x[u]),
                slack(val@) <= slack(start),
                changed ==> slack(val@) < slack(start),
                !changed ==> forall|u: int, j: int|
                    0 <= u < v && 0 <= j < sys[u].len() ==> (#[trigger] edge_out(
                        sys[u][j],
                        bits_view(val[u]),
                    )).subset_of(bits_view(val[sys[u][j].to as int])),
            decreases n - v,
        {
            let row = &rows[v];
            assert(sys[v as int] == row@);
            let mut k: usize = 0;
            while k < row.len()
                invariant
                    k <= row.len(),
                    v < n,
                    n == rows.len(),
                    sys == rows_view(rows@),
                    sys[v as int] == row@,
                    init.len() == n,
                    val.len() == n,
                    rows_in_range(sys),
                    forall|u: int, c: nat|
                        0 <= u < n && #[trigger] has_bit(init[u], c) ==> has_bit(val[u], c),
                    forall|x: Seq<Set<nat>>, u: int|
                        #![trigger flow_closed(sys, init@, x), x[u]]
                        flow_closed(sys, init@, x) && 0 <= u < n ==> bits_view(val[u]).subset_of(
                            x[u],
                        ),
                    slack(val@) <= slack(start),
                    changed ==> slack(val@) < slack(start),
                    !changed ==> forall|u: int, j: int|
                        0 <= u < v && 0 <= j < sys[u].len() ==> (#[trigger] edge_out(
                            sys[u][j],
                            bits_view(val[u]),
                        )).subset_of(bits_view(val[sys[u][j].to as int])),
                    !changed ==> forall|j: int|
                        0 <= j < k ==> (#[trigger] edge_out(
                            sys[v as int][j],
                            bits_view(val[v as int]),
                        )).subset_of(bits_view(val[sys[v as int][j].to as int])),
                decreases row.len() - k,
            {
                let e = row[k];
                assert(e == sys[v as int][k as int]);
                let w = val[v];
                let emitted: u64 = if w & e.trigger != 0 {
                    e.emit
                } else {
                    0
                };
                let out = (w & e.pass) | emitted;
                let before = val[e.to];
                let after = before | out;
                proof {
                    lemma_edge_word(e, w);
                    lemma_bits_or(before, out);
                    lemma_bits_or_grows(before, out);
                    assert(out == edge_word(e, w));
                    assert forall|x: Seq<Set<nat>>| #[trigger]
                        flow_closed(sys, init@, x) implies bits_view(after).subset_of(x[e.to as int]) by {
                        assert(bits_view(val[v as int]).subset_of(x[v as int]));
                        lemma_edge_out_monotone(e, bits_view(w), x[v as int]);
                        assert(bits_view(val[e.to as int]).subset_of(x[e.to as int]));
                        assert forall|c: nat| bits_view(after).contains(c) implies x[e.to as int].contains(
                            c,
                        ) by {
                            if bits_view(out).contains(c) {
                                assert(edge_out(sys[v as int][k as int], x[v as int]).contains(c));
                            }
                        }
                    }
                }
                if after != before {
                    let ghost prior = val@;
                    val.set(e.to, after);
                    changed = true;
                    proof {
                        lemma_slack_update(prior, e.to as int, after);
                        assert(val@ =~= prior.update(e.to as int, after));
                    }
                } else {
                    proof {
                        assert(bits_view(out).subset_of(bits_view(before))) by {
                            assert(bits_view(after) == bits_view(before).union(bits_view(out)));
                        }
                    }
                }
                k += 1;
            }
            v += 1;
        }
        if !changed {
            proof {
                let x = words_view(val@);
                assert forall|u: int, j: int, c: nat|
                    0 <= u < n && 0 <= j < sys[u].len() && #[trigger] edge_out(sys[u][j], x[u]).contains(
                        c,
                    ) implies x[sys[u][j].to as int].contains(c) by {
                    assert(edge_out(sys[u][j], bits_view(val[u])).subset_of(
                        bits_view(val[sys[u][j].to as int]),
                    ));
                }
                assert(flow_closed(sys, init@, x));
            }
            break ;
        }
    }
    proof {
        let least = flow_least(sys, init@);
        let x = words_view(val@);
        assert forall|v: int| 0 <= v < n implies #[trigger] x[v] =~= least[v] by {
            assert forall|c: nat| least[v].contains(c) implies x[v].contains(c) by {
                assert(flow_closed(sys, init@, x));
            }
            assert forall|c: nat| x[v].contains(c) implies least[v].contains(c) by {
                assert forall|y: Seq<Set<nat>>| #[trigger] flow_closed(sys, init@, y) implies y[v].contains(
                    c,
                ) by {
                    assert(bits_view(val[v]).subset_of(y[v]));
                }
            }
        }
        assert(x =~= least);
    }
    val
}

} // verus!
