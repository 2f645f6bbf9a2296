//! Removing the exemptions that the audits have made redundant.

use vstd::prelude::*;
use crate::bits::lemma_bits_clear;
use crate::criteria::CriteriaSet;
use crate::laws::lemma_monotone;
use crate::model::{is_first, AuditOrigin, Store};
use crate::satisfy::{
    crit_view, edges_extend, edges_in_front, lemma_in_front_extends, store_grows, Problem,
};
use crate::semantics::{passes, Inputs};
use crate::universe::sets_of;

verus! {

/// Edge `j` of package `p` is an exemption.
pub open spec fn is_exemption(store: Store, p: int, j: int) -> bool {
    store.packages[p].edges[j].origin is Exemption
}

/// The criteria `x` with the entry of edge `j` of package `p` replaced.
pub open spec fn replaced(x: Seq<Seq<Set<nat>>>, p: int, j: int, s: Set<nat>) -> Seq<Seq<Set<nat>>> {
    x.update(p, x[p].update(j, s))
}

/// The inputs with edge `j` of package `p` counting for nothing.
pub open spec fn without(inp: Inputs, p: int, j: int) -> Inputs {
    Inputs { crit: replaced(inp.crit, p, j, Set::empty()), ..inp }
}

/// The inputs with edge `j` of package `p` counting for `s`.
pub open spec fn narrowed(inp: Inputs, p: int, j: int, s: Set<nat>) -> Inputs {
    Inputs { crit: replaced(inp.crit, p, j, s), ..inp }
}

/// Criterion `c` can be taken away from edge `j` of package `p`: the edge
/// counts for it, what is left holds all that it implies, and the
/// resolution passes with what is left.
pub open spec fn takeable(inp: Inputs, p: int, j: int, c: nat) -> bool {
    let rest = inp.crit[p][j].remove(c);
    &&& inp.crit[p][j].contains(c)
    &&& inp.table.closure(rest).subset_of(rest)
    &&& passes(narrowed(inp, p, j, rest))
}

/// No criterion of the universe can be taken away from edge `j` of package
/// `p`.
pub open spec fn settled(inp: Inputs, p: int, j: int) -> bool {
    forall|c: nat| c < inp.table.count() ==> !takeable(inp, p, j, c)
}

/// Both give every edge of the store criteria, and `x` gives no edge more
/// than `y`.
pub open spec fn crit_below(x: Seq<Seq<Set<nat>>>, y: Seq<Seq<Set<nat>>>) -> bool {
    &&& x.len() == y.len()
    &&& forall|p: int| 0 <= p < x.len() ==> (#[trigger] x[p]).len() == y[p].len()
    &&& forall|p: int, j: int|
        0 <= p < x.len() && 0 <= j < x[p].len() ==> (#[trigger] x[p][j]).subset_of(y[p][j])
}

/// Inputs that differ in the criteria of their edges alone, these growing,
/// grow.
pub proof fn lemma_crit_below_grows(a: Inputs, b: Inputs)
    requires
        a.wf(),
        b.table == a.table,
        b.graph == a.graph,
        b.store == a.store,
        b.policy == a.policy,
        b.assumed == a.assumed,
        crit_below(a.crit, b.crit),
    ensures
        b.wf(),
        store_grows(a, b),
{
    assert forall|p: int| 0 <= p < b.crit.len() implies (#[trigger] b.crit[p]).len()
        == b.store.packages[p].edges.len() by {
        assert(a.crit[p].len() == b.crit[p].len());
    }
    assert forall|n: int| 0 <= n < a.nodes() implies match #[trigger] a.package(n) {
        Some(q) => match b.package(n) {
            Some(t) => edges_extend(a, q, b, t),
            None => false,
        },
        None => true,
    } by {
        match a.package(n) {
            Some(q) => {
                assert(is_first(a.store.names(), a.name(n), q));
                assert(a.crit[q].len() == b.crit[q].len());
                assert(edges_in_front(a, q, b, q));
                lemma_in_front_extends(a, q, b, q);
            },
            None => {},
        }
    }
}

/// Where the edges count for less, and one more of them for nothing, a
/// resolution that fails still fails.
proof fn lemma_still_needed(a: Inputs, b: Inputs, p: int, j: int)
    requires
        a.wf(),
        b.table == a.table,
        b.graph == a.graph,
        b.store == a.store,
        b.policy == a.policy,
        b.assumed == a.assumed,
        crit_below(b.crit, a.crit),
        0 <= p < a.crit.len(),
        0 <= j < a.crit[p].len(),
        !passes(without(a, p, j)),
    ensures
        !passes(without(b, p, j)),
{
    let wa = without(a, p, j);
    let wb = without(b, p, j);
    assert(crit_below(wb.crit, wa.crit)) by {
        assert forall|q: int| 0 <= q < wb.crit.len() implies (#[trigger] wb.crit[q]).len()
            == wa.crit[q].len() by {
            assert(b.crit[q].len() == a.crit[q].len());
        }
        assert forall|q: int, i: int|
            0 <= q < wb.crit.len() && 0 <= i < wb.crit[q].len() implies (#[trigger] wb.crit[q][i]).subset_of(
            wa.crit[q][i],
        ) by {
            assert(b.crit[q].len() == a.crit[q].len());
            assert(b.crit[q][i].subset_of(a.crit[q][i]));
        }
    }
    assert(wb.wf()) by {
        assert forall|q: int| 0 <= q < wb.crit.len() implies (#[trigger] wb.crit[q]).len()
            == wb.store.packages[q].edges.len() by {
            assert(b.crit[q].len() == a.crit[q].len());
            assert(a.crit[q].len() == a.store.packages[q].edges.len());
        }
    }
    lemma_crit_below_grows(wb, wa);
    lemma_monotone(wb, wa);
}

/// Where the other edges count for less, a criterion that could not be
/// taken away from an edge still cannot.
proof fn lemma_still_settled(a: Inputs, b: Inputs, p: int, j: int)
    requires
        a.wf(),
        b.table == a.table,
        b.graph == a.graph,
        b.store == a.store,
        b.policy == a.policy,
        b.assumed == a.assumed,
        crit_below(b.crit, a.crit),
        0 <= p < a.crit.len(),
        0 <= j < a.crit[p].len(),
        b.crit[p][j] == a.crit[p][j],
        settled(a, p, j),
    ensures
        settled(b, p, j),
{
    assert forall|c: nat| c < b.table.count() implies !takeable(b, p, j, c) by {
        let rest = a.crit[p][j].remove(c);
        let na = narrowed(a, p, j, rest);
        let nb = narrowed(b, p, j, rest);
        assert(!takeable(a, p, j, c));
        if b.crit[p][j].contains(c) && b.table.closure(rest).subset_of(rest) {
            assert(!passes(na));
            assert(crit_below(nb.crit, na.crit)) by {
                assert forall|q: int| 0 <= q < nb.crit.len() implies (#[trigger] nb.crit[q]).len()
                    == na.crit[q].len() by {
                    assert(b.crit[q].len() == a.crit[q].len());
                }
                assert forall|q: int, i: int|
                    0 <= q < nb.crit.len() && 0 <= i < nb.crit[q].len() implies (
                #[trigger] nb.crit[q][i]).subset_of(na.crit[q][i]) by {
                    assert(b.crit[q].len() == a.crit[q].len());
                    assert(b.crit[q][i].subset_of(a.crit[q][i]));
                }
            }
            assert(nb.wf()) by {
                assert forall|q: int| 0 <= q < nb.crit.len() implies (#[trigger] nb.crit[q]).len()
                    == nb.store.packages[q].edges.len() by {
                    assert(b.crit[q].len() == a.crit[q].len());
                    assert(a.crit[q].len() == a.store.packages[q].edges.len());
                }
            }
            lemma_crit_below_grows(nb, na);
            lemma_monotone(nb, na);
        }
    }
}

/// The rows `cur` with the entry of edge `j` of package `p` replaced by
/// `s`.
pub fn with_entry(cur: &Vec<Vec<CriteriaSet>>, p: usize, j: usize, s: CriteriaSet) -> (r: Vec<
    Vec<CriteriaSet>,
>)
    requires
        p < cur.len(),
        j < cur[p as int].len(),
    ensures
        r.len() == cur.len(),
        forall|q: int| 0 <= q < r.len() ==> (#[trigger] r[q]).len() == cur[q].len(),
        forall|q: int, i: int|
            0 <= q < r.len() && 0 <= i < r[q].len() ==> #[trigger] r[q][i] == if q == p && i == j {
                s
            } else {
                cur[q][i]
            },
        crit_view(r@) == replaced(crit_view(cur@), p as int, j as int, s@),
{
    let mut r: Vec<Vec<CriteriaSet>> = Vec::new();
    let mut q: usize = 0;
    while q < cur.len()
        invariant
            q <= cur.len(),
            p < cur.len(),
            j < cur[p as int].len(),
            r.len() == q,
            forall|a: int| 0 <= a < q ==> (#[trigger] r[a]).len() == cur[a].len(),
            forall|a: int, i: int|
                0 <= a < q && 0 <= i < r[a].len() ==> #[trigger] r[a][i] == if a == p && i == j {
                    s
                } else {
                    cur[a][i]
                },
        decreases cur.len() - q,
    {
        let source = &cur[q];
        let mut row: Vec<CriteriaSet> = Vec::new();
        let mut i: usize = 0;
        while i < source.len()
            invariant
                i <= source.len(),
                q < cur.len(),
                *source == cur[q as int],
                row.len() == i,
                forall|b: int|
                    0 <= b < i ==> #[trigger] row[b] == if q == p && b == j {
                        s
                    } else {
                        source[b]
                    },
            decreases source.len() - i,
        {
            if q == p && i == j {
                row.push(s);
            } else {
                row.push(source[i]);
            }
            i += 1;
        }
        r.push(row);
        q += 1;
    }
    proof {
        let x = crit_view(r@);
        let y = replaced(crit_view(cur@), p as int, j as int, s@);
        assert forall|a: int| 0 <= a < x.len() implies #[trigger] x[a] =~= y[a] by {
            assert forall|i: int| 0 <= i < x[a].len() implies #[trigger] x[a][i] == y[a][i] by {
                assert(r[a][i] == if a == p && i == j {
                    s
                } else {
                    cur[a][i]
                });
                assert(sets_of(cur[a]@)[i] == cur[a][i]@);
            }
        }
        assert(x =~= y);
    }
    r
}

/// What the minimizer hands back for the criteria `given`: the exemptions
/// count for no more than before, everything else for the same; the
/// resolution still passes; no exemption that is left could go; and no
/// criterion could be taken away from one.
pub open spec fn minimized(inp: Inputs, given: Seq<Seq<Set<nat>>>, kept: Seq<Seq<Set<nat>>>) -> bool {
    let out = Inputs { crit: kept, ..inp };
    &&& crit_below(kept, given)
    &&& forall|p: int, j: int|
        0 <= p < kept.len() && 0 <= j < kept[p].len() && !is_exemption(inp.store, p, j)
            ==> #[trigger] kept[p][j] == given[p][j]
    &&& passes(out)
    &&& forall|p: int, j: int|
        0 <= p < kept.len() && 0 <= j < kept[p].len() && is_exemption(inp.store, p, j) && !(
        #[trigger] kept[p][j] =~= Set::<nat>::empty()) ==> !passes(without(out, p, j))
    &&& forall|p: int, j: int|
        0 <= p < kept.len() && 0 <= j < kept[p].len() && is_exemption(inp.store, p, j)
            ==> #[trigger] settled(out, p, j)
}

/// Edge `(a, b)` comes before edge `(p, j)`.
pub open spec fn earlier(a: int, b: int, p: int, j: int) -> bool {
    a < p || (a == p && b < j)
}

impl<'a> Problem<'a> {
    /// Removes the exemptions that are not needed for the resolution to
    /// pass. The exemptions are tried in the order of the store; one that
    /// must stay is narrowed, criterion by criterion, as far as the
    /// resolution still passes. Where the resolution does not pass to begin
    /// with, nothing is changed.
    pub fn minimize_exemptions(&self, crit: &Vec<Vec<CriteriaSet>>, assumed: &Vec<CriteriaSet>) -> (r: Vec<
        Vec<CriteriaSet>,
    >)
        requires
            self.inputs(crit@, assumed@).wf(),
        ensures
            passes(self.inputs(crit@, assumed@)) ==> minimized(
                self.inputs(crit@, assumed@),
                crit_view(crit@),
                crit_view(r@),
            ),
            !passes(self.inputs(crit@, assumed@)) ==> crit_view(r@) == crit_view(crit@),
            r.len() == crit.len(),
            forall|p: int| 0 <= p < r.len() ==> (#[trigger] r[p]).len() == crit[p].len(),
    {
        let ghost inp = self.inputs(crit@, assumed@);
        let ghost given = crit_view(crit@);
        let width = self.table.len();
        let mut cur = copy_rows(crit);
        assert(crit_view(cur@) =~= given) by {
            assert forall|q: int| 0 <= q < cur.len() implies #[trigger] crit_view(cur@)[q] =~= given[q] by {
                assert forall|i: int| 0 <= i < cur[q].len() implies sets_of(cur[q]@)[i] == sets_of(
                    crit[q]@,
                )[i] by {
                    assert(cur[q][i] == crit[q][i]);
                }
            }
        }
        if !self.resolve_with(&cur, assumed).passes() {
            return cur;
        }
        let mut p: usize = 0;
        while p < cur.len()
            invariant
                p <= cur.len(),
                inp == self.inputs(crit@, assumed@),
                inp.wf(),
                given == crit_view(crit@),
                width == self.table.count(),
                cur.len() == crit.len(),
                forall|q: int| 0 <= q < cur.len() ==> (#[trigger] cur[q]).len() == crit[q].len(),
                crit_below(crit_view(cur@), given),
                self.inputs(cur@, assumed@).wf(),
                passes(self.inputs(cur@, assumed@)),
                forall|a: int, b: int|
                    0 <= a < cur.len() && 0 <= b < cur[a].len() && !is_exemption(inp.store, a, b)
                        ==> #[trigger] crit_view(cur@)[a][b] == given[a][b],
                forall|a: int, b: int|
                    0 <= a < cur.len() && 0 <= b < cur[a].len() && earlier(a, b, p as int, 0)
                        && is_exemption(inp.store, a, b) && !(#[trigger] crit_view(cur@)[a][b]
                        =~= Set::<nat>::empty()) ==> !passes(without(self.inputs(cur@, assumed@), a, b)),
                forall|a: int, b: int|
                    0 <= a < cur.len() && 0 <= b < cur[a].len() && earlier(a, b, p as int, 0)
                        && is_exemption(inp.store, a, b) ==> #[trigger] settled(
                        self.inputs(cur@, assumed@),
                        a,
                        b,
                    ),
            decreases cur.len() - p,
        {
            let edges = &self.store.packages[p].edges;
            let mut j: usize = 0;
            while j < edges.len()
                invariant
                    j <= edges.len(),
                    p < cur.len(),
                    *edges == self.store.packages[p as int].edges,
                    inp == self.inputs(crit@, assumed@),
                    inp.wf(),
                    given == crit_view(crit@),
                    width == self.table.count(),
                    cur.len() == crit.len(),
                    forall|q: int| 0 <= q < cur.len() ==> (#[trigger] cur[q]).len() == crit[q].len(),
                    crit_below(crit_view(cur@), given),
                    self.inputs(cur@, assumed@).wf(),
                    passes(self.inputs(cur@, assumed@)),
                    forall|a: int, b: int|
                        0 <= a < cur.len() && 0 <= b < cur[a].len() && !is_exemption(inp.store, a, b)
                            ==> #[trigger] crit_view(cur@)[a][b] == given[a][b],
                    forall|a: int, b: int|
                        0 <= a < cur.len() && 0 <= b < cur[a].len() && earlier(a, b, p as int, j as int)
                            && is_exemption(inp.store, a, b) && !(#[trigger] crit_view(cur@)[a][b]
                            =~= Set::<nat>::empty()) ==> !passes(
                            without(self.inputs(cur@, assumed@), a, b),
                        ),
                    forall|a: int, b: int|
                        0 <= a < cur.len() && 0 <= b < cur[a].len() && earlier(a, b, p as int, j as int)
                            && is_exemption(inp.store, a, b) ==> #[trigger] settled(
                            self.inputs(cur@, assumed@),
                            a,
                            b,
                        ),
                decreases edges.len() - j,
            {
                assert(given[p as int].len() == edges.len()) by {
                    assert(inp.crit[p as int].len() == inp.store.packages[p as int].edges.len());
                }
                assert(cur[p as int].len() == edges.len()) by {
                    assert(crit_view(cur@)[p as int].len() == given[p as int].len());
                }
                let exempt = match edges[j].origin {
                    AuditOrigin::Exemption { .. } => true,
                    _ => false,
                };
                if exempt && !cur[p][j].is_empty() {
                    let none = CriteriaSet::empty();
                    let gone = with_entry(&cur, p, j, none);
                    proof {
                        self.lemma_step(crit, assumed, &cur, &gone, p, j, none);
                    }
                    if self.resolve_with(&gone, assumed).passes() {
                        proof {
                            self.lemma_accept(crit, assumed, &cur, &gone, p, j, none);
                        }
                        cur = gone;
                    } else {
                        proof {
                            assert(self.inputs(gone@, assumed@) == without(
                                self.inputs(cur@, assumed@),
                                p as int,
                                j as int,
                            ));
                        }
                        // The exemption must stay: narrow it, round after round,
                        // until a round takes nothing away. Every round that
                        // takes something away leaves a smaller word.
                        let mut changed = true;
                        while changed
                            invariant
                                j < edges.len(),
                                p < cur.len(),
                                *edges == self.store.packages[p as int].edges,
                                is_exemption(inp.store, p as int, j as int),
                                inp == self.inputs(crit@, assumed@),
                                inp.wf(),
                                given == crit_view(crit@),
                                width == self.table.count(),
                                cur.len() == crit.len(),
                                cur[p as int].len() == edges.len(),
                                forall|q: int|
                                    0 <= q < cur.len() ==> (#[trigger] cur[q]).len() == crit[q].len(),
                                crit_below(crit_view(cur@), given),
                                self.inputs(cur@, assumed@).wf(),
                                passes(self.inputs(cur@, assumed@)),
                                !passes(without(self.inputs(cur@, assumed@), p as int, j as int)),
                                forall|a: int, b: int|
                                    0 <= a < cur.len() && 0 <= b < cur[a].len() && !is_exemption(
                                        inp.store,
                                        a,
                                        b,
                                    ) ==> #[trigger] crit_view(cur@)[a][b] == given[a][b],
                                forall|a: int, b: int|
                                    0 <= a < cur.len() && 0 <= b < cur[a].len() && earlier(
                                        a,
                                        b,
                                        p as int,
                                        j as int,
                                    ) && is_exemption(inp.store, a, b) && !(#[trigger] crit_view(
                                        cur@,
                                    )[a][b] =~= Set::<nat>::empty()) ==> !passes(
                                        without(self.inputs(cur@, assumed@), a, b),
                                    ),
                                forall|a: int, b: int|
                                    0 <= a < cur.len() && 0 <= b < cur[a].len() && earlier(
                                        a,
                                        b,
                                        p as int,
                                        j as int,
                                    ) && is_exemption(inp.store, a, b) ==> #[trigger] settled(
                                        self.inputs(cur@, assumed@),
                                        a,
                                        b,
                                    ),
                                !changed ==> settled(self.inputs(cur@, assumed@), p as int, j as int),
                            decreases
                                    cur[p as int][j as int].bits,
                                    if changed {
                                        1int
                                    } else {
                                        0int
                                    },
                        {
                            changed = false;
                            let start = cur[p][j].bits;
                            let mut c: usize = 0;
                            while c < width
                                invariant
                                    c <= width,
                                    j < edges.len(),
                                    p < cur.len(),
                                    *edges == self.store.packages[p as int].edges,
                                    is_exemption(inp.store, p as int, j as int),
                                    inp == self.inputs(crit@, assumed@),
                                    inp.wf(),
                                    given == crit_view(crit@),
                                    width == self.table.count(),
                                    cur.len() == crit.len(),
                                    cur[p as int].len() == edges.len(),
                                    forall|q: int|
                                        0 <= q < cur.len() ==> (#[trigger] cur[q]).len() == crit[q].len(),
                                    crit_below(crit_view(cur@), given),
                                    self.inputs(cur@, assumed@).wf(),
                                    passes(self.inputs(cur@, assumed@)),
                                    !passes(without(self.inputs(cur@, assumed@), p as int, j as int)),
                                    forall|a: int, b: int|
                                        0 <= a < cur.len() && 0 <= b < cur[a].len() && !is_exemption(
                                            inp.store,
                                            a,
                                            b,
                                        ) ==> #[trigger] crit_view(cur@)[a][b] == given[a][b],
                                    forall|a: int, b: int|
                                        0 <= a < cur.len() && 0 <= b < cur[a].len() && earlier(
                                            a,
                                            b,
                                            p as int,
                                            j as int,
                                        ) && is_exemption(inp.store, a, b) && !(#[trigger] crit_view(
                                            cur@,
                                        )[a][b] =~= Set::<nat>::empty()) ==> !passes(
                                            without(self.inputs(cur@, assumed@), a, b),
                                        ),
                                    forall|a: int, b: int|
                                        0 <= a < cur.len() && 0 <= b < cur[a].len() && earlier(
                                            a,
                                            b,
                                            p as int,
                                            j as int,
                                        ) && is_exemption(inp.store, a, b) ==> #[trigger] settled(
                                            self.inputs(cur@, assumed@),
                                            a,
                                            b,
                                        ),
                                    cur[p as int][j as int].bits <= start,
                                    changed ==> cur[p as int][j as int].bits < start,
                                    !changed ==> forall|d: nat|
                                        d < c ==> !takeable(
                                            self.inputs(cur@, assumed@),
                                            p as int,
                                            j as int,
                                            d,
                                        ),
                                decreases width - c,
                            {
                                let held = cur[p][j];
                                let ghost here = self.inputs(cur@, assumed@);
                                let ghost was = changed;
                                proof {
                                    assert(width <= 64);
                                    assert(here.crit[p as int][j as int] == held@);
                                }
                                if held.contains(c) {
                                    let less = held.difference(&CriteriaSet::single(c));
                                    let closed = self.table.close(&less);
                                    proof {
                                        assert(less@ =~= held@.remove(c as nat));
                                        lemma_bits_clear(held.bits, c as nat);
                                    }
                                    if closed.is_subset(&less) {
                                        let narrow = with_entry(&cur, p, j, less);
                                        proof {
                                            assert(less@.subset_of(held@));
                                            self.lemma_step(crit, assumed, &cur, &narrow, p, j, less);
                                            assert(self.inputs(narrow@, assumed@) == narrowed(
                                                here,
                                                p as int,
                                                j as int,
                                                less@,
                                            ));
                                        }
                                        if self.resolve_with(&narrow, assumed).passes() {
                                            proof {
                                                self.lemma_accept(
                                                    crit,
                                                    assumed,
                                                    &cur,
                                                    &narrow,
                                                    p,
                                                    j,
                                                    less,
                                                );
                                                let before = self.inputs(cur@, assumed@);
                                                let after = self.inputs(narrow@, assumed@);
                                                lemma_still_needed(before, after, p as int, j as int);
                                            }
                                            cur = narrow;
                                            changed = true;
                                        }
                                    }
                                }
                                proof {
                                    if !changed {
                                        assert(!takeable(here, p as int, j as int, c as nat));
                                        assert forall|d: nat| d < c + 1 implies !takeable(
                                            self.inputs(cur@, assumed@),
                                            p as int,
                                            j as int,
                                            d,
                                        ) by {}
                                    }
                                }
                                c += 1;
                            }
                        }
                    }
                }
                proof {
                    assert forall|a: int, b: int|
                        0 <= a < cur.len() && 0 <= b < cur[a].len() && earlier(a, b, p as int, j + 1)
                            && is_exemption(inp.store, a, b) && !(#[trigger] crit_view(cur@)[a][b]
                            =~= Set::<nat>::empty()) implies !passes(
                        without(self.inputs(cur@, assumed@), a, b),
                    ) by {
                        if a == p && b == j {
                            assert(crit_view(cur@)[a][b] == cur[a][b]@);
                        }
                    }
                    assert forall|a: int, b: int|
                        0 <= a < cur.len() && 0 <= b < cur[a].len() && earlier(a, b, p as int, j + 1)
                            && is_exemption(inp.store, a, b) implies #[trigger] settled(
                        self.inputs(cur@, assumed@),
                        a,
                        b,
                    ) by {
                        if a == p && b == j {
                            assert(crit_view(cur@)[a][b] == cur[a][b]@);
                            if cur[a][b]@ =~= Set::<nat>::empty() {
                                assert(settled(self.inputs(cur@, assumed@), a, b));
                            }
                        }
                    }
                }
                j += 1;
            }
            proof {
                assert(cur[p as int].len() == edges.len()) by {
                    assert(inp.crit[p as int].len() == inp.store.packages[p as int].edges.len());
                    assert(crit_view(cur@)[p as int].len() == given[p as int].len());
                }
            }
            p += 1;
        }
        proof {
            let kept = crit_view(cur@);
            let out = Inputs { crit: kept, ..inp };
            assert(out == self.inputs(cur@, assumed@));
        }
        cur
    }

    /// Replacing one entry of rows that lie below the given ones by less
    /// gives rows that lie below them again, and below the rows before.
    proof fn lemma_step(
        &self,
        crit: &Vec<Vec<CriteriaSet>>,
        assumed: &Vec<CriteriaSet>,
        cur: &Vec<Vec<CriteriaSet>>,
        next: &Vec<Vec<CriteriaSet>>,
        p: usize,
        j: usize,
        s: CriteriaSet,
    )
        requires
            self.inputs(crit@, assumed@).wf(),
            self.inputs(cur@, assumed@).wf(),
            crit_below(crit_view(cur@), crit_view(crit@)),
            p < cur.len(),
            j < cur[p as int].len(),
            s@.subset_of(cur[p as int][j as int]@),
            crit_view(next@) == replaced(crit_view(cur@), p as int, j as int, s@),
        ensures
            crit_below(crit_view(next@), crit_view(cur@)),
            crit_below(crit_view(next@), crit_view(crit@)),
            self.inputs(next@, assumed@).wf(),
    {
        let x = crit_view(next@);
        let y = crit_view(cur@);
        let z = crit_view(crit@);
        assert(y[p as int][j as int] == cur[p as int][j as int]@);
        assert forall|q: int| 0 <= q < x.len() implies (#[trigger] x[q]).len() == y[q].len() by {}
        assert forall|q: int, i: int| 0 <= q < x.len() && 0 <= i < x[q].len() implies (#[trigger] x[q][i]).subset_of(
            y[q][i],
        ) by {}
        assert forall|q: int| 0 <= q < x.len() implies (#[trigger] x[q]).len() == z[q].len() by {
            assert(y[q].len() == z[q].len());
        }
        assert forall|q: int, i: int| 0 <= q < x.len() && 0 <= i < x[q].len() implies (#[trigger] x[q][i]).subset_of(
            z[q][i],
        ) by {
            assert(y[q].len() == z[q].len());
            assert(y[q][i].subset_of(z[q][i]));
        }
        lemma_crit_below_grows(self.inputs(next@, assumed@), self.inputs(cur@, assumed@));
        let n = self.inputs(next@, assumed@);
        let c = self.inputs(cur@, assumed@);
        assert forall|q: int| 0 <= q < n.crit.len() implies (#[trigger] n.crit[q]).len()
            == n.store.packages[q].edges.len() by {
            assert(c.crit[q].len() == c.store.packages[q].edges.len());
        }
    }

    /// Taking the rows `next` in place of `cur` keeps what is known of the
    /// edges looked at before.
    proof fn lemma_accept(
        &self,
        crit: &Vec<Vec<CriteriaSet>>,
        assumed: &Vec<CriteriaSet>,
        cur: &Vec<Vec<CriteriaSet>>,
        next: &Vec<Vec<CriteriaSet>>,
        p: usize,
        j: usize,
        s: CriteriaSet,
    )
        requires
            self.inputs(crit@, assumed@).wf(),
            self.inputs(cur@, assumed@).wf(),
            self.inputs(next@, assumed@).wf(),
            p < cur.len(),
            j < cur[p as int].len(),
            is_exemption(self.inputs(crit@, assumed@).store, p as int, j as int),
            crit_below(crit_view(next@), crit_view(cur@)),
            crit_view(next@) == replaced(crit_view(cur@), p as int, j as int, s@),
            next.len() == cur.len(),
            forall|q: int| 0 <= q < next.len() ==> (#[trigger] next[q]).len() == cur[q].len(),
            forall|a: int, b: int|
                0 <= a < cur.len() && 0 <= b < cur[a].len() && !is_exemption(
                    self.inputs(crit@, assumed@).store,
                    a,
                    b,
                ) ==> #[trigger] crit_view(cur@)[a][b] == crit_view(crit@)[a][b],
            forall|a: int, b: int|
                0 <= a < cur.len() && 0 <= b < cur[a].len() && earlier(a, b, p as int, j as int)
                    && is_exemption(self.inputs(crit@, assumed@).store, a, b) && !(
                #[trigger] crit_view(cur@)[a][b] =~= Set::<nat>::empty()) ==> !passes(
                    without(self.inputs(cur@, assumed@), a, b),
                ),
            forall|a: int, b: int|
                0 <= a < cur.len() && 0 <= b < cur[a].len() && earlier(a, b, p as int, j as int)
                    && is_exemption(self.inputs(crit@, assumed@).store, a, b) ==> #[trigger] settled(
                    self.inputs(cur@, assumed@),
                    a,
                    b,
                ),
        ensures
            forall|a: int, b: int|
                0 <= a < next.len() && 0 <= b < next[a].len() && !is_exemption(
                    self.inputs(crit@, assumed@).store,
                    a,
                    b,
                ) ==> #[trigger] crit_view(next@)[a][b] == crit_view(crit@)[a][b],
            forall|a: int, b: int|
                0 <= a < next.len() && 0 <= b < next[a].len() && earlier(a, b, p as int, j as int)
                    && is_exemption(self.inputs(crit@, assumed@).store, a, b) && !(
                #[trigger] crit_view(next@)[a][b] =~= Set::<nat>::empty()) ==> !passes(
                    without(self.inputs(next@, assumed@), a, b),
                ),
            forall|a: int, b: int|
                0 <= a < next.len() && 0 <= b < next[a].len() && earlier(a, b, p as int, j as int)
                    && is_exemption(self.inputs(crit@, assumed@).store, a, b) ==> #[trigger] settled(
                    self.inputs(next@, assumed@),
                    a,
                    b,
                ),
    {
        let x = crit_view(next@);
        let y = crit_view(cur@);
        assert forall|a: int, b: int|
            0 <= a < next.len() && 0 <= b < next[a].len() && !is_exemption(
                self.inputs(crit@, assumed@).store,
                a,
                b,
            ) implies #[trigger] x[a][b] == crit_view(crit@)[a][b] by {
            assert(y[a][b] == crit_view(crit@)[a][b]);
        }
        assert forall|a: int, b: int|
            0 <= a < next.len() && 0 <= b < next[a].len() && earlier(a, b, p as int, j as int)
                && is_exemption(self.inputs(crit@, assumed@).store, a, b) && !(#[trigger] x[a][b]
                =~= Set::<nat>::empty()) implies !passes(without(self.inputs(next@, assumed@), a, b)) by {
            assert(x[a][b] == y[a][b]);
            assert(!(y[a][b] =~= Set::<nat>::empty()));
            assert(y[a].len() == cur[a].len());
            lemma_still_needed(self.inputs(cur@, assumed@), self.inputs(next@, assumed@), a, b);
        }
        assert forall|a: int, b: int|
            0 <= a < next.len() && 0 <= b < next[a].len() && earlier(a, b, p as int, j as int)
                && is_exemption(self.inputs(crit@, assumed@).store, a, b) implies #[trigger] settled(
            self.inputs(next@, assumed@),
            a,
            b,
        ) by {
            assert(x[a][b] == y[a][b]);
            assert(y[a].len() == cur[a].len());
            assert(settled(self.inputs(cur@, assumed@), a, b));
            lemma_still_settled(self.inputs(cur@, assumed@), self.inputs(next@, assumed@), a, b);
        }
    }
}

/// A copy of the rows.
pub fn copy_rows(rows: &Vec<Vec<CriteriaSet>>) -> (r: Vec<Vec<CriteriaSet>>)
    ensures
        r.len() == rows.len(),
        forall|q: int| 0 <= q < r.len() ==> (#[trigger] r[q]).len() == rows[q].len(),
        forall|q: int, i: int| 0 <= q < r.len() && 0 <= i < r[q].len() ==> #[trigger] r[q][i] == rows[q][i],
{
    let mut r: Vec<Vec<CriteriaSet>> = Vec::new();
    let mut q: usize = 0;
    while q < rows.len()
        invariant
            q <= rows.len(),
            r.len() == q,
            forall|a: int| 0 <= a < q ==> (#[trigger] r[a]).len() == rows[a].len(),
            forall|a: int, i: int| 0 <= a < q && 0 <= i < r[a].len() ==> #[trigger] r[a][i] == rows[a][i],
        decreases rows.len() - q,
    {
        let source = &rows[q];
        let mut row: Vec<CriteriaSet> = Vec::new();
        let mut i: usize = 0;
        while i < source.len()
            invariant
                i <= source.len(),
                row.len() == i,
                forall|b: int| 0 <= b < i ==> #[trigger] row[b] == source[b],
            decreases source.len() - i,
        {
            row.push(source[i]);
            i += 1;
        }
        r.push(row);
        q += 1;
    }
    r
}

/// Minimizer correctness: every exemption that the minimizer has dropped
/// could be dropped from what was given: without it the resolution passes.
pub proof fn lemma_dropped_was_redundant(inp: Inputs, kept: Seq<Seq<Set<nat>>>, p: int, j: int)
    requires
        inp.wf(),
        minimized(inp, inp.crit, kept),
        0 <= p < kept.len(),
        0 <= j < kept[p].len(),
        kept[p][j] =~= Set::<nat>::empty(),
    ensures
        passes(without(inp, p, j)),
{
    let out = Inputs { crit: kept, ..inp };
    let rest = without(inp, p, j);
    assert(crit_below(out.crit, rest.crit)) by {
        assert forall|q: int| 0 <= q < out.crit.len() implies (#[trigger] out.crit[q]).len()
            == rest.crit[q].len() by {
            assert(kept[q].len() == inp.crit[q].len());
        }
        assert forall|q: int, i: int|
            0 <= q < out.crit.len() && 0 <= i < out.crit[q].len() implies (
        #[trigger] out.crit[q][i]).subset_of(rest.crit[q][i]) by {
            assert(kept[q].len() == inp.crit[q].len());
            assert(kept[q][i].subset_of(inp.crit[q][i]));
        }
    }
    assert(out.wf()) by {
        assert forall|q: int| 0 <= q < out.crit.len() implies (#[trigger] out.crit[q]).len()
            == out.store.packages[q].edges.len() by {
            assert(kept[q].len() == inp.crit[q].len());
            assert(inp.crit[q].len() == inp.store.packages[q].edges.len());
        }
    }
    lemma_crit_below_grows(out, rest);
    lemma_monotone(out, rest);
}

} // verus!
