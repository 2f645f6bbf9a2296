//! Choosing among the audits that could be made: the cheapest first.

use vstd::prelude::*;
use vstd::string::*;
use crate::model::{Version, VersionView};
use crate::suggest::Candidate;
use crate::text::{decimal, push_decimal};

verus! {

/// The changes from one version of a package to another.
#[derive(Clone, Debug, PartialEq, Eq, Hash)]
pub struct Delta {
    pub from: Version,
    pub to: Version,
}

/// The size of a diff: the summary as the diff tool gave it, and the number
/// of lines changed.
#[derive(Debug)]
pub struct DiffStat {
    pub raw: String,
    pub count: u64,
}

/// The diff that is recommended for review.
#[derive(Debug)]
pub struct DiffRecommendation {
    pub from: Version,
    pub to: Version,
    pub diffstat: DiffStat,
}

/// The size that a diff is given where no sources are at hand: a package is
/// taken to grow with the square of its major version number.
pub open spec fn mock_growth(delta: Delta) -> int {
    delta.to.major * delta.to.major - delta.from.major * delta.from.major
}

/// The number of lines of the diff that stands in for a real one.
pub open spec fn mock_count(delta: Delta) -> int {
    if mock_growth(delta) < 0 {
        -mock_growth(delta)
    } else {
        mock_growth(delta)
    }
}

/// The summary of the diff that stands in for a real one: the growth with
/// its sign.
pub open spec fn mock_raw(delta: Delta) -> Seq<char> {
    if mock_growth(delta) < 0 {
        seq!['-'] + decimal(mock_count(delta) as nat)
    } else {
        seq!['+'] + decimal(mock_count(delta) as nat)
    }
}

/// The size of the stand-in diff; none where it does not fit into 64 bits.
pub fn mock_diffstat(delta: &Delta) -> (r: Option<DiffStat>)
    ensures
        match r {
            Some(stat) => stat.count == mock_count(*delta) && stat.raw@ == mock_raw(*delta),
            None => mock_count(*delta) > u64::MAX,
        },
{
    let a = delta.from.major as u128;
    let b = delta.to.major as u128;
    assert(a * a <= 0xffff_ffff_ffff_ffff * 0xffff_ffff_ffff_ffff) by (nonlinear_arith)
        requires
            a <= 0xffff_ffff_ffff_ffff,
    ;
    assert(b * b <= 0xffff_ffff_ffff_ffff * 0xffff_ffff_ffff_ffff) by (nonlinear_arith)
        requires
            b <= 0xffff_ffff_ffff_ffff,
    ;
    let from_len = a * a;
    let to_len = b * b;
    let shrinks = to_len < from_len;
    let wide: u128 = if shrinks {
        from_len - to_len
    } else {
        to_len - from_len
    };
    if wide > u64::MAX as u128 {
        return None;
    }
    let count = wide as u64;
    proof {
        reveal_strlit("-");
        reveal_strlit("+");
        assert("-"@ =~= seq!['-']);
        assert("+"@ =~= seq!['+']);
    }
    let mut raw = if shrinks {
        String::from_str("-")
    } else {
        String::from_str("+")
    };
    push_decimal(&mut raw, count);
    Some(DiffStat { raw, count })
}

/// Diff `i` is to be reviewed rather than diff `j`: it is smaller, or as
/// large and starts from the newer version.
pub open spec fn smaller_diff(deltas: Seq<Delta>, counts: Seq<u64>, i: int, j: int) -> bool {
    counts[i] < counts[j] || (counts[i] == counts[j] && deltas[j].from.before(deltas[i].from))
}

/// The diff to recommend among the first `n`: the first diff, until a later
/// one is to be reviewed rather than the one held so far. The order of
/// versions is that of the outside comparison, so the choice is stated as
/// the scan that makes it.
pub open spec fn best_among(deltas: Seq<Delta>, counts: Seq<u64>, n: int) -> int
    decreases n,
{
    if n <= 1 {
        0
    } else {
        let held = best_among(deltas, counts, n - 1);
        if smaller_diff(deltas, counts, n - 1, held) {
            n - 1
        } else {
            held
        }
    }
}

/// Diff `i` is the one to recommend.
pub open spec fn recommended(deltas: Seq<Delta>, counts: Seq<u64>, i: int) -> bool {
    0 <= i < deltas.len() && i == best_among(deltas, counts, deltas.len() as int)
}

/// The diff to recommend: the smallest; of several that are smallest, the
/// one from the newest version; of several of those, the first.
pub fn best_recommendation(deltas: &Vec<Delta>, counts: &Vec<u64>) -> (r: Option<usize>)
    requires
        counts.len() == deltas.len(),
    ensures
        match r {
            Some(i) => recommended(deltas@, counts@, i as int) && forall|k: int|
                0 <= k < counts.len() ==> counts[i as int] <= #[trigger] counts[k],
            None => deltas.len() == 0,
        },
{
    if deltas.len() == 0 {
        return None;
    }
    let mut best: usize = 0;
    let mut j: usize = 1;
    while j < deltas.len()
        invariant
            1 <= j <= deltas.len(),
            counts.len() == deltas.len(),
            best < j,
            best == best_among(deltas@, counts@, j as int),
            forall|k: int| 0 <= k < j ==> counts[best as int] <= #[trigger] counts[k],
        decreases deltas.len() - j,
    {
        if counts[j] < counts[best] || (counts[j] == counts[best] && deltas[best].from.is_before(
            &deltas[j].from,
        )) {
            best = j;
        }
        j += 1;
    }
    Some(best)
}

/// The sizes of the diffs.
pub open spec fn stat_counts(stats: Seq<DiffStat>) -> Seq<u64> {
    Seq::new(stats.len(), |i: int| stats[i].count)
}

/// The recommendation among the diffs whose sizes are known: the diff to
/// recommend, with its size; none where there is no diff.
pub fn recommend(deltas: &Vec<Delta>, stats: Vec<DiffStat>) -> (r: Option<DiffRecommendation>)
    requires
        stats.len() == deltas.len(),
    ensures
        match r {
            Some(rec) => exists|i: int|
                #![trigger deltas[i]]
                recommended(deltas@, stat_counts(stats@), i) && rec.from == deltas[i].from && rec.to
                    == deltas[i].to && rec.diffstat == stats[i] && forall|k: int|
                    0 <= k < stats.len() ==> stats[i].count <= (#[trigger] stats[k]).count,
            None => deltas.len() == 0,
        },
{
    let mut counts: Vec<u64> = Vec::new();
    let mut i: usize = 0;
    while i < stats.len()
        invariant
            i <= stats.len(),
            counts.len() == i,
            forall|k: int| 0 <= k < i ==> counts[k] == stats[k].count,
        decreases stats.len() - i,
    {
        counts.push(stats[i].count);
        i += 1;
    }
    assert(counts@ =~= stat_counts(stats@));
    let ghost given = stats@;
    match best_recommendation(deltas, &counts) {
        None => None,
        Some(best) => {
            let mut rest = stats;
            let diffstat = rest.swap_remove(best);
            let rec = DiffRecommendation {
                from: deltas[best].from.copy(),
                to: deltas[best].to.copy(),
                diffstat,
            };
            assert forall|k: int| 0 <= k < given.len() implies given[best as int].count <= (
            #[trigger] given[k]).count by {
                assert(counts[k] == given[k].count);
            }
            assert(recommended(deltas@, stat_counts(stats@), best as int) && rec.from
                == deltas[best as int].from);
            Some(rec)
        },
    }
}

// ---------------------------------------------------------------------------
// The cache of diff sizes
// ---------------------------------------------------------------------------
/// The size of one diff of one package, as it was found before.
#[derive(Debug)]
pub struct CachedDiff {
    pub package: String,
    pub delta: Delta,
    pub stat: DiffStat,
}

/// The sizes of the diffs that were found before. No diff of a package
/// stands in it twice.
#[derive(Debug)]
pub struct DiffCache {
    pub entries: Vec<CachedDiff>,
}

/// Two deltas are the same delta: they lead from the same version to the
/// same version.
pub open spec fn same_delta(a: Delta, b: Delta) -> bool {
    a.from@ == b.from@ && a.to@ == b.to@
}

impl DiffCache {
    /// Entry `i` tells of the diff `delta` of `package`.
    pub open spec fn tells(&self, i: int, package: Seq<char>, delta: Delta) -> bool {
        0 <= i < self.entries.len() && self.entries[i].package@ == package && same_delta(
            self.entries[i].delta,
            delta,
        )
    }

    /// The cache knows the size of the diff.
    pub open spec fn knows(&self, package: Seq<char>, delta: Delta) -> bool {
        exists|i: int| self.tells(i, package, delta)
    }

    /// No diff of a package stands in the cache twice.
    pub open spec fn wf(&self) -> bool {
        forall|i: int, j: int|
            0 <= i < j < self.entries.len() ==> !(self.entries[i].package@ == self.entries[j].package@
                && same_delta(self.entries[i].delta, self.entries[j].delta))
    }

    /// The empty cache.
    pub fn new() -> (r: DiffCache)
        ensures
            r.entries.len() == 0,
            r.wf(),
    {
        DiffCache { entries: Vec::new() }
    }

    /// Where the size of the diff stands in the cache.
    pub fn find(&self, package: &String, delta: &Delta) -> (r: Option<usize>)
        ensures
            match r {
                Some(i) => self.tells(i as int, package@, *delta),
                None => !self.knows(package@, *delta),
            },
    {
        let mut i: usize = 0;
        while i < self.entries.len()
            invariant
                i <= self.entries.len(),
                forall|k: int| 0 <= k < i ==> !self.tells(k, package@, *delta),
            decreases self.entries.len() - i,
        {
            if self.entries[i].package == *package && self.entries[i].delta.from.same(&delta.from)
                && self.entries[i].delta.to.same(&delta.to) {
                return Some(i);
            }
            i += 1;
        }
        None
    }

    /// Writes the size of a diff back: where the cache does not know the
    /// diff, the size is added at the end; where it does, nothing changes.
    pub fn insert(&mut self, package: &String, delta: Delta, stat: DiffStat)
        requires
            old(self).wf(),
        ensures
            final(self).wf(),
            final(self).knows(package@, delta),
            old(self).knows(package@, delta) ==> final(self).entries == old(self).entries,
            !old(self).knows(package@, delta) ==> final(self).entries@ == old(self).entries@.push(
                final(self).entries@.last(),
            ) && final(self).entries@.last().package@ == package@ && final(self).entries@.last().delta
                == delta && final(self).entries@.last().stat == stat,
    {
        match self.find(package, &delta) {
            Some(i) => {
                assert(self.tells(i as int, package@, delta));
            },
            None => {
                let ghost before = *self;
                self.entries.push(CachedDiff { package: package.clone(), delta, stat });
                proof {
                    let last = self.entries.len() - 1;
                    assert(self.tells(last, package@, delta));
                    assert forall|i: int, j: int| 0 <= i < j < self.entries.len() implies !(
                    self.entries[i].package@ == self.entries[j].package@ && same_delta(
                        self.entries[i].delta,
                        self.entries[j].delta,
                    )) by {
                        if j == last {
                            assert(!before.tells(i, package@, delta));
                            assert(self.entries[i] == before.entries[i]);
                        } else {
                            assert(self.entries[i] == before.entries[i]);
                            assert(self.entries[j] == before.entries[j]);
                        }
                    }
                    assert(self.entries@ =~= before.entries@.push(self.entries@.last()));
                }
            },
        }
    }
}

/// Version `v` is an end of one of the first `upto` diffs that the cache
/// does not know.
pub open spec fn to_fetch(
    cache: DiffCache,
    package: Seq<char>,
    deltas: Seq<Delta>,
    upto: int,
    v: VersionView,
) -> bool {
    exists|d: int|
        0 <= d < upto && !cache.knows(package, #[trigger] deltas[d]) && (deltas[d].from@ == v
            || deltas[d].to@ == v)
}

/// What the versions of a list hold.
pub open spec fn version_views(list: Seq<Version>) -> Seq<VersionView> {
    Seq::new(list.len(), |k: int| list[k]@)
}

/// No version stands in the list twice.
pub open spec fn each_once(list: Seq<Version>) -> bool {
    forall|a: int, b: int| 0 <= a < b < list.len() ==> list[a]@ != list[b]@
}

/// The versions whose sources are needed to find the sizes of the diffs
/// that the cache does not know: both ends of every such diff, each version
/// once.
pub fn versions_to_fetch(cache: &DiffCache, package: &String, deltas: &Vec<Delta>) -> (r: Vec<Version>)
    ensures
        each_once(r@),
        forall|v: VersionView|
            version_views(r@).contains(v) == to_fetch(*cache, package@, deltas@, deltas.len() as int, v),
{
    let mut out: Vec<Version> = Vec::new();
    let mut d: usize = 0;
    assert forall|v: VersionView| !version_views(out@).contains(v) by {}
    while d < deltas.len()
        invariant
            d <= deltas.len(),
            each_once(out@),
            forall|v: VersionView|
                version_views(out@).contains(v) == to_fetch(*cache, package@, deltas@, d as int, v),
        decreases deltas.len() - d,
    {
        let delta = &deltas[d];
        let ghost before = version_views(out@);
        let known = cache.find(package, delta).is_some();
        if !known {
            push_new(&mut out, delta.from.copy());
            push_new(&mut out, delta.to.copy());
        }
        proof {
            assert forall|v: VersionView|
                version_views(out@).contains(v) == to_fetch(*cache, package@, deltas@, d + 1, v) by {
                let here = !known && (delta.from@ == v || delta.to@ == v);
                assert(version_views(out@).contains(v) == (before.contains(v) || here));
                assert(before.contains(v) == to_fetch(*cache, package@, deltas@, d as int, v));
                if to_fetch(*cache, package@, deltas@, d as int, v) {
                    let k = choose|k: int|
                        0 <= k < d && !cache.knows(package@, #[trigger] deltas[k]) && (deltas[k].from@
                            == v || deltas[k].to@ == v);
                    assert(0 <= k < d + 1);
                }
                if here {
                    assert(!cache.knows(package@, deltas[d as int]));
                }
                if to_fetch(*cache, package@, deltas@, d + 1, v) {
                    let k = choose|k: int|
                        0 <= k < d + 1 && !cache.knows(package@, #[trigger] deltas[k]) && (deltas[k].from@
                            == v || deltas[k].to@ == v);
                    if k < d {
                        assert(to_fetch(*cache, package@, deltas@, d as int, v));
                    }
                }
            }
        }
        d += 1;
    }
    out
}

/// Adds a version to the list unless it stands in it.
#[verifier::loop_isolation(false)]
fn push_new(list: &mut Vec<Version>, v: Version)
    requires
        each_once(old(list)@),
    ensures
        each_once(final(list)@),
        forall|w: VersionView|
            version_views(final(list)@).contains(w) == (version_views(old(list)@).contains(w) || w
                == v@),
{
    let ghost before = version_views(list@);
    let mut i: usize = 0;
    while i < list.len()
        invariant
            i <= list.len(),
            *list == *old(list),
            forall|k: int| 0 <= k < i ==> list[k]@ != v@,
        decreases list.len() - i,
    {
        if list[i].same(&v) {
            assert(before[i as int] == v@);
            return ;
        }
        i += 1;
    }
    list.push(v);
    proof {
        let after = version_views(list@);
        assert(after[list.len() - 1] == v@);
        assert forall|w: VersionView| after.contains(w) == (before.contains(w) || w == v@) by {
            if before.contains(w) {
                let k = choose|k: int| 0 <= k < before.len() && before[k] == w;
                assert(after[k] == w);
            }
            if after.contains(w) {
                let k = choose|k: int| 0 <= k < after.len() && after[k] == w;
                if k < before.len() {
                    assert(before[k] == w);
                }
            }
        }
    }
}

/// What a candidate is taken to cost: what the list of costs says, or
/// nothing where the list is too short.
pub open spec fn cost_at(costs: Seq<Option<u64>>, i: int) -> Option<u64> {
    if 0 <= i < costs.len() {
        costs[i]
    } else {
        None
    }
}

/// How a candidate ranks before its cost is looked at: first the delta
/// audits of known cost, then the full audits, last the delta audits whose
/// cost is not known.
pub open spec fn rank(c: Candidate, cost: Option<u64>) -> int {
    if c.from is None {
        1
    } else if cost is Some {
        0
    } else {
        2
    }
}

/// Candidate `i` is to be preferred to candidate `j`: it ranks before it;
/// or it ranks the same and costs less; or it ranks and costs the same and
/// starts from a newer version.
pub open spec fn preferred(list: Seq<Candidate>, costs: Seq<Option<u64>>, i: int, j: int) -> bool {
    let ri = rank(list[i], cost_at(costs, i));
    let rj = rank(list[j], cost_at(costs, j));
    let ci = match cost_at(costs, i) {
        Some(c) => c as int,
        None => -1,
    };
    let cj = match cost_at(costs, j) {
        Some(c) => c as int,
        None => -1,
    };
    ri < rj || (ri == rj && (ci < cj || (ci == cj && match (list[i].from, list[j].from) {
        (Some(a), Some(b)) => b.before(a),
        _ => false,
    })))
}

/// The candidate to suggest for `node` among the first `n`: the first
/// candidate for the node, until a later one for the node is to be
/// preferred to the one held so far. The order of versions is that of the
/// outside comparison, so the choice is stated as the scan that makes it.
pub open spec fn chosen_among(list: Seq<Candidate>, costs: Seq<Option<u64>>, node: usize, n: int) -> Option<
    int,
>
    decreases n,
{
    if n <= 0 {
        None
    } else {
        let held = chosen_among(list, costs, node, n - 1);
        if list[n - 1].node != node {
            held
        } else {
            match held {
                None => Some(n - 1),
                Some(k) => if preferred(list, costs, n - 1, k) {
                    Some(n - 1)
                } else {
                    Some(k)
                },
            }
        }
    }
}

/// Candidate `i` is the one to suggest for its node.
pub open spec fn suggested(list: Seq<Candidate>, costs: Seq<Option<u64>>, i: int) -> bool {
    0 <= i < list.len() && chosen_among(list, costs, list[i].node, list.len() as int) == Some(i)
}

/// The node occurs in the list at position `a` first.
pub open spec fn first_with(list: Seq<Candidate>, a: int, node: usize) -> bool {
    &&& 0 <= a < list.len()
    &&& list[a].node == node
    &&& forall|b: int| 0 <= b < a ==> list[b].node != node
}

/// The position at which the node first occurs in the list.
pub open spec fn first_pos(list: Seq<Candidate>, node: usize) -> int {
    choose|a: int| first_with(list, a, node)
}

/// Where a node first occurs at a position, that is its first position.
pub proof fn lemma_first_pos(list: Seq<Candidate>, a: int, node: usize)
    requires
        first_with(list, a, node),
    ensures
        first_pos(list, node) == a,
{
    let c = first_pos(list, node);
    assert(first_with(list, c, node));
    if c < a {
        assert(list[c].node != node);
    }
    if a < c {
        assert(list[a].node != node);
    }
}

/// Whether candidate `i` is to be preferred to candidate `j`.
fn is_preferred(list: &Vec<Candidate>, costs: &Vec<Option<u64>>, i: usize, j: usize) -> (r: bool)
    requires
        i < list.len(),
        j < list.len(),
    ensures
        r == preferred(list@, costs@, i as int, j as int),
{
    let cost_i: Option<u64> = if i < costs.len() {
        costs[i]
    } else {
        None
    };
    let cost_j: Option<u64> = if j < costs.len() {
        costs[j]
    } else {
        None
    };
    let rank_i: u8 = if list[i].from.is_none() {
        1
    } else if cost_i.is_some() {
        0
    } else {
        2
    };
    let rank_j: u8 = if list[j].from.is_none() {
        1
    } else if cost_j.is_some() {
        0
    } else {
        2
    };
    if rank_i != rank_j {
        return rank_i < rank_j;
    }
    let cheaper = match (cost_i, cost_j) {
        (Some(a), Some(b)) => a < b,
        (None, Some(_)) => true,
        _ => false,
    };
    if cheaper {
        return true;
    }
    let same = match (cost_i, cost_j) {
        (Some(a), Some(b)) => a == b,
        (None, None) => true,
        _ => false,
    };
    if !same {
        return false;
    }
    match (&list[i].from, &list[j].from) {
        (Some(a), Some(b)) => b.is_before(a),
        _ => false,
    }
}

/// The candidates to suggest: for every node that has candidates the one
/// that is preferred, by its position in the list. The positions stand in
/// the order in which the nodes first occur.
pub fn choose_suggestions(list: &Vec<Candidate>, costs: &Vec<Option<u64>>) -> (r: Vec<usize>)
    ensures
        forall|k: int| 0 <= k < r.len() ==> suggested(list@, costs@, #[trigger] r[k] as int),
        forall|k: int, m: int|
            0 <= k < m < r.len() ==> list[r[k] as int].node != list[r[m] as int].node,
        forall|i: int|
            0 <= i < list.len() ==> exists|k: int|
                0 <= k < r.len() && list[r[k] as int].node == (#[trigger] list[i]).node,
        forall|k: int, m: int|
            0 <= k < m < r.len() ==> first_pos(list@, list[r[k] as int].node) < first_pos(
                list@,
                list[r[m] as int].node,
            ),
{
    let mut out: Vec<usize> = Vec::new();
    let mut i: usize = 0;
    while i < list.len()
        invariant
            i <= list.len(),
            forall|k: int| 0 <= k < out.len() ==> suggested(list@, costs@, #[trigger] out[k] as int),
            forall|a: int|
                0 <= a < i ==> exists|k: int|
                    0 <= k < out.len() && list[out[k] as int].node == (#[trigger] list[a]).node,
            forall|k: int|
                0 <= k < out.len() ==> first_pos(list@, list[#[trigger] out[k] as int].node) < i,
            forall|k: int, m: int|
                0 <= k < m < out.len() ==> first_pos(list@, list[out[k] as int].node) < first_pos(
                    list@,
                    list[out[m] as int].node,
                ),
        decreases list.len() - i,
    {
        let node = list[i].node;
        let mut first = true;
        let mut a: usize = 0;
        while a < i
            invariant
                a <= i,
                i < list.len(),
                node == list[i as int].node,
                first == forall|b: int| 0 <= b < a ==> list[b].node != node,
            decreases i - a,
        {
            if list[a].node == node {
                first = false;
            }
            a += 1;
        }
        if first {
            let best = choose_for(list, costs, i);
            let ghost before = out@;
            out.push(best);
            proof {
                assert(first_with(list@, i as int, node));
                lemma_first_pos(list@, i as int, node);
                assert forall|k: int| 0 <= k < out.len() implies suggested(
                    list@,
                    costs@,
                    #[trigger] out[k] as int,
                ) by {
                    if k < before.len() {
                        assert(out[k] == before[k]);
                    }
                }
                assert forall|w: int| 0 <= w < i + 1 implies exists|k: int|
                    0 <= k < out.len() && list[out[k] as int].node == (#[trigger] list[w]).node by {
                    if w < i {
                        let k = choose|k: int|
                            0 <= k < before.len() && list[before[k] as int].node == list[w].node;
                        assert(out[k] == before[k]);
                    } else {
                        assert(out[out.len() - 1] == best);
                    }
                }
                assert forall|k: int| 0 <= k < out.len() implies first_pos(
                    list@,
                    list[#[trigger] out[k] as int].node,
                ) < i + 1 by {
                    if k < before.len() {
                        assert(out[k] == before[k]);
                    }
                }
                assert forall|k: int, m: int| 0 <= k < m < out.len() implies first_pos(
                    list@,
                    list[out[k] as int].node,
                ) < first_pos(list@, list[out[m] as int].node) by {
                    assert(out[k] == before[k]);
                    if m < before.len() {
                        assert(out[m] == before[m]);
                    }
                }
            }
        } else {
            proof {
                let b = choose|b: int| 0 <= b < i && list[b].node == node;
                assert forall|w: int| 0 <= w < i + 1 implies exists|k: int|
                    0 <= k < out.len() && list[out[k] as int].node == (#[trigger] list[w]).node by {
                    if w == i {
                        let k = choose|k: int|
                            0 <= k < out.len() && list[out[k] as int].node == list[b].node;
                    }
                }
            }
        }
        i += 1;
    }
    out
}

/// The candidate to suggest for the node of candidate `i`, which is the
/// first for its node.
fn choose_for(list: &Vec<Candidate>, costs: &Vec<Option<u64>>, i: usize) -> (best: usize)
    requires
        i < list.len(),
        forall|b: int| 0 <= b < i ==> list[b].node != list[i as int].node,
    ensures
        best < list.len(),
        list[best as int].node == list[i as int].node,
        suggested(list@, costs@, best as int),
{
    let node = list[i].node;
    let mut best = i;
    let mut j: usize = 0;
    while j < list.len()
        invariant
            j <= list.len(),
            i < list.len(),
            best < list.len(),
            node == list[i as int].node,
            list[best as int].node == node,
            forall|b: int| 0 <= b < i ==> list[b].node != node,
            j <= i ==> best == i && chosen_among(list@, costs@, node, j as int) is None,
            j > i ==> chosen_among(list@, costs@, node, j as int) == Some(best as int),
        decreases list.len() - j,
    {
        if j > i && list[j].node == node && is_preferred(list, costs, j, best) {
            best = j;
        }
        j += 1;
    }
    best
}

/// Where the name starts with `prefix`.
pub open spec fn starts_with(name: Seq<char>, prefix: Seq<char>) -> bool {
    prefix.len() <= name.len() && name.subrange(0, prefix.len() as int) == prefix
}

/// Whether the name starts with `prefix`.
pub fn has_prefix(name: &str, prefix: &str) -> (r: bool)
    ensures
        r == starts_with(name@, prefix@),
{
    let len = prefix.unicode_len();
    if name.unicode_len() < len {
        return false;
    }
    let mut i: usize = 0;
    while i < len
        invariant
            i <= len,
            len == prefix@.len(),
            len <= name@.len(),
            forall|k: int| 0 <= k < i ==> name@[k] == prefix@[k],
        decreases len - i,
    {
        if name.get_char(i) != prefix.get_char(i) {
            assert(name@.subrange(0, len as int)[i as int] != prefix@[i as int]);
            return false;
        }
        i += 1;
    }
    assert(name@.subrange(0, len as int) =~= prefix@);
    true
}

/// Directory `i` is the one that holds the sources of the registry: the
/// last but the first that is named after github.com, or else the first.
pub open spec fn registry_dir(names: Seq<String>, i: int) -> bool {
    &&& 0 <= i < names.len()
    &&& forall|j: int| i < j < names.len() ==> !starts_with((#[trigger] names[j])@, "github.com-"@)
    &&& i > 0 ==> starts_with(names[i]@, "github.com-"@)
}

/// Which of the directories of registry sources to use. `names` are the
/// names of the directories, as they were found.
pub fn choose_registry_dir(names: &Vec<String>) -> (r: Option<usize>)
    ensures
        match r {
            Some(i) => registry_dir(names@, i as int),
            None => names.len() == 0,
        },
{
    if names.len() == 0 {
        return None;
    }
    let mut best: usize = 0;
    let mut j: usize = 1;
    while j < names.len()
        invariant
            1 <= j <= names.len(),
            best < j,
            forall|k: int| best < k < j ==> !starts_with((#[trigger] names[k])@, "github.com-"@),
            best > 0 ==> starts_with(names[best as int]@, "github.com-"@),
        decreases names.len() - j,
    {
        if has_prefix(names[j].as_str(), "github.com-") {
            best = j;
        }
        j += 1;
    }
    Some(best)
}

} // verus!
