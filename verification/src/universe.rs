//! The universe of criteria of one resolution: names, ids and implications.

use vstd::prelude::*;
use vstd::string::*;
use crate::bits::{has_bit, lemma_bits_low_mask, lemma_bits_single, lemma_bits_zero, low_mask};
use crate::criteria::CriteriaSet;
use crate::flow::{edge_out, flow_closed, flow_least, rows_view, solve, FlowEdge};

verus! {

/// One criterion as a store declares it.
#[derive(Debug)]
pub struct CriteriaEntry {
    pub name: String,
    /// Names of the criteria that this one implies.
    pub implies: Vec<String>,
    pub description: String,
}

/// Why a universe, or something that names criteria, could not be loaded.
#[derive(Clone, Copy, Debug, PartialEq, Eq, Structural)]
pub enum LoadError {
    /// More criteria than a set can hold.
    TooManyCriteria,
    /// A name is declared twice, or a built-in name is declared again.
    DuplicateCriterion,
    /// A name is used that no criterion has.
    UnknownCriterion,
    /// Two different criteria imply each other.
    CyclicImplication,
}

/// The criteria of one resolution. The built-in criteria come first.
#[derive(Debug)]
pub struct CriteriaTable {
    /// Name of each criterion, by id.
    pub names: Vec<String>,
    /// What each criterion is declared to imply.
    pub direct: Vec<CriteriaSet>,
    /// Everything each criterion implies, itself included.
    pub closures: Vec<CriteriaSet>,
}

/// The names as plain sequences of characters.
pub open spec fn name_seq(names: Seq<String>) -> Seq<Seq<char>> {
    Seq::new(names.len(), |i: int| names[i]@)
}

/// No name occurs twice.
pub open spec fn names_distinct(names: Seq<Seq<char>>) -> bool {
    forall|i: int, j: int| 0 <= i < j < names.len() ==> names[i] != names[j]
}

/// The ids that a list of names refers to.
pub open spec fn named_ids(names: Seq<Seq<char>>, list: Seq<String>) -> Set<nat> {
    Set::new(
        |j: nat|
            j < names.len() && exists|m: int| 0 <= m < list.len() && names[j as int] == (#[trigger] list[m])@,
    )
}

/// Every name of the list is the name of a criterion.
pub open spec fn all_known(names: Seq<Seq<char>>, list: Seq<String>) -> bool {
    forall|m: int| 0 <= m < list.len() ==> names.contains((#[trigger] list[m])@)
}

/// The names of a universe: the built-in ones, then the declared ones.
pub open spec fn universe_names(entries: Seq<CriteriaEntry>) -> Seq<Seq<char>> {
    seq!["safe-to-run"@, "safe-to-deploy"@] + Seq::new(entries.len(), |k: int| entries[k].name@)
}

/// What the criterion with id `i` is declared to imply.
pub open spec fn declared(entries: Seq<CriteriaEntry>, i: int) -> Set<nat> {
    if i == 0 {
        Set::empty()
    } else if i == 1 {
        set![0nat]
    } else {
        named_ids(universe_names(entries), entries[i - 2].implies@)
    }
}

/// What every criterion of a universe is declared to imply.
pub open spec fn declared_all(entries: Seq<CriteriaEntry>) -> Seq<Set<nat>> {
    Seq::new((entries.len() + 2) as nat, |i: int| declared(entries, i))
}

/// The members of each set of a sequence.
pub open spec fn sets_of(v: Seq<CriteriaSet>) -> Seq<Set<nat>> {
    Seq::new(v.len(), |i: int| v[i]@)
}

/// `x` gives each criterion itself and all that its declared implications
/// are given.
pub open spec fn implication_closed(direct: Seq<Set<nat>>, x: Seq<Set<nat>>) -> bool {
    &&& x.len() == direct.len()
    &&& forall|i: int| 0 <= i < direct.len() ==> #[trigger] x[i].contains(i as nat)
    &&& forall|i: int, j: nat, c: nat|
        0 <= i < direct.len() && j < direct.len() && c < direct.len() && direct[i].contains(j)
            && #[trigger] x[j as int].contains(c) ==> #[trigger] x[i].contains(c)
}

/// Everything that criterion `i` implies: what every closed assignment
/// gives it.
pub open spec fn implied(direct: Seq<Set<nat>>, i: int) -> Set<nat> {
    Set::new(
        |c: nat| forall|x: Seq<Set<nat>>| #[trigger] implication_closed(direct, x) ==> x[i].contains(c),
    )
}

/// Two different criteria imply each other.
pub open spec fn implication_cyclic(direct: Seq<Set<nat>>) -> bool {
    exists|i: int, j: int|
        0 <= i < direct.len() && 0 <= j < direct.len() && i != j && implied(direct, i).contains(
            j as nat,
        ) && implied(direct, j).contains(i as nat)
}

/// The position of `name` among `names`, if it is there.
pub fn find_name(names: &Vec<String>, name: &String) -> (r: Option<usize>)
    ensures
        match r {
            Some(i) => i < names.len() && names[i as int]@ == name@ && forall|j: int|
                0 <= j < i ==> names[j]@ != name@,
            None => forall|j: int| 0 <= j < names.len() ==> names[j]@ != name@,
        },
{
    let mut i: usize = 0;
    while i < names.len()
        invariant
            i <= names.len(),
            forall|j: int| 0 <= j < i ==> names[j]@ != name@,
        decreases names.len() - i,
    {
        if names[i] == *name {
            return Some(i);
        }
        i += 1;
    }
    None
}

/// The edge by which criterion `j` hands what it implies to criterion `i`,
/// where `i` is declared to imply `j`; an edge that passes nothing
/// otherwise.
spec fn implication_edge(direct: Seq<Set<nat>>, j: int, i: int) -> FlowEdge {
    FlowEdge {
        to: i as usize,
        pass: if direct[i].contains(j as nat) {
            low_mask(direct.len())
        } else {
            0
        },
        trigger: 0,
        emit: 0,
    }
}

spec fn implication_rows(direct: Seq<Set<nat>>) -> Seq<Seq<FlowEdge>> {
    Seq::new(direct.len(), |j: int| Seq::new(direct.len(), |i: int| implication_edge(direct, j, i)))
}

spec fn implication_init(n: nat) -> Seq<u64> {
    Seq::new(n, |i: int| 1u64 << (i as u64))
}

proof fn lemma_implication_system(direct: Seq<Set<nat>>, x: Seq<Set<nat>>)
    requires
        direct.len() <= 64,
    ensures
        flow_closed(implication_rows(direct), implication_init(direct.len()), x) == implication_closed(
            direct,
            x,
        ),
{
    let n = direct.len();
    let init = implication_init(n);
    let rows = implication_rows(direct);
    lemma_bits_low_mask(n);
    lemma_bits_zero();
    assert forall|v: int, c: nat| 0 <= v < n implies #[trigger] has_bit(init[v], c) == (c == v) by {
        lemma_bits_single(v as nat);
    }
    if flow_closed(rows, init, x) {
        assert forall|i: int| 0 <= i < n implies #[trigger] x[i].contains(i as nat) by {
            assert(has_bit(init[i], i as nat));
        }
        assert forall|i: int, j: nat, c: nat|
            0 <= i < n && j < n && c < n && direct[i].contains(j) && #[trigger] x[j as int].contains(
                c,
            ) implies #[trigger] x[i].contains(c) by {
            let e = rows[j as int][i];
            assert(e == implication_edge(direct, j as int, i));
            assert(edge_out(rows[j as int][i], x[j as int]).contains(c));
        }
    }
    if implication_closed(direct, x) {
        assert forall|v: int, k: int, c: nat|
            0 <= v < rows.len() && 0 <= k < rows[v].len() && #[trigger] edge_out(rows[v][k], x[v]).contains(
                c,
            ) implies x[rows[v][k].to as int].contains(c) by {
            assert(rows[v][k] == implication_edge(direct, v, k));
            assert(x[v].contains(c) && has_bit(rows[v][k].pass, c));
            assert(direct[k].contains(v as nat));
            assert(c < n);
            assert(x[k].contains(c));
        }
        assert forall|v: int, c: nat| 0 <= v < n && has_bit(init[v], c) implies #[trigger] x[v].contains(
            c,
        ) by {
            assert(c == v);
            assert(x[v].contains(v as nat));
        }
        assert(flow_closed(rows, init, x));
    }
}

impl CriteriaTable {
    /// Number of criteria.
    pub open spec fn count(&self) -> nat {
        self.names.len() as nat
    }

    /// The table is what loading produces: between 2 and 64 criteria with
    /// distinct names, the built-in pair in front, and for each criterion
    /// all that it implies.
    pub open spec fn wf(&self) -> bool {
        &&& 2 <= self.names.len() <= 64
        &&& self.direct.len() == self.names.len()
        &&& self.closures.len() == self.names.len()
        &&& self.names[0]@ == "safe-to-run"@
        &&& self.names[1]@ == "safe-to-deploy"@
        &&& names_distinct(name_seq(self.names@))
        &&& self.direct[0]@ == Set::<nat>::empty()
        &&& self.direct[1]@ == set![0nat]
        &&& forall|i: int, j: nat|
            0 <= i < self.direct.len() && #[trigger] self.direct[i]@.contains(j) ==> j
                < self.names.len()
        &&& forall|i: int|
            0 <= i < self.closures.len() ==> (#[trigger] self.closures[i])@ == implied(
                sets_of(self.direct@),
                i,
            )
        &&& !implication_cyclic(sets_of(self.direct@))
    }

    /// Criterion `a` implies criterion `b`, directly or through others.
    pub open spec fn implies(&self, a: nat, b: nat) -> bool {
        a < self.count() && self.closures[a as int]@.contains(b)
    }

    /// The set together with all that its members imply. Members that are
    /// no ids of the universe are left out.
    pub open spec fn closure(&self, s: Set<nat>) -> Set<nat> {
        Set::new(|c: nat| exists|i: nat| s.contains(i) && #[trigger] self.implies(i, c))
    }

    /// `have` provides every criterion of `need`.
    pub open spec fn satisfies(&self, have: Set<nat>, need: Set<nat>) -> bool {
        need.subset_of(self.closure(have))
    }

    /// All ids of the universe.
    pub open spec fn all(&self) -> Set<nat> {
        Set::new(|c: nat| c < self.count())
    }

    /// Loads a universe: the built-in criteria and the declared ones.
    #[verifier::loop_isolation(false)]
    pub fn load(entries: &Vec<CriteriaEntry>) -> (r: Result<CriteriaTable, LoadError>)
        ensures
            match r {
                Ok(t) => {
                    &&& t.wf()
                    &&& name_seq(t.names@) == universe_names(entries@)
                    &&& sets_of(t.direct@) == declared_all(entries@)
                    &&& forall|k: int|
                        0 <= k < entries.len() ==> all_known(
                            universe_names(entries@),
                            (#[trigger] entries[k]).implies@,
                        )
                },
                Err(LoadError::TooManyCriteria) => entries.len() > 62,
                Err(LoadError::DuplicateCriterion) => entries.len() <= 62 && !names_distinct(
                    universe_names(entries@),
                ),
                Err(LoadError::UnknownCriterion) => {
                    &&& entries.len() <= 62
                    &&& names_distinct(universe_names(entries@))
                    &&& exists|k: int|
                        0 <= k < entries.len() && !all_known(
                            universe_names(entries@),
                            (#[trigger] entries[k]).implies@,
                        )
                },
                Err(LoadError::CyclicImplication) => {
                    &&& entries.len() <= 62
                    &&& names_distinct(universe_names(entries@))
                    &&& forall|k: int|
                        0 <= k < entries.len() ==> all_known(
                            universe_names(entries@),
                            (#[trigger] entries[k]).implies@,
                        )
                    &&& implication_cyclic(declared_all(entries@))
                },
            },
    {
        if entries.len() > 62 {
            return Err(LoadError::TooManyCriteria);
        }
        let n = entries.len() + 2;
        let ghost wanted = universe_names(entries@);
        let mut names: Vec<String> = Vec::new();
        names.push(String::from_str("safe-to-run"));
        names.push(String::from_str("safe-to-deploy"));
        let mut k: usize = 0;
        while k < entries.len()
            invariant
                k <= entries.len(),
                names.len() == k + 2,
                names[0]@ == "safe-to-run"@,
                names[1]@ == "safe-to-deploy"@,
                forall|m: int| 0 <= m < k ==> (#[trigger] names[m + 2])@ == entries[m].name@,
            decreases entries.len() - k,
        {
            names.push(entries[k].name.clone());
            k += 1;
        }
        assert(name_seq(names@) =~= wanted) by {
            assert forall|i: int| 0 <= i < n implies name_seq(names@)[i] == wanted[i] by {
                if i >= 2 {
                    assert(names[(i - 2) + 2]@ == entries[i - 2].name@);
                }
            }
        }
        // No name may occur twice.
        let mut i: usize = 0;
        while i < n
            invariant
                i <= n,
                names.len() == n,
                name_seq(names@) == wanted,
                forall|a: int, b: int| 0 <= a < b < n && a < i ==> wanted[a] != wanted[b],
            decreases n - i,
        {
            let mut j: usize = i + 1;
            while j < n
                invariant
                    i < j <= n,
                    names.len() == n,
                    name_seq(names@) == wanted,
                    forall|b: int| i < b < j ==> wanted[i as int] != wanted[b],
                decreases n - j,
            {
                assert(wanted[i as int] == names[i as int]@ && wanted[j as int] == names[j as int]@);
                if names[i] == names[j] {
                    assert(wanted[i as int] == wanted[j as int]);
                    assert(!names_distinct(wanted));
                    return Err(LoadError::DuplicateCriterion);
                }
                j += 1;
            }
            i += 1;
        }
        assert(names_distinct(wanted));
        // What each criterion is declared to imply.
        let mut direct: Vec<CriteriaSet> = Vec::new();
        direct.push(CriteriaSet::empty());
        direct.push(CriteriaSet::single(0));
        let mut k: usize = 0;
        while k < entries.len()
            invariant
                k <= entries.len(),
                n == entries.len() + 2,
                n <= 64,
                names.len() == n,
                name_seq(names@) == wanted,
                wanted == universe_names(entries@),
                names_distinct(wanted),
                direct.len() == k + 2,
                forall|i: int| 0 <= i < k + 2 ==> (#[trigger] direct[i])@ == declared(entries@, i),
                forall|m: int| 0 <= m < k ==> all_known(wanted, (#[trigger] entries[m]).implies@),
            decreases entries.len() - k,
        {
            let list = &entries[k].implies;
            let mut set = CriteriaSet::empty();
            let mut m: usize = 0;
            while m < list.len()
                invariant
                    m <= list.len(),
                    n <= 64,
                    k < entries.len(),
                    list@ == entries[k as int].implies@,
                    wanted == universe_names(entries@),
                    names.len() == n,
                    name_seq(names@) == wanted,
                    names_distinct(wanted),
                    set@ == named_ids(wanted, list@.subrange(0, m as int)),
                    all_known(wanted, list@.subrange(0, m as int)),
                decreases list.len() - m,
            {
                let ghost before = list@.subrange(0, m as int);
                let ghost after = list@.subrange(0, m + 1);
                match find_name(&names, &list[m]) {
                    Some(j) => {
                        set = set.insert(j);
                        proof {
                            assert(wanted[j as int] == names[j as int]@);
                            assert forall|c: nat| set@.contains(c) == named_ids(wanted, after).contains(
                                c,
                            ) by {
                                if named_ids(wanted, before).contains(c) {
                                    let w = choose|w: int|
                                        0 <= w < before.len() && wanted[c as int] == (
                                        #[trigger] before[w])@;
                                    assert(after[w] == before[w]);
                                }
                                if c == j {
                                    assert(after[m as int] == list[m as int]);
                                }
                                if named_ids(wanted, after).contains(c) {
                                    let w = choose|w: int|
                                        0 <= w < after.len() && wanted[c as int] == (#[trigger] after[w])@;
                                    if w < m {
                                        assert(before[w] == after[w]);
                                    } else {
                                        assert(after[w] == list[m as int]);
                                        assert(wanted[c as int] == wanted[j as int]);
                                    }
                                }
                            }
                            assert(set@ =~= named_ids(wanted, after));
                            assert forall|w: int| 0 <= w < after.len() implies wanted.contains(
                                (#[trigger] after[w])@,
                            ) by {
                                if w < m {
                                    assert(before[w] == after[w]);
                                }
                            }
                        }
                    },
                    None => {
                        proof {
                            if wanted.contains(list[m as int]@) {
                                let j = choose|j: int|
                                    0 <= j < wanted.len() && wanted[j] == list[m as int]@;
                                assert(names[j]@ == wanted[j]);
                            }
                            assert(!wanted.contains(entries[k as int].implies[m as int]@));
                            assert(!all_known(wanted, entries[k as int].implies@));
                        }
                        return Err(LoadError::UnknownCriterion);
                    },
                }
                m += 1;
            }
            assert(list@.subrange(0, list.len() as int) =~= list@);
            direct.push(set);
            k += 1;
        }
        // Everything each criterion implies.
        let full = CriteriaSet::below(n);
        let ghost dsets = sets_of(direct@);
        let mut init: Vec<u64> = Vec::new();
        let mut rows: Vec<Vec<FlowEdge>> = Vec::new();
        let mut j: usize = 0;
        while j < n
            invariant
                j <= n,
                init.len() == j,
                rows.len() == j,
                forall|v: int| 0 <= v < j ==> #[trigger] init[v] == 1u64 << (v as u64),
                forall|v: int| 0 <= v < j ==> (#[trigger] rows[v])@ == implication_rows(dsets)[v],
            decreases n - j,
        {
            init.push(1u64 << (j as u64));
            let mut row: Vec<FlowEdge> = Vec::new();
            let mut i: usize = 0;
            while i < n
                invariant
                    i <= n,
                    j < n,
                    row.len() == i,
                    forall|u: int| 0 <= u < i ==> #[trigger] row[u] == implication_edge(dsets, j as int, u),
                decreases n - i,
            {
                assert(dsets[i as int] == direct[i as int]@);
                let pass = if direct[i].contains(j) {
                    full.bits
                } else {
                    0
                };
                row.push(FlowEdge { to: i, pass, trigger: 0, emit: 0 });
                i += 1;
            }
            assert(row@ =~= implication_rows(dsets)[j as int]);
            rows.push(row);
            j += 1;
        }
        assert(init@ =~= implication_init(n as nat));
        assert(rows_view(rows@) =~= implication_rows(dsets));
        assert(dsets =~= declared_all(entries@));
        let words = solve(&rows, &init);
        let mut closures: Vec<CriteriaSet> = Vec::new();
        let mut i: usize = 0;
        while i < n
            invariant
                i <= n,
                words.len() == n,
                closures.len() == i,
                forall|v: int| 0 <= v < i ==> (#[trigger] closures[v]).bits == words[v],
            decreases n - i,
        {
            closures.push(CriteriaSet { bits: words[i] });
            i += 1;
        }
        proof {
            assert forall|v: int| 0 <= v < n implies (#[trigger] closures[v])@ == implied(dsets, v) by {
                let least = flow_least(rows_view(rows@), init@);
                assert(closures[v]@ == least[v]);
                assert forall|c: nat| least[v].contains(c) == implied(dsets, v).contains(c) by {
                    assert forall|x: Seq<Set<nat>>|
                        #![trigger flow_closed(rows_view(rows@), init@, x)]
                        #![trigger implication_closed(dsets, x)]
                        flow_closed(rows_view(rows@), init@, x) == implication_closed(dsets, x) by {
                        lemma_implication_system(dsets, x);
                    }
                    if least[v].contains(c) {
                        assert forall|x: Seq<Set<nat>>| #[trigger]
                            implication_closed(dsets, x) implies x[v].contains(c) by {
                            assert(flow_closed(rows_view(rows@), init@, x));
                        }
                    }
                    if implied(dsets, v).contains(c) {
                        assert forall|x: Seq<Set<nat>>| #[trigger]
                            flow_closed(rows_view(rows@), init@, x) implies x[v].contains(c) by {
                            assert(implication_closed(dsets, x));
                        }
                    }
                }
                assert(least[v] =~= implied(dsets, v));
            }
        }
        // Implications must not run in a circle.
        let mut i: usize = 0;
        while i < n
            invariant
                i <= n,
                closures.len() == n,
                direct.len() == n,
                dsets.len() == n,
                dsets == declared_all(entries@),
                forall|v: int| 0 <= v < n ==> (#[trigger] closures[v])@ == implied(dsets, v),
                forall|a: int, b: int|
                    0 <= a < i && 0 <= b < n && a != b ==> !(implied(dsets, a).contains(b as nat)
                        && implied(dsets, b).contains(a as nat)),
            decreases n - i,
        {
            let mut j: usize = 0;
            while j < n
                invariant
                    i < n,
                    j <= n,
                    closures.len() == n,
                    direct.len() == n,
                    dsets.len() == n,
                    dsets == declared_all(entries@),
                    forall|v: int| 0 <= v < n ==> (#[trigger] closures[v])@ == implied(dsets, v),
                    forall|b: int|
                        0 <= b < j && i != b ==> !(implied(dsets, i as int).contains(b as nat)
                            && implied(dsets, b).contains(i as nat)),
                decreases n - j,
            {
                if i != j && closures[i].contains(j) && closures[j].contains(i) {
                    proof {
                        assert(closures[i as int]@ == implied(dsets, i as int));
                        assert(closures[j as int]@ == implied(dsets, j as int));
                        assert(implication_cyclic(dsets));
                    }
                    return Err(LoadError::CyclicImplication);
                }
                proof {
                    assert(closures[i as int]@ == implied(dsets, i as int));
                    assert(closures[j as int]@ == implied(dsets, j as int));
                }
                j += 1;
            }
            i += 1;
        }
        let t = CriteriaTable { names, direct, closures };
        proof {
            assert(sets_of(t.direct@) == dsets);
            assert forall|i: int, j: nat|
                0 <= i < t.direct.len() && #[trigger] t.direct[i]@.contains(j) implies j < n by {
                assert(t.direct[i]@ == dsets[i]);
                assert(dsets[i] == declared(entries@, i));
            }
            assert(t.direct[0]@ == dsets[0]);
            assert(t.direct[1]@ == dsets[1]);
            assert(wanted[0] == "safe-to-run"@);
            assert(wanted[1] == "safe-to-deploy"@);
            assert(name_seq(t.names@)[0] == t.names[0]@);
            assert(name_seq(t.names@)[1] == t.names[1]@);
        }
        Ok(t)
    }

    /// Number of criteria.
    pub fn len(&self) -> (r: usize)
        ensures
            r == self.count(),
    {
        self.names.len()
    }

    /// The id of the criterion called `name`.
    pub fn lookup(&self, name: &String) -> (r: Option<usize>)
        ensures
            match r {
                Some(i) => i < self.count() && self.names[i as int]@ == name@,
                None => !name_seq(self.names@).contains(name@),
            },
    {
        let r = find_name(&self.names, name);
        proof {
            if r.is_none() && name_seq(self.names@).contains(name@) {
                let j = choose|j: int| 0 <= j < self.names.len() && name_seq(self.names@)[j] == name@;
                assert(self.names[j]@ == name@);
            }
        }
        r
    }

    /// Whether criterion `a` implies criterion `b`.
    pub fn implies_id(&self, a: usize, b: usize) -> (r: bool)
        requires
            self.wf(),
        ensures
            r == self.implies(a as nat, b as nat),
    {
        if a < self.closures.len() {
            self.closures[a].contains(b)
        } else {
            false
        }
    }

    /// The set together with all that its members imply.
    pub fn close(&self, s: &CriteriaSet) -> (r: CriteriaSet)
        requires
            self.wf(),
        ensures
            r@ == self.closure(s@),
    {
        let mut r = CriteriaSet::empty();
        let mut i: usize = 0;
        while i < self.closures.len()
            invariant
                i <= self.closures.len(),
                self.closures.len() == self.count(),
                r@ == Set::new(
                    |c: nat| exists|a: nat| a < i && s@.contains(a) && #[trigger] self.implies(a, c),
                ),
            decreases self.closures.len() - i,
        {
            let ghost before = r@;
            if s.contains(i) {
                r = r.union(&self.closures[i]);
            }
            proof {
                let after = Set::new(
                    |c: nat| exists|a: nat| a < i + 1 && s@.contains(a) && #[trigger] self.implies(a, c),
                );
                assert forall|c: nat| r@.contains(c) == after.contains(c) by {
                    if before.contains(c) {
                        let a = choose|a: nat| a < i && s@.contains(a) && #[trigger] self.implies(a, c);
                        assert(a < i + 1 && s@.contains(a) && self.implies(a, c));
                    }
                    if s@.contains(i as nat) && self.closures[i as int]@.contains(c) {
                        assert(self.implies(i as nat, c));
                    }
                    if after.contains(c) {
                        let a = choose|a: nat|
                            a < i + 1 && s@.contains(a) && #[trigger] self.implies(a, c);
                        if a < i {
                            assert(before.contains(c));
                        }
                    }
                }
                assert(r@ =~= after);
            }
            i += 1;
        }
        assert(r@ =~= self.closure(s@));
        r
    }

    /// Whether `have` provides every criterion of `need`.
    pub fn check_satisfies(&self, have: &CriteriaSet, need: &CriteriaSet) -> (r: bool)
        requires
            self.wf(),
        ensures
            r == self.satisfies(have@, need@),
    {
        let closed = self.close(have);
        need.is_subset(&closed)
    }

    /// The set of the criteria called by `list`, with all that they imply.
    pub fn parse_set(&self, list: &Vec<String>) -> (r: Result<CriteriaSet, LoadError>)
        requires
            self.wf(),
        ensures
            match r {
                Ok(s) => all_known(name_seq(self.names@), list@) && s@ == self.closure(
                    named_ids(name_seq(self.names@), list@),
                ),
                Err(e) => e == LoadError::UnknownCriterion && !all_known(name_seq(self.names@), list@),
            },
    {
        let ghost wanted = name_seq(self.names@);
        let mut set = CriteriaSet::empty();
        let mut m: usize = 0;
        while m < list.len()
            invariant
                m <= list.len(),
                self.wf(),
                wanted == name_seq(self.names@),
                set@ == named_ids(wanted, list@.subrange(0, m as int)),
                all_known(wanted, list@.subrange(0, m as int)),
            decreases list.len() - m,
        {
            let ghost before = list@.subrange(0, m as int);
            let ghost after = list@.subrange(0, m + 1);
            match find_name(&self.names, &list[m]) {
                Some(j) => {
                    set = set.insert(j);
                    proof {
                        assert(wanted[j as int] == self.names[j as int]@);
                        assert forall|c: nat| set@.contains(c) == named_ids(wanted, after).contains(c) by {
                            if named_ids(wanted, before).contains(c) {
                                let w = choose|w: int|
                                    0 <= w < before.len() && wanted[c as int] == (#[trigger] before[w])@;
                                assert(after[w] == before[w]);
                            }
                            if c == j {
                                assert(after[m as int] == list[m as int]);
                            }
                            if named_ids(wanted, after).contains(c) {
                                let w = choose|w: int|
                                    0 <= w < after.len() && wanted[c as int] == (#[trigger] after[w])@;
                                if w < m {
                                    assert(before[w] == after[w]);
                                } else {
                                    assert(after[w] == list[m as int]);
                                    assert(wanted[c as int] == wanted[j as int]);
                                }
                            }
                        }
                        assert(set@ =~= named_ids(wanted, after));
                        assert forall|w: int| 0 <= w < after.len() implies wanted.contains(
                            (#[trigger] after[w])@,
                        ) by {
                            if w < m {
                                assert(before[w] == after[w]);
                            }
                        }
                    }
                },
                None => {
                    proof {
                        if wanted.contains(list[m as int]@) {
                            let j = choose|j: int| 0 <= j < wanted.len() && wanted[j] == list[m as int]@;
                            assert(self.names[j]@ == wanted[j]);
                        }
                    }
                    return Err(LoadError::UnknownCriterion);
                },
            }
            m += 1;
        }
        assert(list@.subrange(0, list.len() as int) =~= list@);
        Ok(self.close(&set))
    }
}

/// What each criterion implies, as one assignment.
pub open spec fn implied_all(direct: Seq<Set<nat>>) -> Seq<Set<nat>> {
    Seq::new(direct.len(), |i: int| implied(direct, i))
}

/// Every criterion implies ids of the universe only.
pub proof fn lemma_implied_in_universe(direct: Seq<Set<nat>>, i: int, c: nat)
    requires
        0 <= i < direct.len(),
        implied(direct, i).contains(c),
    ensures
        c < direct.len(),
{
    let n = direct.len();
    let full = Seq::new(n, |k: int| Set::new(|c: nat| c < n));
    assert(implication_closed(direct, full));
    assert(full[i].contains(c));
}

/// What the criteria imply is itself closed under the declared implications.
pub proof fn lemma_implied_closed(direct: Seq<Set<nat>>)
    ensures
        implication_closed(direct, implied_all(direct)),
{
    let all = implied_all(direct);
    assert forall|i: int, j: nat, c: nat|
        0 <= i < direct.len() && j < direct.len() && c < direct.len() && direct[i].contains(j)
            && #[trigger] all[j as int].contains(c) implies #[trigger] all[i].contains(c) by {
        assert forall|x: Seq<Set<nat>>| #[trigger] implication_closed(direct, x) implies x[i].contains(
            c,
        ) by {
            assert(x[j as int].contains(c));
        }
    }
}

/// Implication is transitive: what an implied criterion implies is implied.
pub proof fn lemma_implied_transitive(direct: Seq<Set<nat>>, a: int, b: nat, c: nat)
    requires
        0 <= a < direct.len(),
        implied(direct, a).contains(b),
        implied(direct, b as int).contains(c),
    ensures
        implied(direct, a).contains(c),
{
    let n = direct.len();
    let all = implied_all(direct);
    let x = Seq::new(
        n,
        |k: int|
            Set::new(
                |j: nat|
                    implied(direct, k).contains(j) && implied(direct, j as int).subset_of(
                        implied(direct, k),
                    ),
            ),
    );
    lemma_implied_closed(direct);
    assert forall|i: int| 0 <= i < n implies #[trigger] x[i].contains(i as nat) by {
        assert(all[i].contains(i as nat));
    }
    assert forall|i: int, j: nat, m: nat|
        0 <= i < n && j < n && m < n && direct[i].contains(j) && #[trigger] x[j as int].contains(m)
            implies #[trigger] x[i].contains(m) by {
        assert forall|d: nat| implied(direct, j as int).contains(d) implies implied(
            direct,
            i,
        ).contains(d) by {
            lemma_implied_in_universe(direct, j as int, d);
            assert(all[j as int].contains(d));
            assert(all[i].contains(d));
        }
    }
    assert(implication_closed(direct, x));
    assert(x[a].contains(b));
}

impl CriteriaTable {
    /// Implication is reflexive on the universe.
    pub proof fn lemma_implies_reflexive(&self, c: nat)
        requires
            self.wf(),
            c < self.count(),
        ensures
            self.implies(c, c),
    {
        lemma_implied_closed(sets_of(self.direct@));
        let i = c as int;
        assert(implied_all(sets_of(self.direct@))[i].contains(i as nat));
        assert(self.closures[c as int]@ == implied(sets_of(self.direct@), c as int));
    }

    /// Implication is transitive.
    pub proof fn lemma_implies_transitive(&self, a: nat, b: nat, c: nat)
        requires
            self.wf(),
            self.implies(a, b),
            self.implies(b, c),
        ensures
            self.implies(a, c),
    {
        let d = sets_of(self.direct@);
        assert(self.closures[a as int]@ == implied(d, a as int));
        lemma_implied_in_universe(d, a as int, b);
        assert(self.closures[b as int]@ == implied(d, b as int));
        lemma_implied_transitive(d, a as int, b, c);
    }

    /// Whatever is implied is an id of the universe.
    pub proof fn lemma_implies_in_universe(&self, a: nat, b: nat)
        requires
            self.wf(),
            self.implies(a, b),
        ensures
            b < self.count(),
    {
        let d = sets_of(self.direct@);
        assert(self.closures[a as int]@ == implied(d, a as int));
        lemma_implied_in_universe(d, a as int, b);
    }

    /// `safe-to-deploy` implies `safe-to-run`.
    pub proof fn lemma_deploy_implies_run(&self)
        requires
            self.wf(),
        ensures
            self.implies(1, 0),
    {
        let d = sets_of(self.direct@);
        lemma_implied_closed(d);
        let all = implied_all(d);
        let zero = 0int;
        assert(all[zero].contains(zero as nat));
        assert(d[1].contains(0)) by {
            assert(d[1] == self.direct[1]@);
        }
        assert(all[1].contains(0));
        assert(self.closures[1]@ == implied(d, 1));
    }

    /// Closing twice is closing once: `closure(closure(S)) = closure(S)`.
    pub proof fn lemma_closure_idempotent(&self, s: Set<nat>)
        requires
            self.wf(),
        ensures
            self.closure(self.closure(s)) == self.closure(s),
    {
        let once = self.closure(s);
        let twice = self.closure(once);
        assert forall|c: nat| twice.contains(c) == once.contains(c) by {
            if once.contains(c) {
                let a = choose|a: nat| s.contains(a) && #[trigger] self.implies(a, c);
                self.lemma_implies_in_universe(a, c);
                self.lemma_implies_reflexive(c);
                assert(once.contains(c) && self.implies(c, c));
            }
            if twice.contains(c) {
                let b = choose|b: nat| once.contains(b) && #[trigger] self.implies(b, c);
                let a = choose|a: nat| s.contains(a) && #[trigger] self.implies(a, b);
                self.lemma_implies_transitive(a, b, c);
            }
        }
        assert(twice =~= once);
    }

    /// A set of criteria of the universe provides itself:
    /// `satisfies(S, S)` holds.
    pub proof fn lemma_satisfies_reflexive(&self, s: Set<nat>)
        requires
            self.wf(),
            s.subset_of(self.all()),
        ensures
            self.satisfies(s, s),
    {
        assert forall|c: nat| s.contains(c) implies self.closure(s).contains(c) by {
            assert(self.all().contains(c));
            self.lemma_implies_reflexive(c);
        }
    }

    /// Implication is sound: whoever provides `c1` provides every `c2` that
    /// `c1` implies.
    pub proof fn lemma_implication_sound(&self, have: Set<nat>, c1: nat, c2: nat)
        requires
            self.wf(),
            self.implies(c1, c2),
            self.satisfies(have, set![c1]),
        ensures
            self.satisfies(have, set![c2]),
    {
        assert(set![c1].contains(c1));
        assert(self.closure(have).contains(c1));
        let a = choose|a: nat| have.contains(a) && #[trigger] self.implies(a, c1);
        self.lemma_implies_transitive(a, c1, c2);
    }

    /// A larger set has the larger closure.
    pub proof fn lemma_closure_monotone(&self, s: Set<nat>, t: Set<nat>)
        requires
            s.subset_of(t),
        ensures
            self.closure(s).subset_of(self.closure(t)),
    {
        assert forall|c: nat| self.closure(s).contains(c) implies self.closure(t).contains(c) by {
            let a = choose|a: nat| s.contains(a) && #[trigger] self.implies(a, c);
            assert(t.contains(a));
        }
    }

    /// The closure of a set lies within the universe.
    pub proof fn lemma_closure_in_universe(&self, s: Set<nat>)
        requires
            self.wf(),
        ensures
            self.closure(s).subset_of(self.all()),
    {
        assert forall|c: nat| self.closure(s).contains(c) implies self.all().contains(c) by {
            let a = choose|a: nat| s.contains(a) && #[trigger] self.implies(a, c);
            self.lemma_implies_in_universe(a, c);
        }
    }
}

} // verus!
