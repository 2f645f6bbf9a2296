//! From the files of the store to the data of a resolution: criteria by
//! id, audits and exemptions as edges, grouped by package.

use vstd::prelude::*;
use vstd::string::*;
use crate::files::{
    audit_known, audits_known, exemption_known, named_known, policy_known, AuditEntry, AuditKind,
    AuditedPackage, AuditsFile, ConfigFile, ExemptedPackage, ExemptionEntry, ImportedAudits,
    ImportsFile, NamedCriteria, PolicyFileEntry,
};
use crate::metadata::{Metadata, PackageExt};
use crate::model::{
    edge_added, first_named, AuditEdge, AuditOrigin, DepEdge, DepGraph, DepRequirement, Node,
    PackageAudits, Policy, PolicyEntry, Store, Version,
};
use crate::universe::{all_known, name_seq, named_ids, CriteriaTable, LoadError};

verus! {

// ---------------------------------------------------------------------------
// What the data holds, as plain values
// ---------------------------------------------------------------------------
/// An edge of an audit graph as plain values.
pub struct EdgeView {
    pub from: Option<Version>,
    pub to: Version,
    pub criteria: Set<nat>,
    pub deps: Seq<(Seq<char>, Set<nat>)>,
    pub origin: AuditOrigin,
}

/// The audit graph of a package as plain values.
pub struct PackageView {
    pub name: Seq<char>,
    pub edges: Seq<EdgeView>,
}

/// The policy of a package as plain values.
pub struct PolicyView {
    pub name: Seq<char>,
    pub criteria: Option<Set<nat>>,
    pub deps: Seq<(Seq<char>, Set<nat>)>,
    pub audit_as_third_party: bool,
}

/// Requirements as plain values.
pub open spec fn requirement_views(reqs: Seq<DepRequirement>) -> Seq<(Seq<char>, Set<nat>)> {
    Seq::new(reqs.len(), |i: int| (reqs[i].name@, reqs[i].criteria@))
}

/// An edge as plain values.
pub open spec fn edge_view(e: AuditEdge) -> EdgeView {
    EdgeView {
        from: e.from,
        to: e.to,
        criteria: e.criteria@,
        deps: requirement_views(e.deps@),
        origin: e.origin,
    }
}

/// The edges as plain values.
pub open spec fn edge_views(edges: Seq<AuditEdge>) -> Seq<EdgeView> {
    Seq::new(edges.len(), |j: int| edge_view(edges[j]))
}

/// The store as plain values.
pub open spec fn store_view(s: Store) -> Seq<PackageView> {
    Seq::new(
        s.packages.len() as nat,
        |p: int| PackageView { name: s.packages[p].name@, edges: edge_views(s.packages[p].edges@) },
    )
}

/// A policy entry as plain values.
pub open spec fn entry_view(e: PolicyEntry) -> PolicyView {
    PolicyView {
        name: e.name@,
        criteria: match e.criteria {
            Some(s) => Some(s@),
            None => None,
        },
        deps: requirement_views(e.deps@),
        audit_as_third_party: e.audit_as_third_party,
    }
}

/// The policy as plain values.
pub open spec fn policy_view(p: Policy) -> Seq<PolicyView> {
    Seq::new(p.entries.len() as nat, |q: int| entry_view(p.entries[q]))
}

/// The default of the policy as plain values.
pub open spec fn default_view(p: Policy) -> Option<Set<nat>> {
    match p.default_criteria {
        Some(s) => Some(s@),
        None => None,
    }
}

/// The names of the packages.
pub open spec fn view_names(sv: Seq<PackageView>) -> Seq<Seq<char>> {
    Seq::new(sv.len(), |p: int| sv[p].name)
}

/// The packages with one more edge: added to the package called `name`, or,
/// where there is none, as the only edge of a new package at the end.
pub open spec fn added(sv: Seq<PackageView>, name: Seq<char>, e: EdgeView) -> Seq<PackageView> {
    match first_named(view_names(sv), name) {
        Some(q) => sv.update(q, PackageView { name: sv[q].name, edges: sv[q].edges.push(e) }),
        None => sv.push(PackageView { name, edges: seq![e] }),
    }
}

// ---------------------------------------------------------------------------
// What the files stand for
// ---------------------------------------------------------------------------
/// The set that a list of criteria names stands for: the criteria named,
/// with all that they imply.
pub open spec fn lowered_set(table: CriteriaTable, list: Seq<String>) -> Set<nat> {
    table.closure(named_ids(name_seq(table.names@), list))
}

/// The requirements that named criteria stand for.
pub open spec fn lowered_reqs(table: CriteriaTable, list: Seq<NamedCriteria>) -> Seq<
    (Seq<char>, Set<nat>),
> {
    Seq::new(list.len(), |i: int| (list[i].name@, lowered_set(table, list[i].criteria@)))
}

/// The edge that an audit stands for: a full audit leads from nothing to
/// its version, a delta audit from its first version to its second.
pub open spec fn lowered_audit(table: CriteriaTable, e: AuditEntry) -> EdgeView {
    EdgeView {
        from: match e.kind {
            AuditKind::Full { version } => None,
            AuditKind::Delta { from, to } => Some(from),
        },
        to: match e.kind {
            AuditKind::Full { version } => version,
            AuditKind::Delta { from, to } => to,
        },
        criteria: lowered_set(table, e.criteria@),
        deps: lowered_reqs(table, e.dependency_criteria@),
        origin: match e.kind {
            AuditKind::Full { version } => AuditOrigin::Full,
            AuditKind::Delta { from, to } => AuditOrigin::Delta,
        },
    }
}

/// The edge that an exemption stands for: it leads from nothing to its
/// version.
pub open spec fn lowered_exemption(table: CriteriaTable, e: ExemptionEntry) -> EdgeView {
    EdgeView {
        from: None,
        to: e.version,
        criteria: lowered_set(table, e.criteria@),
        deps: lowered_reqs(table, e.dependency_criteria@),
        origin: AuditOrigin::Exemption { suggest: e.suggest },
    }
}

/// The packages with the first `k` of the audits of the package `name`
/// added.
pub open spec fn with_audits(
    sv: Seq<PackageView>,
    table: CriteriaTable,
    name: Seq<char>,
    entries: Seq<AuditEntry>,
    k: nat,
) -> Seq<PackageView>
    decreases k,
{
    if k == 0 {
        sv
    } else {
        added(
            with_audits(sv, table, name, entries, (k - 1) as nat),
            name,
            lowered_audit(table, entries[k - 1]),
        )
    }
}

/// The packages with the audits of the first `p` audited packages added.
pub open spec fn with_packages(
    sv: Seq<PackageView>,
    table: CriteriaTable,
    pkgs: Seq<AuditedPackage>,
    p: nat,
) -> Seq<PackageView>
    decreases p,
{
    if p == 0 {
        sv
    } else {
        with_audits(
            with_packages(sv, table, pkgs, (p - 1) as nat),
            table,
            pkgs[p - 1].name@,
            pkgs[p - 1].audits@,
            pkgs[p - 1].audits.len() as nat,
        )
    }
}

/// The packages with the audits of the first `i` imports added.
pub open spec fn with_imports(
    sv: Seq<PackageView>,
    table: CriteriaTable,
    imports: Seq<ImportedAudits>,
    i: nat,
) -> Seq<PackageView>
    decreases i,
{
    if i == 0 {
        sv
    } else {
        with_packages(
            with_imports(sv, table, imports, (i - 1) as nat),
            table,
            imports[i - 1].file.audits@,
            imports[i - 1].file.audits.len() as nat,
        )
    }
}

/// The packages with the first `k` of the exemptions of the package `name`
/// added.
pub open spec fn with_exemptions(
    sv: Seq<PackageView>,
    table: CriteriaTable,
    name: Seq<char>,
    entries: Seq<ExemptionEntry>,
    k: nat,
) -> Seq<PackageView>
    decreases k,
{
    if k == 0 {
        sv
    } else {
        added(
            with_exemptions(sv, table, name, entries, (k - 1) as nat),
            name,
            lowered_exemption(table, entries[k - 1]),
        )
    }
}

/// The packages with the exemptions of the first `p` exempted packages
/// added.
pub open spec fn with_exempted(
    sv: Seq<PackageView>,
    table: CriteriaTable,
    pkgs: Seq<ExemptedPackage>,
    p: nat,
) -> Seq<PackageView>
    decreases p,
{
    if p == 0 {
        sv
    } else {
        with_exemptions(
            with_exempted(sv, table, pkgs, (p - 1) as nat),
            table,
            pkgs[p - 1].name@,
            pkgs[p - 1].exemptions@,
            pkgs[p - 1].exemptions.len() as nat,
        )
    }
}

/// The store that the files stand for: the audits made, then the audits
/// imported, then the exemptions; each package where it first occurs.
pub open spec fn built_store(
    table: CriteriaTable,
    audits: AuditsFile,
    config: ConfigFile,
    imports: ImportsFile,
) -> Seq<PackageView> {
    with_exempted(
        with_imports(
            with_packages(Seq::empty(), table, audits.audits@, audits.audits.len() as nat),
            table,
            imports.audits@,
            imports.audits.len() as nat,
        ),
        table,
        config.exemptions@,
        config.exemptions.len() as nat,
    )
}

/// Every exemption names known criteria only.
pub open spec fn exempted_known(names: Seq<Seq<char>>, pkgs: Seq<ExemptedPackage>) -> bool {
    forall|p: int, e: int|
        0 <= p < pkgs.len() && 0 <= e < pkgs[p].exemptions.len() ==> exemption_known(
            names,
            #[trigger] pkgs[p].exemptions[e],
        )
}

/// Every imported audit names known criteria only.
pub open spec fn imports_known(names: Seq<Seq<char>>, imports: Seq<ImportedAudits>) -> bool {
    forall|i: int| 0 <= i < imports.len() ==> audits_known(names, (#[trigger] imports[i]).file.audits@)
}

/// The files name criteria of the universe only, as far as the store goes.
pub open spec fn sources_known(
    names: Seq<Seq<char>>,
    audits: AuditsFile,
    config: ConfigFile,
    imports: ImportsFile,
) -> bool {
    &&& audits_known(names, audits.audits@)
    &&& imports_known(names, imports.audits@)
    &&& exempted_known(names, config.exemptions@)
}

/// The policy entry that an entry of the configuration stands for.
pub open spec fn lowered_policy(table: CriteriaTable, e: PolicyFileEntry) -> PolicyView {
    PolicyView {
        name: e.name@,
        criteria: match e.criteria {
            Some(list) => Some(lowered_set(table, list@)),
            None => None,
        },
        deps: lowered_reqs(table, e.dependency_criteria@),
        audit_as_third_party: match e.audit_as_third_party {
            Some(b) => b,
            None => false,
        },
    }
}

// ---------------------------------------------------------------------------
// Lowering
// ---------------------------------------------------------------------------
/// The requirements that named criteria stand for.
pub fn lower_requirements(table: &CriteriaTable, list: &Vec<NamedCriteria>) -> (r: Result<
    Vec<DepRequirement>,
    LoadError,
>)
    requires
        table.wf(),
    ensures
        match r {
            Ok(reqs) => named_known(name_seq(table.names@), list@) && requirement_views(reqs@)
                == lowered_reqs(*table, list@),
            Err(e) => e == LoadError::UnknownCriterion && !named_known(name_seq(table.names@), list@),
        },
{
    let mut out: Vec<DepRequirement> = Vec::new();
    let mut d: usize = 0;
    while d < list.len()
        invariant
            d <= list.len(),
            table.wf(),
            out.len() == d,
            forall|w: int|
                0 <= w < d ==> all_known(name_seq(table.names@), (#[trigger] list[w]).criteria@),
            forall|w: int|
                0 <= w < d ==> (#[trigger] out[w]).name@ == list[w].name@ && out[w].criteria@
                    == lowered_set(*table, list[w].criteria@),
        decreases list.len() - d,
    {
        match table.parse_set(&list[d].criteria) {
            Ok(s) => {
                out.push(DepRequirement { name: list[d].name.clone(), criteria: s });
            },
            Err(_) => {
                return Err(LoadError::UnknownCriterion);
            },
        }
        d += 1;
    }
    assert(requirement_views(out@) =~= lowered_reqs(*table, list@));
    Ok(out)
}

/// The edge that an audit stands for.
pub fn lower_audit(table: &CriteriaTable, e: &AuditEntry) -> (r: Result<AuditEdge, LoadError>)
    requires
        table.wf(),
    ensures
        match r {
            Ok(edge) => audit_known(name_seq(table.names@), *e) && edge_view(edge) == lowered_audit(
                *table,
                *e,
            ),
            Err(x) => x == LoadError::UnknownCriterion && !audit_known(name_seq(table.names@), *e),
        },
{
    let criteria = match table.parse_set(&e.criteria) {
        Ok(s) => s,
        Err(_) => {
            return Err(LoadError::UnknownCriterion);
        },
    };
    let deps = match lower_requirements(table, &e.dependency_criteria) {
        Ok(d) => d,
        Err(_) => {
            return Err(LoadError::UnknownCriterion);
        },
    };
    let edge = match &e.kind {
        AuditKind::Full { version } => AuditEdge {
            from: None,
            to: version.copy(),
            criteria,
            deps,
            origin: AuditOrigin::Full,
        },
        AuditKind::Delta { from, to } => AuditEdge {
            from: Some(from.copy()),
            to: to.copy(),
            criteria,
            deps,
            origin: AuditOrigin::Delta,
        },
    };
    Ok(edge)
}

/// The edge that an exemption stands for.
pub fn lower_exemption(table: &CriteriaTable, e: &ExemptionEntry) -> (r: Result<AuditEdge, LoadError>)
    requires
        table.wf(),
    ensures
        match r {
            Ok(edge) => exemption_known(name_seq(table.names@), *e) && edge_view(edge)
                == lowered_exemption(*table, *e),
            Err(x) => x == LoadError::UnknownCriterion && !exemption_known(name_seq(table.names@), *e),
        },
{
    let criteria = match table.parse_set(&e.criteria) {
        Ok(s) => s,
        Err(_) => {
            return Err(LoadError::UnknownCriterion);
        },
    };
    let deps = match lower_requirements(table, &e.dependency_criteria) {
        Ok(d) => d,
        Err(_) => {
            return Err(LoadError::UnknownCriterion);
        },
    };
    Ok(
        AuditEdge {
            from: None,
            to: e.version.copy(),
            criteria,
            deps,
            origin: AuditOrigin::Exemption { suggest: e.suggest },
        },
    )
}

impl Store {
    /// The store without audits.
    pub fn new() -> (r: Store)
        ensures
            r.packages.len() == 0,
            store_view(r) == Seq::<PackageView>::empty(),
    {
        let r = Store { packages: Vec::new() };
        assert(store_view(r) =~= Seq::<PackageView>::empty());
        r
    }

    /// Adds an edge to the audit graph of the package called `name`; where
    /// the store has no such package yet, the package is added at the end.
    pub fn add_edge(&mut self, name: &String, edge: AuditEdge)
        ensures
            store_view(*final(self)) == added(store_view(*old(self)), name@, edge_view(edge)),
            match first_named(old(self).names(), name@) {
                Some(q) => edge_added(*old(self), *final(self), q, edge),
                None => {
                    &&& final(self).packages.len() == old(self).packages.len() + 1
                    &&& forall|p: int|
                        0 <= p < old(self).packages.len() ==> #[trigger] final(self).packages[p] == old(
                            self,
                        ).packages[p]
                    &&& final(self).packages[old(self).packages.len() as int].name@ == name@
                    &&& final(self).packages[old(self).packages.len() as int].edges@ == seq![edge]
                },
            },
    {
        let ghost before = *self;
        let ghost sv = store_view(before);
        assert(view_names(sv) =~= before.names());
        match self.find(name) {
            Some(q) => {
                self.packages[q].edges.push(edge);
                proof {
                    let after = store_view(*self);
                    let want = added(sv, name@, edge_view(edge));
                    assert(after.len() == want.len());
                    assert forall|p: int| 0 <= p < after.len() implies after[p] == want[p] by {
                        if p == q {
                            assert(edge_views(self.packages[p].edges@) =~= edge_views(
                                before.packages[p].edges@,
                            ).push(edge_view(edge)));
                        }
                    }
                    assert(after =~= want);
                }
            },
            None => {
                let mut edges: Vec<AuditEdge> = Vec::new();
                edges.push(edge);
                self.packages.push(PackageAudits { name: name.clone(), edges });
                proof {
                    let after = store_view(*self);
                    let want = added(sv, name@, edge_view(edge));
                    assert(after.len() == want.len());
                    assert forall|p: int| 0 <= p < after.len() implies after[p] == want[p] by {
                        if p == before.packages.len() {
                            assert(edge_views(self.packages[p].edges@) =~= seq![edge_view(edge)]);
                        }
                    }
                    assert(after =~= want);
                }
            },
        }
    }
}

/// Adds the audits of the packages to the store.
fn add_audits(store: &mut Store, table: &CriteriaTable, pkgs: &Vec<AuditedPackage>) -> (r: Result<
    (),
    LoadError,
>)
    requires
        table.wf(),
    ensures
        match r {
            Ok(_) => audits_known(name_seq(table.names@), pkgs@) && store_view(*final(store))
                == with_packages(store_view(*old(store)), *table, pkgs@, pkgs.len() as nat),
            Err(e) => e == LoadError::UnknownCriterion && !audits_known(name_seq(table.names@), pkgs@),
        },
{
    let ghost start = store_view(*store);
    let mut p: usize = 0;
    while p < pkgs.len()
        invariant
            p <= pkgs.len(),
            table.wf(),
            store_view(*store) == with_packages(start, *table, pkgs@, p as nat),
            forall|q: int, a: int|
                0 <= q < p && 0 <= a < pkgs[q].audits.len() ==> audit_known(
                    name_seq(table.names@),
                    #[trigger] pkgs[q].audits[a],
                ),
        decreases pkgs.len() - p,
    {
        let list = &pkgs[p].audits;
        let ghost base = store_view(*store);
        let mut a: usize = 0;
        while a < list.len()
            invariant
                a <= list.len(),
                p < pkgs.len(),
                table.wf(),
                *list == pkgs[p as int].audits,
                store_view(*store) == with_audits(base, *table, pkgs[p as int].name@, list@, a as nat),
                forall|b: int| 0 <= b < a ==> audit_known(name_seq(table.names@), #[trigger] list[b]),
            decreases list.len() - a,
        {
            match lower_audit(table, &list[a]) {
                Ok(edge) => {
                    store.add_edge(&pkgs[p].name, edge);
                },
                Err(_) => {
                    assert(!audit_known(name_seq(table.names@), pkgs[p as int].audits[a as int]));
                    return Err(LoadError::UnknownCriterion);
                },
            }
            a += 1;
        }
        p += 1;
    }
    Ok(())
}

/// Adds the exemptions of the packages to the store.
fn add_exemptions(store: &mut Store, table: &CriteriaTable, pkgs: &Vec<ExemptedPackage>) -> (r: Result<
    (),
    LoadError,
>)
    requires
        table.wf(),
    ensures
        match r {
            Ok(_) => exempted_known(name_seq(table.names@), pkgs@) && store_view(*final(store))
                == with_exempted(store_view(*old(store)), *table, pkgs@, pkgs.len() as nat),
            Err(e) => e == LoadError::UnknownCriterion && !exempted_known(
                name_seq(table.names@),
                pkgs@,
            ),
        },
{
    let ghost start = store_view(*store);
    let mut p: usize = 0;
    while p < pkgs.len()
        invariant
            p <= pkgs.len(),
            table.wf(),
            store_view(*store) == with_exempted(start, *table, pkgs@, p as nat),
            forall|q: int, a: int|
                0 <= q < p && 0 <= a < pkgs[q].exemptions.len() ==> exemption_known(
                    name_seq(table.names@),
                    #[trigger] pkgs[q].exemptions[a],
                ),
        decreases pkgs.len() - p,
    {
        let list = &pkgs[p].exemptions;
        let ghost base = store_view(*store);
        let mut a: usize = 0;
        while a < list.len()
            invariant
                a <= list.len(),
                p < pkgs.len(),
                table.wf(),
                *list == pkgs[p as int].exemptions,
                store_view(*store) == with_exemptions(
                    base,
                    *table,
                    pkgs[p as int].name@,
                    list@,
                    a as nat,
                ),
                forall|b: int| 0 <= b < a ==> exemption_known(name_seq(table.names@), #[trigger] list[b]),
            decreases list.len() - a,
        {
            match lower_exemption(table, &list[a]) {
                Ok(edge) => {
                    store.add_edge(&pkgs[p].name, edge);
                },
                Err(_) => {
                    assert(!exemption_known(name_seq(table.names@), pkgs[p as int].exemptions[a as int]));
                    return Err(LoadError::UnknownCriterion);
                },
            }
            a += 1;
        }
        p += 1;
    }
    Ok(())
}

/// The store that the files stand for. Every criterion that the audits,
/// the imported audits and the exemptions name must be one of the universe.
pub fn build_store(
    table: &CriteriaTable,
    audits: &AuditsFile,
    config: &ConfigFile,
    imports: &ImportsFile,
) -> (r: Result<Store, LoadError>)
    requires
        table.wf(),
    ensures
        match r {
            Ok(store) => sources_known(name_seq(table.names@), *audits, *config, *imports)
                && store_view(store) == built_store(*table, *audits, *config, *imports),
            Err(e) => e == LoadError::UnknownCriterion && !sources_known(
                name_seq(table.names@),
                *audits,
                *config,
                *imports,
            ),
        },
{
    let mut store = Store::new();
    match add_audits(&mut store, table, &audits.audits) {
        Ok(_) => {},
        Err(e) => {
            return Err(e);
        },
    }
    let ghost local = store_view(store);
    let mut i: usize = 0;
    while i < imports.audits.len()
        invariant
            i <= imports.audits.len(),
            table.wf(),
            store_view(store) == with_imports(local, *table, imports.audits@, i as nat),
            forall|j: int|
                0 <= j < i ==> audits_known(
                    name_seq(table.names@),
                    (#[trigger] imports.audits[j]).file.audits@,
                ),
        decreases imports.audits.len() - i,
    {
        match add_audits(&mut store, table, &imports.audits[i].file.audits) {
            Ok(_) => {},
            Err(e) => {
                return Err(e);
            },
        }
        i += 1;
    }
    match add_exemptions(&mut store, table, &config.exemptions) {
        Ok(_) => {},
        Err(e) => {
            return Err(e);
        },
    }
    Ok(store)
}

/// The policy that the configuration stands for: the default criteria as
/// the default of the roots, and an entry for each entry, in order.
pub fn build_policy(table: &CriteriaTable, config: &ConfigFile) -> (r: Result<Policy, LoadError>)
    requires
        table.wf(),
    ensures
        match r {
            Ok(policy) => {
                &&& name_seq(table.names@).contains(config.default_criteria@)
                &&& default_view(policy) == Some(
                    table.closure(named_ids(name_seq(table.names@), seq![config.default_criteria])),
                )
                &&& forall|q: int|
                    0 <= q < config.policy.len() ==> policy_known(
                        name_seq(table.names@),
                        #[trigger] config.policy[q],
                    )
                &&& policy_view(policy) == Seq::new(
                    config.policy.len() as nat,
                    |q: int| lowered_policy(*table, config.policy[q]),
                )
            },
            Err(e) => e == LoadError::UnknownCriterion && (!name_seq(table.names@).contains(
                config.default_criteria@,
            ) || exists|q: int|
                0 <= q < config.policy.len() && !policy_known(
                    name_seq(table.names@),
                    #[trigger] config.policy[q],
                )),
        },
{
    let mut named: Vec<String> = Vec::new();
    named.push(config.default_criteria.clone());
    assert(named@ =~= seq![config.default_criteria]);
    let default_criteria = match table.parse_set(&named) {
        Ok(s) => s,
        Err(_) => {
            assert(!name_seq(table.names@).contains(named[0]@));
            return Err(LoadError::UnknownCriterion);
        },
    };
    assert(name_seq(table.names@).contains(named[0]@));
    let mut entries: Vec<PolicyEntry> = Vec::new();
    let mut q: usize = 0;
    while q < config.policy.len()
        invariant
            q <= config.policy.len(),
            table.wf(),
            name_seq(table.names@).contains(config.default_criteria@),
            default_criteria@ == table.closure(
                named_ids(name_seq(table.names@), seq![config.default_criteria]),
            ),
            entries.len() == q,
            forall|b: int|
                0 <= b < q ==> policy_known(name_seq(table.names@), #[trigger] config.policy[b]),
            forall|b: int|
                0 <= b < q ==> entry_view(#[trigger] entries[b]) == lowered_policy(
                    *table,
                    config.policy[b],
                ),
        decreases config.policy.len() - q,
    {
        let entry = &config.policy[q];
        let criteria = match &entry.criteria {
            Some(list) => match table.parse_set(list) {
                Ok(s) => Some(s),
                Err(_) => {
                    assert(!policy_known(name_seq(table.names@), config.policy[q as int]));
                    return Err(LoadError::UnknownCriterion);
                },
            },
            None => None,
        };
        let deps = match lower_requirements(table, &entry.dependency_criteria) {
            Ok(d) => d,
            Err(_) => {
                assert(!policy_known(name_seq(table.names@), config.policy[q as int]));
                return Err(LoadError::UnknownCriterion);
            },
        };
        let audit_as_third_party = match entry.audit_as_third_party {
            Some(b) => b,
            None => false,
        };
        entries.push(PolicyEntry { name: entry.name.clone(), criteria, deps, audit_as_third_party });
        q += 1;
    }
    let policy = Policy { default_criteria: Some(default_criteria), entries };
    assert(policy_view(policy) =~= Seq::new(
        config.policy.len() as nat,
        |q: int| lowered_policy(*table, config.policy[q]),
    ));
    Ok(policy)
}

/// The dependency graph of the packages: a node for each package, in
/// order; a node of the project for each package without a source from the
/// registry; the members of the workspace as roots.
pub fn build_graph(metadata: &Metadata) -> (r: DepGraph)
    ensures
        r.nodes.len() == metadata.packages.len(),
        r.roots@ == metadata.workspace_members@,
        forall|n: int|
            0 <= n < r.nodes.len() ==> {
                &&& (#[trigger] r.nodes[n]).name@ == metadata.packages[n].name@
                &&& r.nodes[n].version == metadata.packages[n].version
                &&& r.nodes[n].first_party == !metadata.packages[n].third_party()
                &&& r.nodes[n].deps.len() == metadata.packages[n].dependencies.len()
                &&& forall|k: int|
                    0 <= k < r.nodes[n].deps.len() ==> (#[trigger] r.nodes[n].deps[k]).to
                        == metadata.packages[n].dependencies[k].package && r.nodes[n].deps[k].kind
                        == metadata.packages[n].dependencies[k].kind
            },
{
    let mut nodes: Vec<Node> = Vec::new();
    let mut n: usize = 0;
    while n < metadata.packages.len()
        invariant
            n <= metadata.packages.len(),
            nodes.len() == n,
            forall|m: int|
                0 <= m < n ==> {
                    &&& (#[trigger] nodes[m]).name@ == metadata.packages[m].name@
                    &&& nodes[m].version == metadata.packages[m].version
                    &&& nodes[m].first_party == !metadata.packages[m].third_party()
                    &&& nodes[m].deps.len() == metadata.packages[m].dependencies.len()
                    &&& forall|k: int|
                        0 <= k < nodes[m].deps.len() ==> (#[trigger] nodes[m].deps[k]).to
                            == metadata.packages[m].dependencies[k].package && nodes[m].deps[k].kind
                            == metadata.packages[m].dependencies[k].kind
                },
        decreases metadata.packages.len() - n,
    {
        let package = &metadata.packages[n];
        let mut deps: Vec<DepEdge> = Vec::new();
        let mut k: usize = 0;
        while k < package.dependencies.len()
            invariant
                k <= package.dependencies.len(),
                deps.len() == k,
                forall|j: int|
                    0 <= j < k ==> (#[trigger] deps[j]).to == package.dependencies[j].package
                        && deps[j].kind == package.dependencies[j].kind,
            decreases package.dependencies.len() - k,
        {
            deps.push(DepEdge { to: package.dependencies[k].package, kind: package.dependencies[k].kind });
            k += 1;
        }
        let first_party = !package.is_third_party();
        nodes.push(Node { name: package.name.clone(), version: package.version.copy(), first_party, deps });
        n += 1;
    }
    let mut roots: Vec<usize> = Vec::new();
    let mut r: usize = 0;
    while r < metadata.workspace_members.len()
        invariant
            r <= metadata.workspace_members.len(),
            roots.len() == r,
            forall|j: int| 0 <= j < r ==> roots[j] == metadata.workspace_members[j],
        decreases metadata.workspace_members.len() - r,
    {
        roots.push(metadata.workspace_members[r]);
        r += 1;
    }
    assert(roots@ =~= metadata.workspace_members@);
    DepGraph { nodes, roots }
}

} // verus!
