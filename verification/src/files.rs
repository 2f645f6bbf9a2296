//! The store as it stands in its files: audits, configuration and imports,
//! with criteria and packages known by name.

use vstd::prelude::*;
use vstd::string::*;
use crate::model::Version;
use crate::universe::{
    all_known, declared_all, find_name, implication_cyclic, name_seq, names_distinct,
    universe_names, CriteriaEntry, CriteriaTable, LoadError,
};

verus! {

/// Criteria asked of one dependency, both by name.
#[derive(Debug)]
pub struct NamedCriteria {
    pub name: String,
    pub criteria: Vec<String>,
}

/// What an audit speaks of: a whole version, or the changes between two.
#[derive(Clone, Debug, PartialEq, Eq)]
pub enum AuditKind {
    Full { version: Version },
    Delta { from: Version, to: Version },
}

/// One audit of a package.
#[derive(Debug)]
pub struct AuditEntry {
    pub kind: AuditKind,
    pub criteria: Vec<String>,
    pub who: Option<String>,
    pub notes: Option<String>,
    pub dependency_criteria: Vec<NamedCriteria>,
}

/// The audits of one package.
#[derive(Debug)]
pub struct AuditedPackage {
    pub name: String,
    pub audits: Vec<AuditEntry>,
}

/// The audits file: the criteria and the audits made.
#[derive(Debug)]
pub struct AuditsFile {
    pub criteria: Vec<CriteriaEntry>,
    pub audits: Vec<AuditedPackage>,
}

/// One exemption of a package.
#[derive(Debug)]
pub struct ExemptionEntry {
    pub version: Version,
    pub criteria: Vec<String>,
    pub dependency_criteria: Vec<NamedCriteria>,
    /// Whether suggestions may assume the exemption away.
    pub suggest: bool,
    pub notes: Option<String>,
}

/// The exemptions of one package.
#[derive(Debug)]
pub struct ExemptedPackage {
    pub name: String,
    pub exemptions: Vec<ExemptionEntry>,
}

/// The policy of one package of the project.
#[derive(Debug)]
pub struct PolicyFileEntry {
    pub name: String,
    pub criteria: Option<Vec<String>>,
    pub dependency_criteria: Vec<NamedCriteria>,
    pub audit_as_third_party: Option<bool>,
}

/// A source of audits made by others.
#[derive(Debug)]
pub struct ImportEntry {
    pub name: String,
    pub url: String,
}

/// The configuration file.
#[derive(Debug)]
pub struct ConfigFile {
    pub default_criteria: String,
    pub imports: Vec<ImportEntry>,
    pub exemptions: Vec<ExemptedPackage>,
    pub policy: Vec<PolicyFileEntry>,
}

/// The audits file of one import, as last fetched.
#[derive(Debug)]
pub struct ImportedAudits {
    pub name: String,
    pub file: AuditsFile,
}

/// The imports lock: the audits of every import.
#[derive(Debug)]
pub struct ImportsFile {
    pub audits: Vec<ImportedAudits>,
}

// ---------------------------------------------------------------------------
// What makes a file valid
// ---------------------------------------------------------------------------
/// The declared criteria form a universe.
pub open spec fn universe_loads(entries: Seq<CriteriaEntry>) -> bool {
    &&& entries.len() <= 62
    &&& names_distinct(universe_names(entries))
    &&& forall|k: int|
        0 <= k < entries.len() ==> all_known(universe_names(entries), (#[trigger] entries[k]).implies@)
    &&& !implication_cyclic(declared_all(entries))
}

/// Why the declared criteria form no universe.
pub open spec fn universe_error(entries: Seq<CriteriaEntry>) -> LoadError {
    if entries.len() > 62 {
        LoadError::TooManyCriteria
    } else if !names_distinct(universe_names(entries)) {
        LoadError::DuplicateCriterion
    } else if !(forall|k: int|
        0 <= k < entries.len() ==> all_known(universe_names(entries), (#[trigger] entries[k]).implies@)) {
        LoadError::UnknownCriterion
    } else {
        LoadError::CyclicImplication
    }
}

/// Every criterion named for a dependency is known.
pub open spec fn named_known(names: Seq<Seq<char>>, list: Seq<NamedCriteria>) -> bool {
    forall|d: int| 0 <= d < list.len() ==> all_known(names, (#[trigger] list[d]).criteria@)
}

/// The audit names known criteria only.
pub open spec fn audit_known(names: Seq<Seq<char>>, e: AuditEntry) -> bool {
    all_known(names, e.criteria@) && named_known(names, e.dependency_criteria@)
}

/// The audits name known criteria only.
pub open spec fn audits_known(names: Seq<Seq<char>>, audits: Seq<AuditedPackage>) -> bool {
    forall|p: int, a: int|
        0 <= p < audits.len() && 0 <= a < audits[p].audits.len() ==> audit_known(
            names,
            #[trigger] audits[p].audits[a],
        )
}

/// The exemption names known criteria only.
pub open spec fn exemption_known(names: Seq<Seq<char>>, e: ExemptionEntry) -> bool {
    all_known(names, e.criteria@) && named_known(names, e.dependency_criteria@)
}

/// The policy entry names known criteria only.
pub open spec fn policy_known(names: Seq<Seq<char>>, e: PolicyFileEntry) -> bool {
    &&& match e.criteria {
        Some(list) => all_known(names, list@),
        None => true,
    }
    &&& named_known(names, e.dependency_criteria@)
}

impl AuditsFile {
    /// The criteria form a universe and the audits name criteria of it only.
    pub open spec fn valid(&self) -> bool {
        universe_loads(self.criteria@) && audits_known(universe_names(self.criteria@), self.audits@)
    }
}

impl ConfigFile {
    /// The file names criteria of the universe only.
    pub open spec fn valid(&self, names: Seq<Seq<char>>) -> bool {
        &&& names.contains(self.default_criteria@)
        &&& forall|p: int, e: int|
            0 <= p < self.exemptions.len() && 0 <= e < self.exemptions[p].exemptions.len()
                ==> exemption_known(names, #[trigger] self.exemptions[p].exemptions[e])
        &&& forall|q: int| 0 <= q < self.policy.len() ==> policy_known(names, #[trigger] self.policy[q])
    }
}

impl ImportsFile {
    /// Every imported file is valid by itself.
    pub open spec fn valid(&self) -> bool {
        forall|i: int| 0 <= i < self.audits.len() ==> (#[trigger] self.audits[i]).file.valid()
    }

    /// The first imported file that is not valid.
    pub open spec fn first_invalid(&self) -> int {
        choose|i: int|
            0 <= i < self.audits.len() && !(#[trigger] self.audits[i]).file.valid() && forall|j: int|
                0 <= j < i ==> (#[trigger] self.audits[j]).file.valid()
    }
}

/// Why an audits file is not valid.
pub open spec fn audits_error(file: AuditsFile) -> LoadError {
    if universe_loads(file.criteria@) {
        LoadError::UnknownCriterion
    } else {
        universe_error(file.criteria@)
    }
}

// ---------------------------------------------------------------------------
// Checking
// ---------------------------------------------------------------------------
/// Whether every name of the list is the name of a criterion.
pub fn check_known(names: &Vec<String>, list: &Vec<String>) -> (r: bool)
    ensures
        r == all_known(name_seq(names@), list@),
{
    let ghost wanted = name_seq(names@);
    let mut m: usize = 0;
    while m < list.len()
        invariant
            m <= list.len(),
            wanted == name_seq(names@),
            forall|w: int| 0 <= w < m ==> wanted.contains((#[trigger] list[w])@),
        decreases list.len() - m,
    {
        match find_name(names, &list[m]) {
            Some(j) => {
                assert(wanted[j as int] == names[j as int]@);
            },
            None => {
                proof {
                    if wanted.contains(list[m as int]@) {
                        let j = choose|j: int| 0 <= j < wanted.len() && wanted[j] == list[m as int]@;
                        assert(names[j]@ == wanted[j]);
                    }
                }
                return false;
            },
        }
        m += 1;
    }
    true
}

/// Whether every criterion named for a dependency is known.
pub fn check_named_known(names: &Vec<String>, list: &Vec<NamedCriteria>) -> (r: bool)
    ensures
        r == named_known(name_seq(names@), list@),
{
    let mut d: usize = 0;
    while d < list.len()
        invariant
            d <= list.len(),
            forall|w: int| 0 <= w < d ==> all_known(name_seq(names@), (#[trigger] list[w]).criteria@),
        decreases list.len() - d,
    {
        if !check_known(names, &list[d].criteria) {
            return false;
        }
        d += 1;
    }
    true
}

/// Whether the audits name known criteria only.
pub fn check_audits_known(names: &Vec<String>, audits: &Vec<AuditedPackage>) -> (r: bool)
    ensures
        r == audits_known(name_seq(names@), audits@),
{
    let mut p: usize = 0;
    while p < audits.len()
        invariant
            p <= audits.len(),
            forall|q: int, a: int|
                0 <= q < p && 0 <= a < audits[q].audits.len() ==> audit_known(
                    name_seq(names@),
                    #[trigger] audits[q].audits[a],
                ),
        decreases audits.len() - p,
    {
        let list = &audits[p].audits;
        let mut a: usize = 0;
        while a < list.len()
            invariant
                a <= list.len(),
                p < audits.len(),
                *list == audits[p as int].audits,
                forall|b: int| 0 <= b < a ==> audit_known(name_seq(names@), #[trigger] list[b]),
            decreases list.len() - a,
        {
            if !check_known(names, &list[a].criteria) || !check_named_known(
                names,
                &list[a].dependency_criteria,
            ) {
                assert(!audit_known(name_seq(names@), audits[p as int].audits[a as int]));
                return false;
            }
            a += 1;
        }
        p += 1;
    }
    true
}

/// Checks a loaded audits file: its criteria must form a universe, and its
/// audits must name criteria of that universe only. Hands the file back
/// where it is valid.
pub fn load_audits(file: AuditsFile) -> (r: Result<AuditsFile, LoadError>)
    ensures
        match r {
            Ok(f) => f == file && file.valid(),
            Err(e) => !file.valid() && e == audits_error(file),
        },
{
    match CriteriaTable::load(&file.criteria) {
        Ok(table) => {
            assert(name_seq(table.names@).len() == table.names.len());
            assert(universe_names(file.criteria@).len() == file.criteria.len() + 2);
            assert(universe_loads(file.criteria@));
            if check_audits_known(&table.names, &file.audits) {
                Ok(file)
            } else {
                Err(LoadError::UnknownCriterion)
            }
        },
        Err(e) => {
            assert(!universe_loads(file.criteria@));
            Err(e)
        },
    }
}

/// Checks a loaded configuration file against the universe of criteria: the
/// default criteria, the exemptions and the policy must name criteria of
/// the universe only. Hands the file back where it is valid.
pub fn load_config(file: ConfigFile, table: &CriteriaTable) -> (r: Result<ConfigFile, LoadError>)
    ensures
        match r {
            Ok(f) => f == file && file.valid(name_seq(table.names@)),
            Err(e) => e == LoadError::UnknownCriterion && !file.valid(name_seq(table.names@)),
        },
{
    let ghost names = name_seq(table.names@);
    match find_name(&table.names, &file.default_criteria) {
        Some(j) => {
            assert(names[j as int] == table.names[j as int]@);
        },
        None => {
            proof {
                if names.contains(file.default_criteria@) {
                    let j = choose|j: int| 0 <= j < names.len() && names[j] == file.default_criteria@;
                    assert(table.names[j]@ == names[j]);
                }
            }
            return Err(LoadError::UnknownCriterion);
        },
    }
    let mut p: usize = 0;
    while p < file.exemptions.len()
        invariant
            p <= file.exemptions.len(),
            names == name_seq(table.names@),
            forall|q: int, e: int|
                0 <= q < p && 0 <= e < file.exemptions[q].exemptions.len() ==> exemption_known(
                    names,
                    #[trigger] file.exemptions[q].exemptions[e],
                ),
        decreases file.exemptions.len() - p,
    {
        let list = &file.exemptions[p].exemptions;
        let mut e: usize = 0;
        while e < list.len()
            invariant
                e <= list.len(),
                p < file.exemptions.len(),
                names == name_seq(table.names@),
                *list == file.exemptions[p as int].exemptions,
                forall|b: int| 0 <= b < e ==> exemption_known(names, #[trigger] list[b]),
            decreases list.len() - e,
        {
            if !check_known(&table.names, &list[e].criteria) || !check_named_known(
                &table.names,
                &list[e].dependency_criteria,
            ) {
                assert(!exemption_known(names, file.exemptions[p as int].exemptions[e as int]));
                return Err(LoadError::UnknownCriterion);
            }
            e += 1;
        }
        p += 1;
    }
    let mut q: usize = 0;
    while q < file.policy.len()
        invariant
            q <= file.policy.len(),
            names == name_seq(table.names@),
            names.contains(file.default_criteria@),
            forall|a: int, e: int|
                0 <= a < file.exemptions.len() && 0 <= e < file.exemptions[a].exemptions.len()
                    ==> exemption_known(names, #[trigger] file.exemptions[a].exemptions[e]),
            forall|b: int| 0 <= b < q ==> policy_known(names, #[trigger] file.policy[b]),
        decreases file.policy.len() - q,
    {
        let entry = &file.policy[q];
        let own = match &entry.criteria {
            Some(list) => check_known(&table.names, list),
            None => true,
        };
        if !own || !check_named_known(&table.names, &entry.dependency_criteria) {
            assert(!policy_known(names, file.policy[q as int]));
            return Err(LoadError::UnknownCriterion);
        }
        q += 1;
    }
    Ok(file)
}

/// Checks a loaded imports lock: every imported audits file must be valid
/// by itself. Hands the file back where it is; else says what is wrong with
/// the first imported file that is not.
pub fn load_imports(file: ImportsFile) -> (r: Result<ImportsFile, LoadError>)
    ensures
        match r {
            Ok(f) => f == file && file.valid(),
            Err(e) => !file.valid() && e == audits_error(file.audits[file.first_invalid()].file),
        },
{
    let mut i: usize = 0;
    while i < file.audits.len()
        invariant
            i <= file.audits.len(),
            forall|j: int| 0 <= j < i ==> (#[trigger] file.audits[j]).file.valid(),
        decreases file.audits.len() - i,
    {
        let inner = &file.audits[i].file;
        let found: Option<LoadError> = match CriteriaTable::load(&inner.criteria) {
            Ok(table) => {
                assert(name_seq(table.names@).len() == table.names.len());
                assert(universe_names(inner.criteria@).len() == inner.criteria.len() + 2);
                assert(universe_loads(inner.criteria@));
                if check_audits_known(&table.names, &inner.audits) {
                    None
                } else {
                    Some(LoadError::UnknownCriterion)
                }
            },
            Err(e) => {
                assert(!universe_loads(inner.criteria@));
                Some(e)
            },
        };
        match found {
            Some(e) => {
                proof {
                    let k = file.first_invalid();
                    assert(0 <= i < file.audits.len() && !file.audits[i as int].file.valid());
                    if k < i {
                        assert(file.audits[k].file.valid());
                    }
                    if i < k {
                        assert(file.audits[i as int].file.valid());
                    }
                }
                return Err(e);
            },
            None => {},
        }
        i += 1;
    }
    Ok(file)
}

// ---------------------------------------------------------------------------
// Framing what is written
// ---------------------------------------------------------------------------
/// The text of a store file: the heading, a line break, the body and a
/// closing line break.
pub open spec fn framed(heading: Seq<char>, body: Seq<char>) -> Seq<char> {
    heading + seq!['\n'] + body + seq!['\n']
}

fn frame(heading: &str, body: &str) -> (r: String)
    ensures
        r@ == framed(heading@, body@),
{
    proof {
        reveal_strlit("\n");
        assert("\n"@ =~= seq!['\n']);
    }
    let mut text = String::from_str(heading);
    text.append("\n");
    text.append(body);
    text.append("\n");
    text
}

/// The text of the audits file whose contents are `body`.
pub fn store_audits(body: &str) -> (r: String)
    ensures
        r@ == framed("\n# cargo-vet audits file\n"@, body@),
{
    frame("\n# cargo-vet audits file\n", body)
}

/// The text of the configuration file whose contents are `body`.
pub fn store_config(body: &str) -> (r: String)
    ensures
        r@ == framed("\n# cargo-vet config file\n"@, body@),
{
    frame("\n# cargo-vet config file\n", body)
}

/// The text of the imports lock whose contents are `body`.
pub fn store_imports(body: &str) -> (r: String)
    ensures
        r@ == framed("\n# cargo-vet imports lock\n"@, body@),
{
    frame("\n# cargo-vet imports lock\n", body)
}

/// The text of the diff cache whose contents are `body`.
pub fn store_diffcache(body: &str) -> (r: String)
    ensures
        r@ == framed(""@, body@),
{
    frame("", body)
}

} // verus!
