//! What the commands of the tool compute: the files of a fresh store, a new
//! audit, versions and deltas given as text, the audits to suggest, and the
//! exemptions that are left after minimizing.

use vstd::prelude::*;
use vstd::string::*;
use crate::criteria::CriteriaSet;
use crate::files::{
    AuditEntry, AuditKind, AuditedPackage, AuditsFile, ConfigFile, ExemptedPackage, ExemptionEntry,
    ImportsFile,
};
use crate::metadata::{Metadata, PackageExt};
use crate::minimize::is_exemption;
use crate::diffstat::chars_of;
use crate::minimize::minimized;
use crate::recommend::Delta;
use crate::text::{push_version, version_string, version_text};
use crate::model::{
    first_named, lemma_first_named, lemma_first_named_none, AuditOrigin, DepGraph, GraphError, Policy,
    Store, Version, VersionView,
};
use crate::resolver::{nothing_assumed_row, store_criteria_rows};
use crate::satisfy::{crit_view, Problem};
use crate::semantics::{nothing_assumed, passes, store_criteria, Inputs};
use crate::suggest::{candidates_fit, is_suggestable, round_inputs, Candidate};
use crate::universe::CriteriaTable;

verus! {

// ---------------------------------------------------------------------------
// Versions as text
// ---------------------------------------------------------------------------
/// What `semver::Version::parse` makes of a text: the three numbers, the
/// pre-release tag and the build metadata; nothing where it rejects the
/// text.
pub uninterp spec fn semver_parts(text: Seq<char>) -> Option<(u64, u64, u64, Seq<char>, Seq<char>)>;

/// Why a text is no version.
#[derive(Clone, Copy, Debug, PartialEq, Eq, Structural)]
pub enum VersionError {
    /// The text is no semantic version.
    Malformed,
}

/// Parses a semantic version.
///
/// Calls `semver::Version::parse`, as re-exported by `cargo_metadata`, and
/// hands its result on part by part. The contract only gives the result a
/// name; it claims nothing of what the parser accepts.
#[verifier::external_body]
fn semver_parse(text: &str) -> (r: Option<(u64, u64, u64, String, String)>)
    ensures
        match r {
            Some(p) => semver_parts(text@) == Some((p.0, p.1, p.2, p.3@, p.4@)),
            None => semver_parts(text@) is None,
        },
{
    match cargo_metadata::Version::parse(text) {
        Ok(v) => Some(
            (v.major, v.minor, v.patch, v.pre.as_str().to_string(), v.build.as_str().to_string()),
        ),
        Err(_) => None,
    }
}

/// The version that parsed parts stand for.
pub open spec fn version_of(parts: Option<(u64, u64, u64, Seq<char>, Seq<char>)>) -> Result<
    VersionView,
    VersionError,
> {
    match parts {
        None => Err(VersionError::Malformed),
        Some(p) => Ok(VersionView { major: p.0, minor: p.1, patch: p.2, pre: p.3, build: p.4 }),
    }
}

/// What a parsed version holds, or why there is none.
pub open spec fn parsed_view(r: Result<Version, VersionError>) -> Result<VersionView, VersionError> {
    match r {
        Ok(v) => Ok(v@),
        Err(e) => Err(e),
    }
}

/// The version that parsed parts stand for: the three numbers and the two
/// tags.
pub fn version_from_parts(parts: Option<(u64, u64, u64, String, String)>) -> (r: Result<
    Version,
    VersionError,
>)
    ensures
        parsed_view(r) == version_of(
            match parts {
                Some(p) => Some((p.0, p.1, p.2, p.3@, p.4@)),
                None => None,
            },
        ),
{
    match parts {
        None => Err(VersionError::Malformed),
        Some(p) => Ok(Version { major: p.0, minor: p.1, patch: p.2, pre: p.3, build: p.4 }),
    }
}

/// The version that a text stands for.
pub fn parse_version(text: &str) -> (r: Result<Version, VersionError>)
    ensures
        parsed_view(r) == version_of(semver_parts(text@)),
{
    version_from_parts(semver_parse(text))
}

// ---------------------------------------------------------------------------
// The order of versions
// ---------------------------------------------------------------------------
/// Whether the version that the text `a` stands for has precedence lower
/// than the one that `b` stands for, as `semver::Version` orders them;
/// false where one of the texts is no version.
pub uninterp spec fn semver_precedes(a: Seq<char>, b: Seq<char>) -> bool;

/// Compares two versions given as text.
///
/// Parses both with `semver::Version::parse` and compares the results with
/// the `<` of `semver::Version`. The contract only gives the result a name;
/// it claims nothing of the order.
#[verifier::external_body]
fn semver_less(a: &str, b: &str) -> (r: bool)
    ensures
        r == semver_precedes(a@, b@),
{
    match (cargo_metadata::Version::parse(a), cargo_metadata::Version::parse(b)) {
        (Ok(x), Ok(y)) => x < y,
        _ => false,
    }
}

impl Version {
    /// `self` comes before `other` in the order of versions.
    pub open spec fn before(self, other: Version) -> bool {
        semver_precedes(version_text(self@), version_text(other@))
    }

    /// Whether `self` comes before `other` in the order of versions.
    pub fn is_before(&self, other: &Version) -> (r: bool)
        ensures
            r == self.before(*other),
    {
        let a = version_string(self);
        let b = version_string(other);
        semver_less(a.as_str(), b.as_str())
    }
}

/// The text that parts the two versions of a delta: an arrow between
/// spaces.
pub open spec fn arrow() -> Seq<char> {
    seq![' ', '-', '>', ' ']
}

/// The arrow stands in `s` at position `i`.
pub open spec fn arrow_at(s: Seq<char>, i: int) -> bool {
    0 <= i && i + 4 <= s.len() && s.subrange(i, i + 4) == arrow()
}

/// The first arrow of `s` stands at position `i`.
pub open spec fn first_arrow(s: Seq<char>, i: int) -> bool {
    arrow_at(s, i) && forall|j: int| 0 <= j < i ==> !arrow_at(s, j)
}

/// Why a text is no delta between two versions.
#[derive(Clone, Copy, Debug, PartialEq, Eq, Structural)]
pub enum DeltaError {
    /// The text holds no arrow.
    NoArrow,
    /// What stands before the first arrow is no version.
    From(VersionError),
    /// What stands after the first arrow is no version.
    To(VersionError),
}

/// The delta that a text stands for: the versions before and after its
/// first arrow.
pub open spec fn delta_of(s: Seq<char>) -> Result<(VersionView, VersionView), DeltaError> {
    if exists|i: int| first_arrow(s, i) {
        let i = choose|i: int| first_arrow(s, i);
        match version_of(semver_parts(s.subrange(0, i))) {
            Err(e) => Err(DeltaError::From(e)),
            Ok(from) => match version_of(semver_parts(s.subrange(i + 4, s.len() as int))) {
                Err(e) => Err(DeltaError::To(e)),
                Ok(to) => Ok((from, to)),
            },
        }
    } else {
        Err(DeltaError::NoArrow)
    }
}

/// What a parsed delta holds, or why there is none.
pub open spec fn delta_view(r: Result<Delta, DeltaError>) -> Result<(VersionView, VersionView), DeltaError> {
    match r {
        Ok(d) => Ok((d.from@, d.to@)),
        Err(e) => Err(e),
    }
}

/// The delta that a text such as `1.0.0 -> 1.2.0` stands for.
pub fn parse_delta(text: &str) -> (r: Result<Delta, DeltaError>)
    ensures
        delta_view(r) == delta_of(text@),
{
    let chars = chars_of(text);
    let len = chars.len();
    let mut i: usize = 0;
    while i < len && !(len - i >= 4 && chars[i] == ' ' && chars[i + 1] == '-' && chars[i + 2] == '>'
        && chars[i + 3] == ' ')
        invariant
            i <= len,
            len == chars.len(),
            chars@ == text@,
            forall|j: int| 0 <= j < i ==> !arrow_at(text@, j),
        decreases len - i,
    {
        proof {
            if arrow_at(text@, i as int) {
                let part = text@.subrange(i as int, i + 4);
                assert(part[0] == ' ' && part[1] == '-' && part[2] == '>' && part[3] == ' ');
            }
        }
        i += 1;
    }
    if i >= len {
        proof {
            if exists|k: int| first_arrow(text@, k) {
                let k = choose|k: int| first_arrow(text@, k);
                assert(k < i);
            }
        }
        return Err(DeltaError::NoArrow);
    }
    proof {
        assert(text@.subrange(i as int, i + 4) =~= arrow());
        assert(first_arrow(text@, i as int));
        let k = choose|k: int| first_arrow(text@, k);
        if k < i {
            assert(!arrow_at(text@, k));
        }
        if i < k {
            assert(!arrow_at(text@, i as int));
        }
        assert(k == i);
    }
    let from = match parse_version(text.substring_char(0, i)) {
        Ok(v) => v,
        Err(e) => {
            return Err(DeltaError::From(e));
        },
    };
    let to = match parse_version(text.substring_char(i + 4, text.unicode_len())) {
        Ok(v) => v,
        Err(e) => {
            return Err(DeltaError::To(e));
        },
    };
    Ok(Delta { from, to })
}

/// A delta as text: the two versions with an arrow between them.
pub fn delta_string(delta: &Delta) -> (r: String)
    ensures
        r@ == version_text(delta.from@) + arrow() + version_text(delta.to@),
{
    proof {
        reveal_strlit(" -> ");
        assert(" -> "@ =~= arrow());
    }
    let mut text = version_string(&delta.from);
    text.append(" -> ");
    push_version(&mut text, &delta.to);
    text
}

// ---------------------------------------------------------------------------
// A fresh store
// ---------------------------------------------------------------------------
/// The names of the exempted packages.
pub open spec fn exempted_names(list: Seq<ExemptedPackage>) -> Seq<Seq<char>> {
    Seq::new(list.len(), |p: int| list[p].name@)
}

/// The exemption is one that a fresh store gives to a package from the
/// registry: for `safe-to-deploy`, and open to suggestions.
pub open spec fn fresh_exemption(e: ExemptionEntry) -> bool {
    &&& e.suggest
    &&& e.criteria.len() == 1
    &&& e.criteria[0]@ == "safe-to-deploy"@
    &&& e.dependency_criteria.len() == 0
    &&& match e.notes {
        Some(n) => n@ == "automatically imported by 'cargo vet init'"@,
        None => false,
    }
}

/// One of the first `upto` packages comes from the registry and has this
/// name and version.
pub open spec fn is_foreign(metadata: Metadata, upto: int, name: Seq<char>, v: Version) -> bool {
    exists|m: int|
        0 <= m < upto && (#[trigger] metadata.packages[m]).third_party() && metadata.packages[m].name@
            == name && metadata.packages[m].version == v
}

/// The list exempts the package `name` at version `v`.
pub open spec fn exempts(list: Seq<ExemptedPackage>, name: Seq<char>, v: Version) -> bool {
    exists|p: int, e: int|
        0 <= p < list.len() && 0 <= e < list[p].exemptions.len() && list[p].name@ == name && (
        #[trigger] list[p].exemptions[e]).version == v
}

/// The exemptions are those of a fresh store for the first `upto` packages:
/// one for each package from the registry, and nothing else; no package
/// twice.
pub open spec fn fresh_exemptions(metadata: Metadata, upto: int, list: Seq<ExemptedPackage>) -> bool {
    &&& forall|p: int, q: int| 0 <= p < q < list.len() ==> list[p].name@ != list[q].name@
    &&& forall|p: int, e: int|
        0 <= p < list.len() && 0 <= e < list[p].exemptions.len() ==> fresh_exemption(
            #[trigger] list[p].exemptions[e],
        ) && is_foreign(metadata, upto, list[p].name@, list[p].exemptions[e].version)
    &&& forall|m: int|
        0 <= m < upto && (#[trigger] metadata.packages[m]).third_party() ==> exempts(
            list,
            metadata.packages[m].name@,
            metadata.packages[m].version,
        )
}

/// The versions that a list exempts, package by package.
pub open spec fn exempted_versions(list: Seq<ExemptedPackage>) -> Seq<(Seq<char>, Seq<Version>)> {
    Seq::new(
        list.len(),
        |p: int|
            (
                list[p].name@,
                Seq::new(list[p].exemptions.len() as nat, |e: int| list[p].exemptions[e].version),
            ),
    )
}

/// The exempted versions with one more: behind those of the package called
/// `name`, or, where there is no such package yet, with the package at the
/// end.
pub open spec fn with_exempted(list: Seq<(Seq<char>, Seq<Version>)>, name: Seq<char>, v: Version) -> Seq<
    (Seq<char>, Seq<Version>),
> {
    match first_named(Seq::new(list.len(), |p: int| list[p].0), name) {
        Some(q) => list.update(q, (name, list[q].1.push(v))),
        None => list.push((name, seq![v])),
    }
}

/// The versions that a fresh store exempts for the first `upto` packages:
/// the version of every package that comes from the registry, in the order
/// of the packages, under the name of the package.
pub open spec fn fresh_versions(metadata: Metadata, upto: int) -> Seq<(Seq<char>, Seq<Version>)>
    decreases upto,
{
    if upto <= 0 {
        Seq::empty()
    } else {
        let before = fresh_versions(metadata, upto - 1);
        let package = metadata.packages[upto - 1];
        if package.third_party() {
            with_exempted(before, package.name@, package.version)
        } else {
            before
        }
    }
}

/// What adding an exemption does to the versions that a list exempts.
proof fn lemma_exempted_step(
    before: Seq<ExemptedPackage>,
    after: Seq<ExemptedPackage>,
    name: Seq<char>,
    item: ExemptionEntry,
)
    requires
        match first_named(exempted_names(before), name) {
            Some(q) => {
                &&& after.len() == before.len()
                &&& forall|p: int| 0 <= p < before.len() && p != q ==> #[trigger] after[p] == before[p]
                &&& after[q].name == before[q].name
                &&& after[q].exemptions@ == before[q].exemptions@.push(item)
            },
            None => {
                &&& after.len() == before.len() + 1
                &&& forall|p: int| 0 <= p < before.len() ==> #[trigger] after[p] == before[p]
                &&& after[before.len() as int].name@ == name
                &&& after[before.len() as int].exemptions@ == seq![item]
            },
        },
    ensures
        exempted_versions(after) == with_exempted(exempted_versions(before), name, item.version),
{
    let old_views = exempted_versions(before);
    let new_views = exempted_versions(after);
    let names = Seq::new(old_views.len(), |p: int| old_views[p].0);
    assert(names =~= exempted_names(before));
    let want = with_exempted(old_views, name, item.version);
    match first_named(exempted_names(before), name) {
        Some(q) => {
            assert(crate::model::is_first(exempted_names(before), name, q));
            assert(before[q].name@ == name);
            assert(new_views.len() == want.len());
            assert forall|p: int| 0 <= p < new_views.len() implies new_views[p] == want[p] by {
                if p == q {
                    assert(new_views[p].1 =~= old_views[q].1.push(item.version)) by {
                        assert forall|e: int| 0 <= e < after[q].exemptions.len() implies after[q].exemptions[e].version
                            == old_views[q].1.push(item.version)[e] by {
                            if e < before[q].exemptions.len() {
                                assert(after[q].exemptions[e] == before[q].exemptions[e]);
                            }
                        }
                    }
                } else {
                    assert(after[p] == before[p]);
                    assert(new_views[p].1 =~= old_views[p].1);
                }
            }
            assert(new_views =~= want);
        },
        None => {
            assert(new_views.len() == want.len());
            assert forall|p: int| 0 <= p < new_views.len() implies new_views[p] == want[p] by {
                if p < before.len() {
                    assert(after[p] == before[p]);
                    assert(new_views[p].1 =~= old_views[p].1);
                } else {
                    assert(new_views[p].1 =~= seq![item.version]);
                }
            }
            assert(new_views =~= want);
        },
    }
}

/// Adds an exemption to those of the package called `name`; where the list
/// has no such package yet, the package is added at the end.
pub fn add_exemption(list: &mut Vec<ExemptedPackage>, name: &String, item: ExemptionEntry)
    ensures
        match first_named(exempted_names(old(list)@), name@) {
            Some(q) => {
                &&& final(list).len() == old(list).len()
                &&& forall|p: int| 0 <= p < old(list).len() && p != q ==> #[trigger] final(list)[p] == old(list)[p]
                &&& final(list)[q].name == old(list)[q].name
                &&& final(list)[q].exemptions@ == old(list)[q].exemptions@.push(item)
            },
            None => {
                &&& final(list).len() == old(list).len() + 1
                &&& forall|p: int| 0 <= p < old(list).len() ==> #[trigger] final(list)[p] == old(list)[p]
                &&& final(list)[old(list).len() as int].name@ == name@
                &&& final(list)[old(list).len() as int].exemptions@ == seq![item]
            },
        },
{
    let ghost names = exempted_names(list@);
    let mut p: usize = 0;
    while p < list.len()
        invariant
            p <= list.len(),
            *list == *old(list),
            names == exempted_names(list@),
            forall|q: int| 0 <= q < p ==> names[q] != name@,
        decreases list.len() - p,
    {
        assert(names[p as int] == list[p as int].name@);
        if list[p].name == *name {
            proof {
                lemma_first_named(names, name@, p as int);
            }
            list[p].exemptions.push(item);
            return ;
        }
        p += 1;
    }
    proof {
        lemma_first_named_none(names, name@);
    }
    let mut exemptions: Vec<ExemptionEntry> = Vec::new();
    exemptions.push(item);
    list.push(ExemptedPackage { name: name.clone(), exemptions });
}

/// The files of a fresh store: no audits, no imports, and one exemption for
/// every package that comes from the registry, in the order of the
/// packages, those of one name together.
pub fn init_files(metadata: &Metadata) -> (r: (ConfigFile, AuditsFile, ImportsFile))
    ensures
        r.1.criteria.len() == 0,
        r.1.audits.len() == 0,
        r.2.audits.len() == 0,
        r.0.default_criteria@ == "safe-to-deploy"@,
        r.0.imports.len() == 0,
        r.0.policy.len() == 0,
        fresh_exemptions(*metadata, metadata.packages.len() as int, r.0.exemptions@),
        exempted_versions(r.0.exemptions@) == fresh_versions(*metadata, metadata.packages.len() as int),
{
    let audits = AuditsFile { criteria: Vec::new(), audits: Vec::new() };
    let imports = ImportsFile { audits: Vec::new() };
    let mut exemptions: Vec<ExemptedPackage> = Vec::new();
    let mut m: usize = 0;
    while m < metadata.packages.len()
        invariant
            m <= metadata.packages.len(),
            fresh_exemptions(*metadata, m as int, exemptions@),
            exempted_versions(exemptions@) == fresh_versions(*metadata, m as int),
        decreases metadata.packages.len() - m,
    {
        let package = &metadata.packages[m];
        let ghost before = exemptions@;
        if package.is_third_party() {
            let mut criteria: Vec<String> = Vec::new();
            criteria.push(String::from_str("safe-to-deploy"));
            let item = ExemptionEntry {
                version: package.version.copy(),
                criteria,
                dependency_criteria: Vec::new(),
                suggest: true,
                notes: Some(String::from_str("automatically imported by 'cargo vet init'")),
            };
            assert(fresh_exemption(item));
            add_exemption(&mut exemptions, &package.name, item);
            proof {
                lemma_exempted_step(before, exemptions@, package.name@, item);
            }
            proof {
                let after = exemptions@;
                let name = package.name@;
                let found = first_named(exempted_names(before), name);
                assert(is_foreign(*metadata, m + 1, name, package.version));
                // Where each old entry stands now.
                assert forall|p: int, e: int|
                    0 <= p < before.len() && 0 <= e < before[p].exemptions.len() implies after[p].name@
                    == before[p].name@ && e < after[p].exemptions.len() && after[p].exemptions[e]
                    == #[trigger] before[p].exemptions[e] by {
                    if found == Some(p) {
                        assert(after[p].exemptions@ == before[p].exemptions@.push(item));
                    } else {
                        assert(after[p] == before[p]);
                    }
                }
                assert forall|p: int, q: int| 0 <= p < q < after.len() implies after[p].name@
                    != after[q].name@ by {
                    assert(after[p].name@ == before[p].name@) by {
                        if found != Some(p) {
                            assert(after[p] == before[p]);
                        }
                    }
                    if q < before.len() {
                        assert(after[q].name@ == before[q].name@) by {
                            if found != Some(q) {
                                assert(after[q] == before[q]);
                            }
                        }
                    } else {
                        assert(found is None);
                        assert(exempted_names(before)[p] == before[p].name@);
                        if before[p].name@ == name {
                            let f = choose|f: int| crate::model::is_first(exempted_names(before), name, f);
                            assert(crate::model::is_first(exempted_names(before), name, f)) by {
                                lemma_first_index_exists(exempted_names(before), name, p);
                            }
                        }
                    }
                }
                assert forall|p: int, e: int|
                    0 <= p < after.len() && 0 <= e < after[p].exemptions.len() implies fresh_exemption(
                    #[trigger] after[p].exemptions[e],
                ) && is_foreign(*metadata, m + 1, after[p].name@, after[p].exemptions[e].version) by {
                    if p < before.len() && e < before[p].exemptions.len() {
                        assert(after[p].exemptions[e] == before[p].exemptions[e]);
                        assert(after[p].name@ == before[p].name@);
                        assert(fresh_exemption(before[p].exemptions[e]));
                        let w = choose|w: int|
                            0 <= w < m && (#[trigger] metadata.packages[w]).third_party()
                                && metadata.packages[w].name@ == before[p].name@
                                && metadata.packages[w].version == before[p].exemptions[e].version;
                        assert(0 <= w < m + 1);
                    } else if p < before.len() {
                        assert(found == Some(p)) by {
                            if found != Some(p) {
                                assert(after[p] == before[p]);
                            }
                        }
                        assert(after[p].exemptions@ == before[p].exemptions@.push(item));
                        assert(after[p].exemptions[e] == item);
                        assert(crate::model::is_first(exempted_names(before), name, p));
                        assert(after[p].name@ == name);
                    } else {
                        assert(after[p].exemptions@ == seq![item]);
                        assert(after[p].exemptions[e] == item);
                    }
                }
                assert forall|w: int|
                    0 <= w < m + 1 && (#[trigger] metadata.packages[w]).third_party() implies exempts(
                    after,
                    metadata.packages[w].name@,
                    metadata.packages[w].version,
                ) by {
                    if w < m {
                        let (p, e) = choose|p: int, e: int|
                            0 <= p < before.len() && 0 <= e < before[p].exemptions.len() && before[p].name@
                                == metadata.packages[w].name@ && (#[trigger] before[p].exemptions[e]).version
                                == metadata.packages[w].version;
                        assert(after[p].exemptions[e] == before[p].exemptions[e]);
                        assert(after[p].name@ == before[p].name@);
                    } else {
                        match found {
                            Some(q) => {
                                assert(crate::model::is_first(exempted_names(before), name, q));
                                assert(after[q].exemptions@ == before[q].exemptions@.push(item));
                                let e = before[q].exemptions.len() as int;
                                assert(after[q].exemptions[e] == item);
                                assert(after[q].name@ == name);
                            },
                            None => {
                                let q = before.len() as int;
                                assert(after[q].exemptions@ == seq![item]);
                                assert(after[q].exemptions[0] == item);
                            },
                        }
                    }
                }
            }
        } else {
            proof {
                assert forall|p: int, e: int|
                    0 <= p < before.len() && 0 <= e < before[p].exemptions.len() implies is_foreign(
                    *metadata,
                    m + 1,
                    before[p].name@,
                    (#[trigger] before[p].exemptions[e]).version,
                ) by {
                    let w = choose|w: int|
                        0 <= w < m && (#[trigger] metadata.packages[w]).third_party()
                            && metadata.packages[w].name@ == before[p].name@
                            && metadata.packages[w].version == before[p].exemptions[e].version;
                    assert(0 <= w < m + 1);
                }
            }
        }
        m += 1;
    }
    let config = ConfigFile {
        default_criteria: String::from_str("safe-to-deploy"),
        imports: Vec::new(),
        exemptions,
        policy: Vec::new(),
    };
    (config, audits, imports)
}

/// A name that stands somewhere has a first position.
proof fn lemma_first_index_exists(names: Seq<Seq<char>>, name: Seq<char>, p: int)
    requires
        0 <= p < names.len(),
        names[p] == name,
    ensures
        exists|f: int| crate::model::is_first(names, name, f),
    decreases p,
{
    if exists|q: int| 0 <= q < p && names[q] == name {
        let q = choose|q: int| 0 <= q < p && names[q] == name;
        lemma_first_index_exists(names, name, q);
    } else {
        assert(crate::model::is_first(names, name, p));
    }
}

// ---------------------------------------------------------------------------
// A new audit
// ---------------------------------------------------------------------------
/// Why an audit is not recorded.
#[derive(Clone, Copy, Debug, PartialEq, Eq, Structural)]
pub enum CertifyError {
    /// The package is none of those that come from the registry.
    NotForeign,
}

/// Some package from the registry has this name.
pub open spec fn foreign_name(metadata: Metadata, name: Seq<char>) -> bool {
    exists|m: int|
        0 <= m < metadata.packages.len() && (#[trigger] metadata.packages[m]).third_party()
            && metadata.packages[m].name@ == name
}

/// The names of the audited packages.
pub open spec fn audited_names(list: Seq<AuditedPackage>) -> Seq<Seq<char>> {
    Seq::new(list.len(), |p: int| list[p].name@)
}

/// The entry is the record of a new audit.
pub open spec fn certified(
    e: AuditEntry,
    kind: AuditKind,
    criteria: Seq<char>,
    who: Option<String>,
    notes: Option<String>,
) -> bool {
    &&& e.kind == kind
    &&& e.criteria.len() == 1
    &&& e.criteria[0]@ == criteria
    &&& e.who == who
    &&& e.notes == notes
    &&& e.dependency_criteria.len() == 0
}

/// Records a new audit of a package from the registry: of one version, or
/// of the changes from one version to another, for the given criteria. The
/// audit is added after those that the package has; a package without
/// audits is added at the end.
#[verifier::loop_isolation(false)]
pub fn certify(
    audits: &mut AuditsFile,
    metadata: &Metadata,
    package: &String,
    kind: AuditKind,
    criteria: String,
    who: Option<String>,
    notes: Option<String>,
) -> (r: Result<(), CertifyError>)
    ensures
        final(audits).criteria == old(audits).criteria,
        match r {
            Err(_) => !foreign_name(*metadata, package@) && final(audits).audits == old(audits).audits,
            Ok(_) => foreign_name(*metadata, package@) && match first_named(
                audited_names(old(audits).audits@),
                package@,
            ) {
                Some(q) => {
                    &&& final(audits).audits.len() == old(audits).audits.len()
                    &&& forall|p: int|
                        0 <= p < old(audits).audits.len() && p != q ==> #[trigger] final(audits).audits[p]
                            == old(audits).audits[p]
                    &&& final(audits).audits[q].name == old(audits).audits[q].name
                    &&& final(audits).audits[q].audits.len() == old(audits).audits[q].audits.len() + 1
                    &&& forall|a: int|
                        0 <= a < old(audits).audits[q].audits.len() ==> #[trigger] final(audits).audits[q].audits[a] == old(audits).audits[q].audits[a]
                    &&& certified(final(audits).audits[q].audits@.last(), kind, criteria@, who, notes)
                },
                None => {
                    &&& final(audits).audits.len() == old(audits).audits.len() + 1
                    &&& forall|p: int|
                        0 <= p < old(audits).audits.len() ==> #[trigger] final(audits).audits[p] == old(audits).audits[p]
                    &&& final(audits).audits@.last().name@ == package@
                    &&& final(audits).audits@.last().audits.len() == 1
                    &&& certified(final(audits).audits@.last().audits[0], kind, criteria@, who, notes)
                },
            },
        },
{
    let mut foreign = false;
    let mut m: usize = 0;
    while m < metadata.packages.len()
        invariant
            m <= metadata.packages.len(),
            foreign == exists|w: int|
                0 <= w < m && (#[trigger] metadata.packages[w]).third_party()
                    && metadata.packages[w].name@ == package@,
        decreases metadata.packages.len() - m,
    {
        if metadata.packages[m].is_third_party() && metadata.packages[m].name == *package {
            foreign = true;
        }
        m += 1;
    }
    if !foreign {
        return Err(CertifyError::NotForeign);
    }
    let mut list: Vec<String> = Vec::new();
    list.push(criteria);
    let entry = AuditEntry { kind, criteria: list, who, notes, dependency_criteria: Vec::new() };
    let ghost names = audited_names(audits.audits@);
    let mut p: usize = 0;
    while p < audits.audits.len()
        invariant
            p <= audits.audits.len(),
            *audits == *old(audits),
            names == audited_names(audits.audits@),
            forall|q: int| 0 <= q < p ==> names[q] != package@,
        decreases audits.audits.len() - p,
    {
        assert(names[p as int] == audits.audits[p as int].name@);
        if audits.audits[p].name == *package {
            proof {
                lemma_first_named(names, package@, p as int);
            }
            audits.audits[p].audits.push(entry);
            return Ok(());
        }
        p += 1;
    }
    proof {
        lemma_first_named_none(names, package@);
    }
    let mut fresh: Vec<AuditEntry> = Vec::new();
    fresh.push(entry);
    audits.audits.push(AuditedPackage { name: package.clone(), audits: fresh });
    Ok(())
}

// ---------------------------------------------------------------------------
// The exemptions that are left
// ---------------------------------------------------------------------------
/// An exemption that is still needed, and for which criteria.
#[derive(Clone, Copy, Debug, PartialEq, Eq, Structural)]
pub struct KeptExemption {
    /// The package of the store that the exemption belongs to.
    pub package: usize,
    /// The edge of the package that the exemption is.
    pub edge: usize,
    pub criteria: CriteriaSet,
}

/// The entry tells of an exemption of the store that counts for something.
pub open spec fn kept_fits(store: Store, crit: Seq<Vec<CriteriaSet>>, k: KeptExemption) -> bool {
    &&& k.package < crit.len()
    &&& k.edge < crit[k.package as int].len()
    &&& is_exemption(store, k.package as int, k.edge as int)
    &&& k.criteria == crit[k.package as int][k.edge as int]
    &&& !(k.criteria@ =~= Set::<nat>::empty())
}

/// The exemptions of the store that count for something under `crit`, in
/// the order of the store.
pub fn kept_exemptions(store: &Store, crit: &Vec<Vec<CriteriaSet>>) -> (r: Vec<KeptExemption>)
    requires
        crit.len() == store.packages.len(),
        forall|p: int|
            0 <= p < crit.len() ==> (#[trigger] crit[p]).len() == store.packages[p].edges.len(),
    ensures
        forall|i: int| 0 <= i < r.len() ==> kept_fits(*store, crit@, #[trigger] r[i]),
        forall|i: int, j: int|
            0 <= i < j < r.len() ==> r[i].package < r[j].package || (r[i].package == r[j].package
                && r[i].edge < r[j].edge),
        forall|p: int, e: int|
            0 <= p < crit.len() && 0 <= e < crit[p].len() && is_exemption(*store, p, e) && !(
            #[trigger] crit[p][e]@ =~= Set::<nat>::empty()) ==> exists|i: int|
                0 <= i < r.len() && r[i].package == p && r[i].edge == e,
{
    let mut out: Vec<KeptExemption> = Vec::new();
    let mut p: usize = 0;
    while p < crit.len()
        invariant
            p <= crit.len(),
            crit.len() == store.packages.len(),
            forall|q: int|
                0 <= q < crit.len() ==> (#[trigger] crit[q]).len() == store.packages[q].edges.len(),
            forall|i: int| 0 <= i < out.len() ==> kept_fits(*store, crit@, #[trigger] out[i]),
            forall|i: int| 0 <= i < out.len() ==> (#[trigger] out[i]).package < p,
            forall|i: int, j: int|
                0 <= i < j < out.len() ==> out[i].package < out[j].package || (out[i].package
                    == out[j].package && out[i].edge < out[j].edge),
            forall|q: int, e: int|
                0 <= q < p && 0 <= e < crit[q].len() && is_exemption(*store, q, e) && !(
                #[trigger] crit[q][e]@ =~= Set::<nat>::empty()) ==> exists|i: int|
                    0 <= i < out.len() && out[i].package == q && out[i].edge == e,
        decreases crit.len() - p,
    {
        let row = &crit[p];
        let edges = &store.packages[p].edges;
        let mut e: usize = 0;
        while e < row.len()
            invariant
                e <= row.len(),
                p < crit.len(),
                *row == crit[p as int],
                *edges == store.packages[p as int].edges,
                row.len() == edges.len(),
                crit.len() == store.packages.len(),
                forall|i: int| 0 <= i < out.len() ==> kept_fits(*store, crit@, #[trigger] out[i]),
                forall|i: int|
                    0 <= i < out.len() ==> (#[trigger] out[i]).package < p || (out[i].package == p
                        && out[i].edge < e),
                forall|i: int, j: int|
                    0 <= i < j < out.len() ==> out[i].package < out[j].package || (out[i].package
                        == out[j].package && out[i].edge < out[j].edge),
                forall|q: int, d: int|
                    0 <= q < crit.len() && 0 <= d < crit[q].len() && (q < p || (q == p && d < e))
                        && is_exemption(*store, q, d) && !(#[trigger] crit[q][d]@ =~= Set::<nat>::empty())
                        ==> exists|i: int| 0 <= i < out.len() && out[i].package == q && out[i].edge == d,
            decreases row.len() - e,
        {
            let exempt = match edges[e].origin {
                AuditOrigin::Exemption { .. } => true,
                _ => false,
            };
            let ghost before = out@;
            if exempt && !row[e].is_empty() {
                out.push(KeptExemption { package: p, edge: e, criteria: row[e] });
            }
            proof {
                assert forall|q: int, d: int|
                    0 <= q < crit.len() && 0 <= d < crit[q].len() && (q < p || (q == p && d < e + 1))
                        && is_exemption(*store, q, d) && !(#[trigger] crit[q][d]@ =~= Set::<nat>::empty())
                    implies exists|i: int| 0 <= i < out.len() && out[i].package == q && out[i].edge == d by {
                    if q == p && d == e {
                        assert(out[out.len() - 1].package == q);
                    } else {
                        let i = choose|i: int|
                            0 <= i < before.len() && before[i].package == q && before[i].edge == d;
                        assert(out[i] == before[i]);
                    }
                }
            }
            e += 1;
        }
        p += 1;
    }
    out
}

// ---------------------------------------------------------------------------
// Suggesting and minimizing, from the store as it stands
// ---------------------------------------------------------------------------
/// The audits that would repair the resolution of the store as it stands,
/// round by round; see [`Problem::suggest`].
pub fn suggest_audits(
    table: &CriteriaTable,
    graph: &DepGraph,
    store: &Store,
    policy: &Policy,
    guess_deeper: bool,
) -> (r: Result<Vec<Vec<Candidate>>, GraphError>)
    requires
        table.wf(),
    ensures
        match r {
            Ok(rounds) => {
                let pb = Problem { table, graph, store, policy };
                let crit = store_criteria(*store);
                &&& graph.wf()
                &&& rounds.len() >= 1
                &&& !guess_deeper ==> rounds.len() == 1
                &&& guess_deeper ==> rounds[rounds.len() - 1].len() == 0 || rounds.len()
                    == graph.nodes.len() + 1
                &&& forall|k: int| 0 <= k < rounds.len() - 1 ==> (#[trigger] rounds[k]).len() > 0
                &&& forall|k: int|
                    0 <= k < rounds.len() ==> candidates_fit(
                        round_inputs(stripped_inputs(pb, crit), k as nat),
                        (#[trigger] rounds[k])@,
                    )
            },
            Err(GraphError::UnknownDependency) => !graph.deps_known(),
            Err(GraphError::UnknownRoot) => graph.deps_known() && !graph.roots_known(),
        },
{
    match graph.check() {
        Err(e) => Err(e),
        Ok(_) => {
            let crit = store_criteria_rows(store);
            let pb = Problem { table, graph, store, policy };
            let rounds = pb.suggest(&crit, guess_deeper);
            proof {
                let a = pb.suggest_inputs(crit@);
                let b = stripped_inputs(pb, store_criteria(*store));
                assert(a.crit =~= b.crit) by {
                    assert forall|p: int| 0 <= p < a.crit.len() implies #[trigger] a.crit[p] =~= b.crit[p] by {
                        assert forall|j: int| 0 <= j < a.crit[p].len() implies #[trigger] a.crit[p][j]
                            == b.crit[p][j] by {
                            assert(crit[p][j] == store.packages[p].edges[j].criteria);
                        }
                    }
                }
                assert(a == b);
            }
            Ok(rounds)
        },
    }
}

/// The inputs of suggestions for the criteria `crit` of the edges: the
/// suggestable exemptions count for nothing, and nothing is taken for
/// granted.
pub open spec fn stripped_inputs(pb: Problem, crit: Seq<Seq<Set<nat>>>) -> Inputs {
    Inputs {
        table: *pb.table,
        graph: *pb.graph,
        store: *pb.store,
        policy: *pb.policy,
        crit: Seq::new(
            crit.len(),
            |p: int|
                Seq::new(
                    crit[p].len(),
                    |j: int|
                        if is_suggestable(*pb.store, p, j) {
                            Set::<nat>::empty()
                        } else {
                            crit[p][j]
                        },
                ),
        ),
        assumed: nothing_assumed(pb.graph.nodes.len() as nat),
    }
}

/// The exemptions that are left once those that the audits have made
/// redundant are removed, in the order of the store; see
/// [`Problem::minimize_exemptions`]. Where the resolution does not pass,
/// all exemptions are left as they are.
pub fn minimize(table: &CriteriaTable, graph: &DepGraph, store: &Store, policy: &Policy) -> (r: Result<
    Vec<KeptExemption>,
    GraphError,
>)
    requires
        table.wf(),
    ensures
        match r {
            Ok(kept) => {
                let inp = Inputs {
                    table: *table,
                    graph: *graph,
                    store: *store,
                    policy: *policy,
                    crit: store_criteria(*store),
                    assumed: nothing_assumed(graph.nodes.len() as nat),
                };
                &&& graph.wf()
                &&& exists|rows: Seq<Vec<CriteriaSet>>|
                    {
                        &&& (passes(inp) ==> minimized(inp, inp.crit, #[trigger] crit_view(rows)))
                        &&& (!passes(inp) ==> crit_view(rows) == inp.crit)
                        &&& forall|i: int| 0 <= i < kept.len() ==> kept_fits(*store, rows, #[trigger] kept[i])
                        &&& forall|p: int, e: int|
                            0 <= p < rows.len() && 0 <= e < rows[p].len() && is_exemption(*store, p, e)
                                && !(#[trigger] rows[p][e]@ =~= Set::<nat>::empty()) ==> exists|i: int|
                                0 <= i < kept.len() && kept[i].package == p && kept[i].edge == e
                    }
                &&& forall|i: int, j: int|
                    0 <= i < j < kept.len() ==> kept[i].package < kept[j].package || (kept[i].package
                        == kept[j].package && kept[i].edge < kept[j].edge)
            },
            Err(GraphError::UnknownDependency) => !graph.deps_known(),
            Err(GraphError::UnknownRoot) => graph.deps_known() && !graph.roots_known(),
        },
{
    match graph.check() {
        Err(e) => Err(e),
        Ok(_) => {
            let crit = store_criteria_rows(store);
            let assumed = nothing_assumed_row(graph.nodes.len());
            let pb = Problem { table, graph, store, policy };
            let rows = pb.minimize_exemptions(&crit, &assumed);
            let kept = kept_exemptions(store, &rows);
            proof {
                let inp = pb.inputs(crit@, assumed@);
                assert(crit_view(rows@).len() == rows.len());
            }
            Ok(kept)
        },
    }
}


} // verus!
