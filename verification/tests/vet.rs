use std::collections::BTreeMap;

use cargo_vet::commands::init_files;
use cargo_vet::files::{
    load_audits, load_config, load_imports, AuditEntry, AuditKind, AuditedPackage, AuditsFile,
    ConfigFile, ExemptedPackage, ExemptionEntry, ImportedAudits, ImportsFile, NamedCriteria,
    PolicyFileEntry,
};
use cargo_vet::lower::{build_graph, build_policy, build_store};
use cargo_vet::metadata::{Dependency, Metadata, Package};
use cargo_vet::model::{EdgeKind, Version};
use cargo_vet::resolver::{resolve, store_criteria_rows, NodeError, Report};
use cargo_vet::satisfy::Problem;
use cargo_vet::suggest::Candidate;
use cargo_vet::universe::{CriteriaEntry, CriteriaTable};

const DEFAULT_VER: u64 = 10;
const DEFAULT_CRIT: &str = "reviewed";
const SAFE_TO_DEPLOY: &str = "safe-to-deploy";
const SAFE_TO_RUN: &str = "safe-to-run";
const CRATES_IO: &str = "registry+https://github.com/rust-lang/crates.io-index";

type SortedMap<K, V> = BTreeMap<K, V>;

fn ver(major: u64) -> Version {
    Version::new(major, 0, 0)
}

#[derive(Clone)]
struct MockDependency {
    name: &'static str,
    version: Version,
}

fn dep(name: &'static str) -> MockDependency {
    dep_ver(name, DEFAULT_VER)
}

fn dep_ver(name: &'static str, version: u64) -> MockDependency {
    MockDependency { name, version: ver(version) }
}

#[derive(Clone)]
struct MockPackage {
    name: &'static str,
    version: Version,
    deps: Vec<MockDependency>,
    dev_deps: Vec<MockDependency>,
    build_deps: Vec<MockDependency>,
    is_workspace: bool,
    is_first_party: bool,
}

impl Default for MockPackage {
    fn default() -> Self {
        MockPackage {
            name: "",
            version: ver(DEFAULT_VER),
            deps: vec![],
            dev_deps: vec![],
            build_deps: vec![],
            is_workspace: false,
            is_first_party: false,
        }
    }
}

struct MockMetadata {
    packages: Vec<MockPackage>,
}

fn first(name: &'static str, workspace: bool, deps: Vec<MockDependency>) -> MockPackage {
    MockPackage { name, is_workspace: workspace, is_first_party: true, deps, ..Default::default() }
}

fn third(name: &'static str, deps: Vec<MockDependency>) -> MockPackage {
    MockPackage { name, deps, ..Default::default() }
}

impl MockMetadata {
    fn new(packages: Vec<MockPackage>) -> Self {
        MockMetadata { packages }
    }

    /// root-package -> first-party -> {third-party1 -> transitive-third-party1, third-party2}
    fn simple() -> Self {
        MockMetadata::new(vec![
            first("root-package", true, vec![dep("first-party")]),
            first("first-party", false, vec![dep("third-party1"), dep("third-party2")]),
            third("third-party1", vec![dep("transitive-third-party1")]),
            third("third-party2", vec![]),
            third("transitive-third-party1", vec![]),
        ])
    }

    /// Two roots that share a first-party package, and a third-party package
    /// that is in the tree at two versions.
    fn complex() -> Self {
        MockMetadata::new(vec![
            first("rootA", true, vec![dep("firstA"), dep("firstAB")]),
            first("rootB", true, vec![dep("firstB"), dep("firstAB"), dep("firstB-nodeps")]),
            first("firstA", false, vec![dep("thirdA"), dep_ver("third-core", 5)]),
            first("firstAB", false, vec![dep("thirdAB")]),
            first("firstB", false, vec![dep("thirdB")]),
            first("firstB-nodeps", false, vec![]),
            third("thirdA", vec![dep("third-core")]),
            third("thirdAB", vec![dep("third-core")]),
            third("thirdB", vec![dep("third-core")]),
            third("third-core", vec![]),
            MockPackage { name: "third-core", version: ver(5), ..Default::default() },
        ])
    }

    /// One root with a dependency of every kind.
    fn simple_deps() -> Self {
        MockMetadata::new(vec![
            MockPackage {
                name: "root-package",
                is_workspace: true,
                is_first_party: true,
                deps: vec![dep("normal"), dep("proc-macro")],
                dev_deps: vec![dep("dev"), dep("dev-proc-macro")],
                build_deps: vec![dep("build"), dep("build-proc-macro")],
                ..Default::default()
            },
            third("normal", vec![]),
            third("dev", vec![]),
            third("build", vec![]),
            third("proc-macro", vec![]),
            third("dev-proc-macro", vec![]),
            third("build-proc-macro", vec![]),
        ])
    }

    /// A dev dependency that depends on the root again.
    fn cycle() -> Self {
        MockMetadata::new(vec![
            MockPackage {
                name: "root",
                is_workspace: true,
                is_first_party: true,
                deps: vec![dep("normal")],
                dev_deps: vec![dep("dev-cycle")],
                ..Default::default()
            },
            third("normal", vec![]),
            third("dev-cycle", vec![dep("root")]),
        ])
    }

    /// Packages that are needed at run time, for development only, or both.
    fn dev_detection() -> Self {
        MockMetadata::new(vec![
            MockPackage {
                name: "root-package",
                is_workspace: true,
                is_first_party: true,
                deps: vec![dep("normal"), dep("both")],
                dev_deps: vec![dep("simple-dev"), dep("both"), dep("dev-cycle-direct")],
                ..Default::default()
            },
            third("normal", vec![]),
            third("both", vec![]),
            third("simple-dev", vec![dep("simple-dev-indirect")]),
            third("simple-dev-indirect", vec![]),
            third("dev-cycle-direct", vec![dep("dev-cycle-indirect")]),
            third("dev-cycle-indirect", vec![dep("root-package")]),
        ])
    }

    /// First-party packages below third-party packages.
    fn haunted_tree() -> Self {
        MockMetadata::new(vec![
            MockPackage {
                name: "root",
                is_workspace: true,
                is_first_party: true,
                deps: vec![dep("first"), dep("third-normal")],
                dev_deps: vec![dep("third-dev")],
                ..Default::default()
            },
            first("first", false, vec![dep("third-normal")]),
            third("third-normal", vec![dep("first-deep")]),
            third("third-dev", vec![dep("first-deep"), dep("third-deep")]),
            first("first-deep", false, vec![dep("third-deep")]),
            third("third-deep", vec![]),
        ])
    }

    fn index_of(&self, dep: &MockDependency) -> usize {
        self.packages
            .iter()
            .position(|p| p.name == dep.name && p.version == dep.version)
            .unwrap()
    }

    fn metadata(&self) -> Metadata {
        let mut packages = Vec::new();
        let mut workspace_members = Vec::new();
        for (i, p) in self.packages.iter().enumerate() {
            let mut dependencies = Vec::new();
            for d in &p.deps {
                dependencies.push(Dependency { package: self.index_of(d), kind: EdgeKind::Normal });
            }
            for d in &p.build_deps {
                dependencies.push(Dependency { package: self.index_of(d), kind: EdgeKind::Build });
            }
            for d in &p.dev_deps {
                dependencies.push(Dependency { package: self.index_of(d), kind: EdgeKind::Dev });
            }
            packages.push(Package {
                name: p.name.to_string(),
                version: p.version.clone(),
                source: if p.is_first_party { None } else { Some(CRATES_IO.to_string()) },
                dependencies,
            });
            if p.is_workspace {
                workspace_members.push(i);
            }
        }
        Metadata { packages, workspace_members }
    }
}

// The files of the store, with packages by name.

#[derive(Clone)]
struct MockAudit {
    kind: AuditKind,
    criteria: Vec<String>,
    dependency_criteria: Vec<(String, Vec<String>)>,
}

#[derive(Clone)]
struct MockExemption {
    version: Version,
    criteria: Vec<String>,
    dependency_criteria: Vec<(String, Vec<String>)>,
    suggest: bool,
}

#[derive(Clone, Default)]
struct PolicyEntry {
    audit_as_crates_io: Option<bool>,
    criteria: Option<Vec<String>>,
    dependency_criteria: Vec<(String, Vec<String>)>,
}

#[derive(Clone, Default)]
struct MockAudits {
    criteria: SortedMap<String, Vec<String>>,
    audits: SortedMap<String, Vec<MockAudit>>,
}

#[derive(Clone)]
struct MockConfig {
    default_criteria: String,
    exemptions: SortedMap<String, Vec<MockExemption>>,
    policy: SortedMap<String, PolicyEntry>,
}

#[derive(Clone, Default)]
struct MockImports {
    audits: SortedMap<String, MockAudits>,
}

struct Store {
    config: MockConfig,
    audits: MockAudits,
    imports: MockImports,
}

impl Store {
    fn mock(config: MockConfig, audits: MockAudits, imports: MockImports) -> Store {
        Store { config, audits, imports }
    }
}

fn names<const N: usize>(list: [&str; N]) -> Vec<String> {
    list.iter().map(|s| s.to_string()).collect()
}

fn dep_list<const N: usize, const M: usize>(deps: [(&str, [&str; M]); N]) -> Vec<(String, Vec<String>)> {
    deps.iter().map(|(name, list)| (name.to_string(), names(*list))).collect()
}

fn full_audit(version: Version, criteria: &str) -> MockAudit {
    MockAudit {
        kind: AuditKind::Full { version },
        criteria: vec![criteria.to_string()],
        dependency_criteria: vec![],
    }
}

fn full_audit_dep<const N: usize, const M: usize>(
    version: Version,
    criteria: &str,
    deps: [(&str, [&str; M]); N],
) -> MockAudit {
    MockAudit { dependency_criteria: dep_list(deps), ..full_audit(version, criteria) }
}

fn delta_audit(from: Version, to: Version, criteria: &str) -> MockAudit {
    MockAudit {
        kind: AuditKind::Delta { from, to },
        criteria: vec![criteria.to_string()],
        dependency_criteria: vec![],
    }
}

fn delta_audit_dep<const N: usize, const M: usize>(
    from: Version,
    to: Version,
    criteria: &str,
    deps: [(&str, [&str; M]); N],
) -> MockAudit {
    MockAudit { dependency_criteria: dep_list(deps), ..delta_audit(from, to, criteria) }
}

fn exemptions(version: Version, criteria: &str) -> MockExemption {
    MockExemption {
        version,
        criteria: vec![criteria.to_string()],
        dependency_criteria: vec![],
        suggest: true,
    }
}

fn exemptions_dep<const N: usize, const M: usize>(
    version: Version,
    criteria: &str,
    deps: [(&str, [&str; M]); N],
) -> MockExemption {
    MockExemption { dependency_criteria: dep_list(deps), ..exemptions(version, criteria) }
}

fn self_policy<const N: usize>(criteria: [&str; N]) -> PolicyEntry {
    PolicyEntry { criteria: Some(names(criteria)), ..Default::default() }
}

fn dep_policy<const N: usize, const M: usize>(deps: [(&str, [&str; M]); N]) -> PolicyEntry {
    PolicyEntry { dependency_criteria: dep_list(deps), ..Default::default() }
}

fn audit_as_policy(audit_as_crates_io: Option<bool>) -> PolicyEntry {
    PolicyEntry { audit_as_crates_io, ..Default::default() }
}

fn is_foreign(package: &Package) -> bool {
    package.source.is_some()
}

/// The files of a fresh store, as the library makes them.
fn builtin_files_inited(metadata: &Metadata) -> (MockConfig, MockAudits, MockImports) {
    let (config, audits, imports) = init_files(metadata);
    assert!(audits.criteria.is_empty() && audits.audits.is_empty());
    assert!(imports.audits.is_empty());
    assert!(config.policy.is_empty() && config.imports.is_empty());
    let mut exemptions = SortedMap::new();
    for package in config.exemptions {
        let list = package
            .exemptions
            .into_iter()
            .map(|e| MockExemption {
                version: e.version.clone(),
                criteria: e.criteria,
                dependency_criteria: vec![],
                suggest: e.suggest,
            })
            .collect();
        exemptions.insert(package.name, list);
    }
    let config = MockConfig {
        default_criteria: config.default_criteria,
        exemptions: exemptions,
        policy: SortedMap::new(),
    };
    (config, MockAudits::default(), MockImports::default())
}

fn builtin_files_no_exemptions(metadata: &Metadata) -> (MockConfig, MockAudits, MockImports) {
    let (mut config, audits, imports) = builtin_files_inited(metadata);
    config.exemptions.clear();
    (config, audits, imports)
}

fn builtin_files_full_audited(metadata: &Metadata) -> (MockConfig, MockAudits, MockImports) {
    let (config, mut audits, imports) = builtin_files_no_exemptions(metadata);
    for package in metadata.packages.iter().filter(|p| is_foreign(p)) {
        audits
            .audits
            .entry(package.name.clone())
            .or_insert_with(Vec::new)
            .push(full_audit(package.version.clone(), SAFE_TO_DEPLOY));
    }
    (config, audits, imports)
}

/// Every package audited for no more than it is needed for.
fn builtin_files_minimal_audited(metadata: &Metadata) -> (MockConfig, MockAudits, MockImports) {
    let (config, mut audits, imports) = builtin_files_no_exemptions(metadata);
    let graph = build_graph(metadata);
    let contexts = cargo_vet::context::dependency_contexts(&graph);
    for (i, package) in metadata.packages.iter().enumerate() {
        if !is_foreign(package) {
            continue;
        }
        let criteria = if contexts[i].needed_for_dev_only { SAFE_TO_RUN } else { SAFE_TO_DEPLOY };
        audits
            .audits
            .entry(package.name.clone())
            .or_insert_with(Vec::new)
            .push(full_audit(package.version.clone(), criteria));
    }
    (config, audits, imports)
}

/// A fresh store over a universe of criteria of its own:
/// strong-reviewed implies reviewed implies weak-reviewed; fuzzed stands alone.
fn files_inited(metadata: &Metadata) -> (MockConfig, MockAudits, MockImports) {
    let (mut config, mut audits, imports) = builtin_files_inited(metadata);
    audits.criteria.insert("strong-reviewed".to_string(), names(["reviewed"]));
    audits.criteria.insert("reviewed".to_string(), names(["weak-reviewed"]));
    audits.criteria.insert("weak-reviewed".to_string(), vec![]);
    audits.criteria.insert("fuzzed".to_string(), vec![]);
    for &member in &metadata.workspace_members {
        config
            .policy
            .insert(metadata.packages[member].name.clone(), self_policy([DEFAULT_CRIT]));
    }
    config.default_criteria = DEFAULT_CRIT.to_string();
    for list in config.exemptions.values_mut() {
        for entry in list {
            entry.criteria = vec![DEFAULT_CRIT.to_string()];
        }
    }
    (config, audits, imports)
}

fn files_no_exemptions(metadata: &Metadata) -> (MockConfig, MockAudits, MockImports) {
    let (mut config, audits, imports) = files_inited(metadata);
    config.exemptions.clear();
    (config, audits, imports)
}

fn files_full_audited(metadata: &Metadata) -> (MockConfig, MockAudits, MockImports) {
    let (config, mut audits, imports) = files_no_exemptions(metadata);
    for package in metadata.packages.iter().filter(|p| is_foreign(p)) {
        audits
            .audits
            .entry(package.name.clone())
            .or_insert_with(Vec::new)
            .push(full_audit(package.version.clone(), DEFAULT_CRIT));
    }
    (config, audits, imports)
}

fn named(list: &[(String, Vec<String>)]) -> Vec<NamedCriteria> {
    list.iter()
        .map(|(name, criteria)| NamedCriteria { name: name.clone(), criteria: criteria.clone() })
        .collect()
}

fn audits_file(audits: &MockAudits) -> AuditsFile {
    AuditsFile {
        criteria: audits
            .criteria
            .iter()
            .map(|(name, implies)| CriteriaEntry {
                name: name.clone(),
                implies: implies.clone(),
                description: String::new(),
            })
            .collect(),
        audits: audits
            .audits
            .iter()
            .map(|(name, list)| AuditedPackage {
                name: name.clone(),
                audits: list
                    .iter()
                    .map(|a| AuditEntry {
                        kind: a.kind.clone(),
                        criteria: a.criteria.clone(),
                        who: None,
                        notes: None,
                        dependency_criteria: named(&a.dependency_criteria),
                    })
                    .collect(),
            })
            .collect(),
    }
}

fn config_file(config: &MockConfig) -> ConfigFile {
    ConfigFile {
        default_criteria: config.default_criteria.clone(),
        imports: vec![],
        exemptions: config
            .exemptions
            .iter()
            .map(|(name, list)| ExemptedPackage {
                name: name.clone(),
                exemptions: list
                    .iter()
                    .map(|e| ExemptionEntry {
                        version: e.version.clone(),
                        criteria: e.criteria.clone(),
                        dependency_criteria: named(&e.dependency_criteria),
                        suggest: e.suggest,
                        notes: None,
                    })
                    .collect(),
            })
            .collect(),
        policy: config
            .policy
            .iter()
            .map(|(name, p)| PolicyFileEntry {
                name: name.clone(),
                criteria: p.criteria.clone(),
                dependency_criteria: named(&p.dependency_criteria),
                audit_as_third_party: p.audit_as_crates_io,
            })
            .collect(),
    }
}

fn imports_file(imports: &MockImports) -> ImportsFile {
    ImportsFile {
        audits: imports
            .audits
            .iter()
            .map(|(name, file)| ImportedAudits { name: name.clone(), file: audits_file(file) })
            .collect(),
    }
}

/// Everything that a resolution works on, loaded from the files.
struct Loaded {
    table: CriteriaTable,
    graph: cargo_vet::model::DepGraph,
    store: cargo_vet::model::Store,
    policy: cargo_vet::model::Policy,
}

fn load(metadata: &Metadata, store: &Store) -> Loaded {
    let audits = load_audits(audits_file(&store.audits)).unwrap();
    let table = CriteriaTable::load(&audits.criteria).unwrap();
    let config = load_config(config_file(&store.config), &table).unwrap();
    let imports = load_imports(imports_file(&store.imports)).unwrap();
    let lowered = build_store(&table, &audits, &config, &imports).unwrap();
    let policy = build_policy(&table, &config).unwrap();
    let graph = build_graph(metadata);
    Loaded { table, graph, store: lowered, policy }
}

#[derive(Clone, Copy, PartialEq)]
enum ResolveDepth {
    Shallow,
    Deep,
}

/// What a resolution gave.
struct Outcome {
    names: Vec<String>,
    versions: Vec<Version>,
    report: Report,
    suggestions: Vec<Vec<Candidate>>,
}

fn run_resolve(metadata: &Metadata, store: &Store, depth: ResolveDepth) -> Outcome {
    let loaded = load(metadata, store);
    let report = resolve(&loaded.table, &loaded.graph, &loaded.store, &loaded.policy).unwrap();
    let problem = Problem {
        table: &loaded.table,
        graph: &loaded.graph,
        store: &loaded.store,
        policy: &loaded.policy,
    };
    let crit = store_criteria_rows(&loaded.store);
    let suggestions = problem.suggest(&crit, depth == ResolveDepth::Deep);
    let names = metadata.packages.iter().map(|p| p.name.clone()).collect();
    let versions = metadata.packages.iter().map(|p| p.version.clone()).collect();
    Outcome { names, versions, report, suggestions }
}

fn failing(outcome: &Outcome) -> Vec<String> {
    outcome.report.failures.iter().map(|f| outcome.names[f.node].clone()).collect()
}

/// The nodes that fall short by their own audits, as `name:major`.
fn at_fault(outcome: &Outcome) -> Vec<String> {
    let mut list: Vec<String> = outcome
        .report
        .failures
        .iter()
        .filter(|f| f.error != NodeError::PolicyUnsatisfied)
        .map(|f| format!("{}:{}", outcome.names[f.node], outcome.versions[f.node].major))
        .collect();
    list.sort();
    list
}

fn expect_at_fault<const N: usize>(outcome: &Outcome, expected: [&str; N]) {
    let expected: Vec<String> = expected.iter().map(|s| s.to_string()).collect();
    assert_eq!(at_fault(outcome), expected);
}

fn expect_pass(outcome: &Outcome) {
    assert!(outcome.report.passes(), "failing: {:?}", failing(outcome));
    assert!(!outcome.report.has_errors());
    for n in 0..outcome.names.len() {
        assert!(outcome.report.required[n].is_subset(&outcome.report.satisfied[n]));
    }
}

fn expect_fail(outcome: &Outcome) {
    assert!(!outcome.report.passes());
    assert!(outcome.report.has_errors());
    for f in &outcome.report.failures {
        assert!(!f.missing.is_empty());
        assert!(!outcome.report.required[f.node].is_subset(&outcome.report.satisfied[f.node]));
        if f.error != NodeError::PolicyUnsatisfied {
            // Every node that falls short by its own audits gets the
            // suggestion of a full audit.
            assert!(outcome.suggestions[0]
                .iter()
                .any(|c| c.node == f.node && c.from.is_none() && c.to == outcome.versions[f.node]));
        }
    }
    for round in &outcome.suggestions[..outcome.suggestions.len() - 1] {
        assert!(!round.is_empty());
    }
}

#[test]
fn mock_simple_init() {
    let mock = MockMetadata::simple();

    let metadata = mock.metadata();
    let (config, audits, imports) = files_inited(&metadata);

    let store = Store::mock(config, audits, imports);
    let report = run_resolve(&metadata, &store, ResolveDepth::Shallow);
    expect_pass(&report);
}

#[test]
fn mock_simple_no_exemptions() {
    let mock = MockMetadata::simple();

    let metadata = mock.metadata();
    let (config, audits, imports) = files_no_exemptions(&metadata);

    let store = Store::mock(config, audits, imports);
    let report = run_resolve(&metadata, &store, ResolveDepth::Shallow);
    expect_fail(&report);
    expect_at_fault(&report, ["third-party1:10", "third-party2:10", "transitive-third-party1:10"]);
}

#[test]
fn mock_simple_full_audited() {
    let mock = MockMetadata::simple();

    let metadata = mock.metadata();
    let (config, audits, imports) = files_full_audited(&metadata);

    let store = Store::mock(config, audits, imports);
    let report = run_resolve(&metadata, &store, ResolveDepth::Shallow);
    expect_pass(&report);
}

#[test]
fn builtin_simple_init() {
    let mock = MockMetadata::simple();

    let metadata = mock.metadata();
    let (config, audits, imports) = builtin_files_inited(&metadata);

    let store = Store::mock(config, audits, imports);
    let report = run_resolve(&metadata, &store, ResolveDepth::Shallow);
    expect_pass(&report);
}

#[test]
fn builtin_simple_no_exemptions() {
    let mock = MockMetadata::simple();

    let metadata = mock.metadata();
    let (config, audits, imports) = builtin_files_no_exemptions(&metadata);

    let store = Store::mock(config, audits, imports);
    let report = run_resolve(&metadata, &store, ResolveDepth::Shallow);
    expect_fail(&report);
    expect_at_fault(&report, ["third-party1:10", "third-party2:10", "transitive-third-party1:10"]);
}

#[test]
fn builtin_simple_full_audited() {
    let mock = MockMetadata::simple();

    let metadata = mock.metadata();
    let (config, audits, imports) = builtin_files_full_audited(&metadata);

    let store = Store::mock(config, audits, imports);
    let report = run_resolve(&metadata, &store, ResolveDepth::Shallow);
    expect_pass(&report);
}

#[test]
fn mock_simple_missing_transitive() {
    let mock = MockMetadata::simple();

    let metadata = mock.metadata();
    let (config, mut audits, imports) = files_full_audited(&metadata);

    audits
        .audits
        .get_mut("transitive-third-party1")
        .unwrap()
        .clear();

    let store = Store::mock(config, audits, imports);
    let report = run_resolve(&metadata, &store, ResolveDepth::Shallow);
    expect_fail(&report);
    expect_at_fault(&report, ["transitive-third-party1:10"]);
}

#[test]
fn mock_simple_missing_direct_internal() {
    let mock = MockMetadata::simple();

    let metadata = mock.metadata();
    let (config, mut audits, imports) = files_full_audited(&metadata);

    audits.audits.get_mut("third-party1").unwrap().clear();

    let store = Store::mock(config, audits, imports);
    let report = run_resolve(&metadata, &store, ResolveDepth::Shallow);
    expect_fail(&report);
    expect_at_fault(&report, ["third-party1:10"]);
}

#[test]
fn mock_simple_missing_direct_leaf() {
    let mock = MockMetadata::simple();

    let metadata = mock.metadata();
    let (config, mut audits, imports) = files_full_audited(&metadata);

    audits.audits.get_mut("third-party2").unwrap().clear();

    let store = Store::mock(config, audits, imports);
    let report = run_resolve(&metadata, &store, ResolveDepth::Shallow);
    expect_fail(&report);
    expect_at_fault(&report, ["third-party2:10"]);
}

#[test]
fn mock_simple_missing_leaves() {
    let mock = MockMetadata::simple();

    let metadata = mock.metadata();
    let (config, mut audits, imports) = files_full_audited(&metadata);

    audits.audits.get_mut("third-party2").unwrap().clear();
    audits
        .audits
        .get_mut("transitive-third-party1")
        .unwrap()
        .clear();

    let store = Store::mock(config, audits, imports);
    let report = run_resolve(&metadata, &store, ResolveDepth::Shallow);
    expect_fail(&report);
    expect_at_fault(&report, ["third-party2:10", "transitive-third-party1:10"]);
}

#[test]
fn mock_simple_weaker_transitive_req() {
    let mock = MockMetadata::simple();

    let metadata = mock.metadata();
    let (config, mut audits, imports) = files_full_audited(&metadata);

    let trans_audits = &mut audits.audits.get_mut("transitive-third-party1").unwrap();
    trans_audits.clear();
    trans_audits.push(full_audit(ver(DEFAULT_VER), "weak-reviewed"));

    let direct_audits = &mut audits.audits.get_mut("third-party1").unwrap();
    direct_audits.clear();
    direct_audits.push(full_audit_dep(
        ver(DEFAULT_VER),
        "reviewed",
        [("transitive-third-party1", ["weak-reviewed"])],
    ));

    let store = Store::mock(config, audits, imports);
    let report = run_resolve(&metadata, &store, ResolveDepth::Shallow);
    expect_pass(&report);
}

#[test]
fn mock_simple_weaker_transitive_req_using_implies() {
    let mock = MockMetadata::simple();

    let metadata = mock.metadata();
    let (config, mut audits, imports) = files_full_audited(&metadata);

    let trans_audits = &mut audits.audits.get_mut("transitive-third-party1").unwrap();
    trans_audits.clear();
    trans_audits.push(full_audit(ver(DEFAULT_VER), "strong-reviewed"));

    let direct_audits = &mut audits.audits.get_mut("third-party1").unwrap();
    direct_audits.clear();
    direct_audits.push(full_audit_dep(
        ver(DEFAULT_VER),
        "reviewed",
        [("transitive-third-party1", ["weak-reviewed"])],
    ));

    let store = Store::mock(config, audits, imports);
    let report = run_resolve(&metadata, &store, ResolveDepth::Shallow);
    expect_pass(&report);
}

#[test]
fn mock_simple_lower_version_review() {
    let mock = MockMetadata::simple();

    let metadata = mock.metadata();
    let (config, mut audits, imports) = files_full_audited(&metadata);

    let direct_audits = &mut audits.audits.get_mut("third-party1").unwrap();
    direct_audits.clear();
    direct_audits.push(full_audit(ver(DEFAULT_VER - 1), DEFAULT_CRIT));

    let store = Store::mock(config, audits, imports);
    let report = run_resolve(&metadata, &store, ResolveDepth::Shallow);
    expect_fail(&report);
    expect_at_fault(&report, ["third-party1:10"]);
}

#[test]
fn mock_simple_higher_version_review() {
    let mock = MockMetadata::simple();

    let metadata = mock.metadata();
    let (config, mut audits, imports) = files_full_audited(&metadata);

    let direct_audits = &mut audits.audits.get_mut("third-party1").unwrap();
    direct_audits.clear();
    direct_audits.push(full_audit(ver(DEFAULT_VER + 1), DEFAULT_CRIT));

    let store = Store::mock(config, audits, imports);
    let report = run_resolve(&metadata, &store, ResolveDepth::Shallow);
    expect_fail(&report);
    expect_at_fault(&report, ["third-party1:10"]);
}

#[test]
fn mock_simple_higher_and_lower_version_review() {
    let mock = MockMetadata::simple();

    let metadata = mock.metadata();
    let (config, mut audits, imports) = files_full_audited(&metadata);

    let direct_audits = &mut audits.audits.get_mut("third-party1").unwrap();
    direct_audits.clear();
    direct_audits.push(full_audit(ver(DEFAULT_VER - 1), DEFAULT_CRIT));
    direct_audits.push(full_audit(ver(DEFAULT_VER + 1), DEFAULT_CRIT));

    let store = Store::mock(config, audits, imports);
    let report = run_resolve(&metadata, &store, ResolveDepth::Shallow);
    expect_fail(&report);
    expect_at_fault(&report, ["third-party1:10"]);
}

#[test]
fn mock_simple_reviewed_too_weakly() {
    let mock = MockMetadata::simple();

    let metadata = mock.metadata();
    let (config, mut audits, imports) = files_full_audited(&metadata);

    let trans_audits = &mut audits.audits.get_mut("transitive-third-party1").unwrap();
    trans_audits.clear();
    trans_audits.push(full_audit(ver(DEFAULT_VER), "weak-reviewed"));

    let store = Store::mock(config, audits, imports);
    let report = run_resolve(&metadata, &store, ResolveDepth::Shallow);
    expect_fail(&report);
    expect_at_fault(&report, ["transitive-third-party1:10"]);
}

#[test]
fn mock_simple_delta_to_exemptions() {
    let mock = MockMetadata::simple();

    let metadata = mock.metadata();
    let (mut config, mut audits, imports) = files_full_audited(&metadata);

    let direct_audits = &mut audits.audits.get_mut("third-party1").unwrap();
    direct_audits.clear();
    direct_audits.push(delta_audit(
        ver(DEFAULT_VER - 5),
        ver(DEFAULT_VER),
        DEFAULT_CRIT,
    ));

    let direct_exemptions = &mut config.exemptions;
    direct_exemptions.insert(
        "third-party1".to_string(),
        vec![exemptions(ver(DEFAULT_VER - 5), DEFAULT_CRIT)],
    );

    let store = Store::mock(config, audits, imports);
    let report = run_resolve(&metadata, &store, ResolveDepth::Shallow);
    expect_pass(&report);
}

#[test]
fn mock_simple_delta_to_exemptions_overshoot() {
    let mock = MockMetadata::simple();

    let metadata = mock.metadata();
    let (mut config, mut audits, imports) = files_full_audited(&metadata);

    let direct_audits = &mut audits.audits.get_mut("third-party1").unwrap();
    direct_audits.clear();
    direct_audits.push(delta_audit(
        ver(DEFAULT_VER - 6),
        ver(DEFAULT_VER),
        DEFAULT_CRIT,
    ));

    let direct_exemptions = &mut config.exemptions;
    direct_exemptions.insert(
        "third-party1".to_string(),
        vec![exemptions(ver(DEFAULT_VER - 5), DEFAULT_CRIT)],
    );

    let store = Store::mock(config, audits, imports);
    let report = run_resolve(&metadata, &store, ResolveDepth::Shallow);
    expect_fail(&report);
    expect_at_fault(&report, ["third-party1:10"]);
}

#[test]
fn mock_simple_delta_to_exemptions_undershoot() {
    let mock = MockMetadata::simple();

    let metadata = mock.metadata();
    let (mut config, mut audits, imports) = files_full_audited(&metadata);

    let direct_audits = &mut audits.audits.get_mut("third-party1").unwrap();
    direct_audits.clear();
    direct_audits.push(delta_audit(
        ver(DEFAULT_VER - 3),
        ver(DEFAULT_VER),
        DEFAULT_CRIT,
    ));

    let direct_exemptions = &mut config.exemptions;
    direct_exemptions.insert(
        "third-party1".to_string(),
        vec![exemptions(ver(DEFAULT_VER - 5), DEFAULT_CRIT)],
    );

    let store = Store::mock(config, audits, imports);
    let report = run_resolve(&metadata, &store, ResolveDepth::Shallow);
    expect_fail(&report);
    expect_at_fault(&report, ["third-party1:10"]);
}

#[test]
fn mock_simple_delta_to_full_audit() {
    let mock = MockMetadata::simple();

    let metadata = mock.metadata();
    let (config, mut audits, imports) = files_full_audited(&metadata);

    let direct_audits = &mut audits.audits.get_mut("third-party1").unwrap();
    direct_audits.clear();
    direct_audits.push(delta_audit(
        ver(DEFAULT_VER - 5),
        ver(DEFAULT_VER),
        DEFAULT_CRIT,
    ));
    direct_audits.push(full_audit(ver(DEFAULT_VER - 5), DEFAULT_CRIT));

    let store = Store::mock(config, audits, imports);
    let report = run_resolve(&metadata, &store, ResolveDepth::Shallow);
    expect_pass(&report);
}

#[test]
fn mock_simple_delta_to_full_audit_overshoot() {
    let mock = MockMetadata::simple();

    let metadata = mock.metadata();
    let (config, mut audits, imports) = files_full_audited(&metadata);

    let direct_audits = &mut audits.audits.get_mut("third-party1").unwrap();
    direct_audits.clear();
    direct_audits.push(delta_audit(
        ver(DEFAULT_VER - 6),
        ver(DEFAULT_VER),
        DEFAULT_CRIT,
    ));
    direct_audits.push(full_audit(ver(DEFAULT_VER - 5), DEFAULT_CRIT));

    let store = Store::mock(config, audits, imports);
    let report = run_resolve(&metadata, &store, ResolveDepth::Shallow);
    expect_fail(&report);
    expect_at_fault(&report, ["third-party1:10"]);
}

#[test]
fn mock_simple_delta_to_full_audit_undershoot() {
    let mock = MockMetadata::simple();

    let metadata = mock.metadata();
    let (config, mut audits, imports) = files_full_audited(&metadata);

    let direct_audits = &mut audits.audits.get_mut("third-party1").unwrap();
    direct_audits.clear();
    direct_audits.push(delta_audit(
        ver(DEFAULT_VER - 3),
        ver(DEFAULT_VER),
        DEFAULT_CRIT,
    ));
    direct_audits.push(full_audit(ver(DEFAULT_VER - 5), DEFAULT_CRIT));

    let store = Store::mock(config, audits, imports);
    let report = run_resolve(&metadata, &store, ResolveDepth::Shallow);
    expect_fail(&report);
    expect_at_fault(&report, ["third-party1:10"]);
}

#[test]
fn mock_simple_reverse_delta_to_full_audit() {
    let mock = MockMetadata::simple();

    let metadata = mock.metadata();
    let (config, mut audits, imports) = files_full_audited(&metadata);

    let direct_audits = &mut audits.audits.get_mut("third-party1").unwrap();
    direct_audits.clear();
    direct_audits.push(delta_audit(
        ver(DEFAULT_VER + 5),
        ver(DEFAULT_VER),
        DEFAULT_CRIT,
    ));
    direct_audits.push(full_audit(ver(DEFAULT_VER + 5), DEFAULT_CRIT));

    let store = Store::mock(config, audits, imports);
    let report = run_resolve(&metadata, &store, ResolveDepth::Shallow);
    expect_pass(&report);
}

#[test]
fn mock_simple_reverse_delta_to_exemptions() {
    let mock = MockMetadata::simple();

    let metadata = mock.metadata();
    let (mut config, mut audits, imports) = files_full_audited(&metadata);

    let direct_audits = &mut audits.audits.get_mut("third-party1").unwrap();
    direct_audits.clear();
    direct_audits.push(delta_audit(
        ver(DEFAULT_VER + 5),
        ver(DEFAULT_VER),
        DEFAULT_CRIT,
    ));

    let direct_exemptions = &mut config.exemptions;
    direct_exemptions.insert(
        "third-party1".to_string(),
        vec![exemptions(ver(DEFAULT_VER + 5), DEFAULT_CRIT)],
    );

    let store = Store::mock(config, audits, imports);
    let report = run_resolve(&metadata, &store, ResolveDepth::Shallow);
    expect_pass(&report);
}

#[test]
fn mock_simple_wrongly_reversed_delta_to_exemptions() {
    let mock = MockMetadata::simple();

    let metadata = mock.metadata();
    let (mut config, mut audits, imports) = files_full_audited(&metadata);

    let direct_audits = &mut audits.audits.get_mut("third-party1").unwrap();
    direct_audits.clear();
    direct_audits.push(delta_audit(
        ver(DEFAULT_VER),
        ver(DEFAULT_VER - 5),
        DEFAULT_CRIT,
    ));

    let direct_exemptions = &mut config.exemptions;
    direct_exemptions.insert(
        "third-party1".to_string(),
        vec![exemptions(ver(DEFAULT_VER - 5), DEFAULT_CRIT)],
    );

    let store = Store::mock(config, audits, imports);
    let report = run_resolve(&metadata, &store, ResolveDepth::Shallow);
    expect_fail(&report);
    expect_at_fault(&report, ["third-party1:10"]);
}

#[test]
fn mock_simple_wrongly_reversed_delta_to_full_audit() {
    let mock = MockMetadata::simple();

    let metadata = mock.metadata();
    let (config, mut audits, imports) = files_full_audited(&metadata);

    let direct_audits = &mut audits.audits.get_mut("third-party1").unwrap();
    direct_audits.clear();
    direct_audits.push(delta_audit(
        ver(DEFAULT_VER),
        ver(DEFAULT_VER - 5),
        DEFAULT_CRIT,
    ));
    direct_audits.push(full_audit(ver(DEFAULT_VER - 5), DEFAULT_CRIT));

    let store = Store::mock(config, audits, imports);
    let report = run_resolve(&metadata, &store, ResolveDepth::Shallow);
    expect_fail(&report);
    expect_at_fault(&report, ["third-party1:10"]);
}

#[test]
fn mock_simple_needed_reversed_delta_to_exemptions() {
    let mock = MockMetadata::simple();

    let metadata = mock.metadata();
    let (mut config, mut audits, imports) = files_full_audited(&metadata);

    let direct_audits = &mut audits.audits.get_mut("third-party1").unwrap();
    direct_audits.clear();
    direct_audits.push(delta_audit(
        ver(DEFAULT_VER),
        ver(DEFAULT_VER + 5),
        DEFAULT_CRIT,
    ));

    let direct_exemptions = &mut config.exemptions;
    direct_exemptions.insert(
        "third-party1".to_string(),
        vec![exemptions(ver(DEFAULT_VER + 5), DEFAULT_CRIT)],
    );

    let store = Store::mock(config, audits, imports);
    let report = run_resolve(&metadata, &store, ResolveDepth::Shallow);
    expect_fail(&report);
    expect_at_fault(&report, ["third-party1:10"]);
}

#[test]
fn mock_simple_delta_to_exemptions_too_weak() {
    let mock = MockMetadata::simple();

    let metadata = mock.metadata();
    let (mut config, mut audits, imports) = files_full_audited(&metadata);

    let direct_audits = &mut audits.audits.get_mut("third-party1").unwrap();
    direct_audits.clear();
    direct_audits.push(delta_audit(
        ver(DEFAULT_VER - 5),
        ver(DEFAULT_VER),
        "weak-reviewed",
    ));

    let direct_exemptions = &mut config.exemptions;
    direct_exemptions.insert(
        "third-party1".to_string(),
        vec![exemptions(ver(DEFAULT_VER - 5), DEFAULT_CRIT)],
    );

    let store = Store::mock(config, audits, imports);
    let report = run_resolve(&metadata, &store, ResolveDepth::Shallow);
    expect_fail(&report);
    expect_at_fault(&report, ["third-party1:10"]);
}

#[test]
fn mock_simple_delta_to_full_audit_too_weak() {
    let mock = MockMetadata::simple();

    let metadata = mock.metadata();
    let (config, mut audits, imports) = files_full_audited(&metadata);

    let direct_audits = &mut audits.audits.get_mut("third-party1").unwrap();
    direct_audits.clear();
    direct_audits.push(delta_audit(
        ver(DEFAULT_VER - 5),
        ver(DEFAULT_VER),
        "weak-reviewed",
    ));
    direct_audits.push(full_audit(ver(DEFAULT_VER - 5), DEFAULT_CRIT));

    let store = Store::mock(config, audits, imports);
    let report = run_resolve(&metadata, &store, ResolveDepth::Shallow);
    expect_fail(&report);
    expect_at_fault(&report, ["third-party1:10"]);
}

#[test]
fn mock_simple_delta_to_too_weak_full_audit() {
    let mock = MockMetadata::simple();

    let metadata = mock.metadata();
    let (config, mut audits, imports) = files_full_audited(&metadata);

    let direct_audits = &mut audits.audits.get_mut("third-party1").unwrap();
    direct_audits.clear();
    direct_audits.push(delta_audit(
        ver(DEFAULT_VER - 5),
        ver(DEFAULT_VER),
        DEFAULT_CRIT,
    ));
    direct_audits.push(full_audit(ver(DEFAULT_VER - 5), "weak-reviewed"));

    let store = Store::mock(config, audits, imports);
    let report = run_resolve(&metadata, &store, ResolveDepth::Shallow);
    expect_fail(&report);
    expect_at_fault(&report, ["third-party1:10"]);
}

#[test]
fn mock_complex_inited() {
    let mock = MockMetadata::complex();
    let metadata = mock.metadata();
    let (config, audits, imports) = files_inited(&metadata);

    let store = Store::mock(config, audits, imports);
    let report = run_resolve(&metadata, &store, ResolveDepth::Shallow);
    expect_pass(&report);
}

#[test]
fn mock_complex_no_exemptions() {
    let mock = MockMetadata::complex();
    let metadata = mock.metadata();
    let (config, audits, imports) = files_no_exemptions(&metadata);

    let store = Store::mock(config, audits, imports);
    let report = run_resolve(&metadata, &store, ResolveDepth::Shallow);
    expect_fail(&report);
}

#[test]
fn mock_complex_full_audited() {
    let mock = MockMetadata::complex();
    let metadata = mock.metadata();
    let (config, audits, imports) = files_full_audited(&metadata);

    let store = Store::mock(config, audits, imports);
    let report = run_resolve(&metadata, &store, ResolveDepth::Shallow);
    expect_pass(&report);
}

#[test]
fn builtin_complex_inited() {
    let mock = MockMetadata::complex();
    let metadata = mock.metadata();
    let (config, audits, imports) = builtin_files_inited(&metadata);

    let store = Store::mock(config, audits, imports);
    let report = run_resolve(&metadata, &store, ResolveDepth::Shallow);
    expect_pass(&report);
}

#[test]
fn builtin_complex_no_exemptions() {
    let mock = MockMetadata::complex();
    let metadata = mock.metadata();
    let (config, audits, imports) = builtin_files_no_exemptions(&metadata);

    let store = Store::mock(config, audits, imports);
    let report = run_resolve(&metadata, &store, ResolveDepth::Shallow);
    expect_fail(&report);
}

#[test]
fn builtin_complex_full_audited() {
    let mock = MockMetadata::complex();
    let metadata = mock.metadata();
    let (config, audits, imports) = builtin_files_full_audited(&metadata);

    let store = Store::mock(config, audits, imports);
    let report = run_resolve(&metadata, &store, ResolveDepth::Shallow);
    expect_pass(&report);
}

#[test]
fn builtin_complex_minimal_audited() {
    let mock = MockMetadata::complex();
    let metadata = mock.metadata();
    let (config, audits, imports) = builtin_files_minimal_audited(&metadata);

    let store = Store::mock(config, audits, imports);
    let report = run_resolve(&metadata, &store, ResolveDepth::Shallow);
    expect_pass(&report);
}

#[test]
fn mock_complex_missing_core5() {
    let mock = MockMetadata::complex();
    let metadata = mock.metadata();
    let (config, mut audits, imports) = files_full_audited(&metadata);

    audits.audits.insert(
        "third-core".to_string(),
        vec![full_audit(ver(DEFAULT_VER), "reviewed")],
    );

    let store = Store::mock(config, audits, imports);
    let report = run_resolve(&metadata, &store, ResolveDepth::Shallow);
    expect_fail(&report);
    expect_at_fault(&report, ["third-core:5"]);
}

#[test]
fn mock_complex_missing_core10() {
    let mock = MockMetadata::complex();
    let metadata = mock.metadata();
    let (config, mut audits, imports) = files_full_audited(&metadata);

    audits.audits.insert(
        "third-core".to_string(),
        vec![full_audit(ver(5), "reviewed")],
    );

    let store = Store::mock(config, audits, imports);
    let report = run_resolve(&metadata, &store, ResolveDepth::Shallow);
    expect_fail(&report);
    expect_at_fault(&report, ["third-core:10"]);
}

#[test]
fn mock_complex_core10_too_weak() {
    let mock = MockMetadata::complex();
    let metadata = mock.metadata();
    let (config, mut audits, imports) = files_full_audited(&metadata);

    audits.audits.insert(
        "third-core".to_string(),
        vec![
            full_audit(ver(DEFAULT_VER), "weak-reviewed"),
            full_audit(ver(5), "reviewed"),
        ],
    );

    let store = Store::mock(config, audits, imports);
    let report = run_resolve(&metadata, &store, ResolveDepth::Shallow);
    expect_fail(&report);
    expect_at_fault(&report, ["third-core:10"]);
}

#[test]
fn mock_complex_core10_partially_too_weak() {
    let mock = MockMetadata::complex();
    let metadata = mock.metadata();
    let (config, mut audits, imports) = files_full_audited(&metadata);

    audits.audits.insert(
        "third-core".to_string(),
        vec![
            full_audit(ver(DEFAULT_VER), "weak-reviewed"),
            full_audit(ver(5), "reviewed"),
        ],
    );

    let audit_with_weaker_req = full_audit_dep(
        ver(DEFAULT_VER),
        "reviewed",
        [("third-core", ["weak-reviewed"])],
    );
    audits
        .audits
        .insert("thirdA".to_string(), vec![audit_with_weaker_req.clone()]);
    audits
        .audits
        .insert("thirdAB".to_string(), vec![audit_with_weaker_req]);

    let store = Store::mock(config, audits, imports);
    let report = run_resolve(&metadata, &store, ResolveDepth::Shallow);
    expect_fail(&report);
    expect_at_fault(&report, ["third-core:10"]);
}

#[test]
fn mock_complex_core10_partially_too_weak_via_weak_delta() {
    let mock = MockMetadata::complex();
    let metadata = mock.metadata();
    let (config, mut audits, imports) = files_full_audited(&metadata);

    audits.audits.insert(
        "third-core".to_string(),
        vec![
            delta_audit(ver(5), ver(DEFAULT_VER), "weak-reviewed"),
            full_audit(ver(5), "reviewed"),
        ],
    );

    let audit_with_weaker_req = full_audit_dep(
        ver(DEFAULT_VER),
        "reviewed",
        [("third-core", ["weak-reviewed"])],
    );
    audits
        .audits
        .insert("thirdA".to_string(), vec![audit_with_weaker_req.clone()]);
    audits
        .audits
        .insert("thirdAB".to_string(), vec![audit_with_weaker_req]);

    let store = Store::mock(config, audits, imports);
    let report = run_resolve(&metadata, &store, ResolveDepth::Shallow);
    expect_fail(&report);
    expect_at_fault(&report, ["third-core:10"]);
}

#[test]
fn mock_complex_core10_partially_too_weak_via_strong_delta() {
    let mock = MockMetadata::complex();
    let metadata = mock.metadata();
    let (mut config, mut audits, imports) = files_full_audited(&metadata);

    audits.audits.insert(
        "third-core".to_string(),
        vec![
            delta_audit(ver(5), ver(DEFAULT_VER), "reviewed"),
            full_audit(ver(5), "weak-reviewed"),
        ],
    );

    let audit_with_weaker_req = full_audit_dep(
        ver(DEFAULT_VER),
        "reviewed",
        [("third-core", ["weak-reviewed"])],
    );
    audits
        .audits
        .insert("thirdA".to_string(), vec![audit_with_weaker_req.clone()]);
    audits
        .audits
        .insert("thirdAB".to_string(), vec![audit_with_weaker_req]);

    config.policy.insert(
        "firstA".to_string(),
        dep_policy([("third-core", ["weak-reviewed"])]),
    );

    let store = Store::mock(config, audits, imports);
    let report = run_resolve(&metadata, &store, ResolveDepth::Shallow);
    expect_fail(&report);
}

#[test]
fn mock_simple_policy_root_too_strong() {
    let mock = MockMetadata::simple();
    let metadata = mock.metadata();
    let (mut config, audits, imports) = files_full_audited(&metadata);

    config
        .policy
        .insert("root-package".to_string(), self_policy(["strong-reviewed"]));

    let store = Store::mock(config, audits, imports);
    let report = run_resolve(&metadata, &store, ResolveDepth::Shallow);
    expect_fail(&report);
}

#[test]
fn mock_simple_policy_root_weaker() {
    let mock = MockMetadata::simple();
    let metadata = mock.metadata();
    let (mut config, audits, imports) = files_full_audited(&metadata);

    config
        .policy
        .insert("root-package".to_string(), self_policy(["weak-reviewed"]));

    let store = Store::mock(config, audits, imports);
    let report = run_resolve(&metadata, &store, ResolveDepth::Shallow);
    expect_pass(&report);
}

#[test]
fn mock_simple_policy_first_too_strong() {
    let mock = MockMetadata::simple();
    let metadata = mock.metadata();
    let (mut config, audits, imports) = files_full_audited(&metadata);

    config
        .policy
        .insert("first-party".to_string(), self_policy(["strong-reviewed"]));

    let store = Store::mock(config, audits, imports);
    let report = run_resolve(&metadata, &store, ResolveDepth::Shallow);
    expect_fail(&report);
}

#[test]
fn mock_simple_policy_first_weaker() {
    let mock = MockMetadata::simple();
    let metadata = mock.metadata();
    let (mut config, audits, imports) = files_full_audited(&metadata);

    config
        .policy
        .insert("first-party".to_string(), self_policy(["weak-reviewed"]));

    let store = Store::mock(config, audits, imports);
    let report = run_resolve(&metadata, &store, ResolveDepth::Shallow);
    expect_pass(&report);
}

#[test]
fn mock_simple_policy_root_dep_weaker() {
    let mock = MockMetadata::simple();
    let metadata = mock.metadata();
    let (mut config, audits, imports) = files_full_audited(&metadata);

    config.policy.insert(
        "root-package".to_string(),
        dep_policy([("first-party", ["weak-reviewed"])]),
    );

    let store = Store::mock(config, audits, imports);
    let report = run_resolve(&metadata, &store, ResolveDepth::Shallow);
    expect_pass(&report);
}

#[test]
fn mock_simple_policy_root_dep_too_strong() {
    let mock = MockMetadata::simple();
    let metadata = mock.metadata();
    let (mut config, audits, imports) = files_full_audited(&metadata);

    config.policy.insert(
        "root-package".to_string(),
        dep_policy([("first-party", ["strong-reviewed"])]),
    );

    let store = Store::mock(config, audits, imports);
    let report = run_resolve(&metadata, &store, ResolveDepth::Shallow);
    expect_fail(&report);
}

#[test]
fn mock_simple_policy_first_dep_weaker() {
    let mock = MockMetadata::simple();
    let metadata = mock.metadata();
    let (mut config, audits, imports) = files_full_audited(&metadata);

    config.policy.insert(
        "first-party".to_string(),
        dep_policy([("third-party1", ["weak-reviewed"])]),
    );

    let store = Store::mock(config, audits, imports);
    let report = run_resolve(&metadata, &store, ResolveDepth::Shallow);
    expect_pass(&report);
}

#[test]
fn mock_simple_policy_first_dep_too_strong() {
    let mock = MockMetadata::simple();
    let metadata = mock.metadata();
    let (mut config, audits, imports) = files_full_audited(&metadata);

    config.policy.insert(
        "first-party".to_string(),
        dep_policy([("third-party1", ["strong-reviewed"])]),
    );

    let store = Store::mock(config, audits, imports);
    let report = run_resolve(&metadata, &store, ResolveDepth::Shallow);
    expect_fail(&report);
}

#[test]
fn mock_simple_policy_first_dep_stronger() {
    let mock = MockMetadata::simple();
    let metadata = mock.metadata();
    let (mut config, mut audits, imports) = files_full_audited(&metadata);

    config.policy.insert(
        "first-party".to_string(),
        dep_policy([("third-party2", ["strong-reviewed"])]),
    );

    audits.audits.insert(
        "third-party2".to_string(),
        vec![full_audit(ver(DEFAULT_VER), "strong-reviewed")],
    );

    let store = Store::mock(config, audits, imports);
    let report = run_resolve(&metadata, &store, ResolveDepth::Shallow);
    expect_pass(&report);
}

#[test]
fn mock_simple_policy_first_dep_weaker_needed() {
    let mock = MockMetadata::simple();
    let metadata = mock.metadata();
    let (mut config, mut audits, imports) = files_full_audited(&metadata);

    config.policy.insert(
        "first-party".to_string(),
        dep_policy([("third-party1", ["weak-reviewed"])]),
    );

    audits.audits.insert(
        "third-party1".to_string(),
        vec![full_audit(ver(DEFAULT_VER), "weak-reviewed")],
    );

    let store = Store::mock(config, audits, imports);
    let report = run_resolve(&metadata, &store, ResolveDepth::Shallow);
    expect_pass(&report);
}

#[test]
fn mock_simple_policy_first_dep_extra() {
    let mock = MockMetadata::simple();
    let metadata = mock.metadata();
    let (mut config, mut audits, imports) = files_full_audited(&metadata);

    config.policy.insert(
        "first-party".to_string(),
        dep_policy([("third-party2", ["reviewed", "fuzzed"])]),
    );

    audits.audits.insert(
        "third-party2".to_string(),
        vec![
            full_audit(ver(DEFAULT_VER), "reviewed"),
            full_audit(ver(DEFAULT_VER), "fuzzed"),
        ],
    );

    let store = Store::mock(config, audits, imports);
    let report = run_resolve(&metadata, &store, ResolveDepth::Shallow);
    expect_pass(&report);
}

#[test]
fn mock_simple_policy_first_dep_extra_missing() {
    let mock = MockMetadata::simple();
    let metadata = mock.metadata();
    let (mut config, mut audits, imports) = files_full_audited(&metadata);

    config.policy.insert(
        "first-party".to_string(),
        dep_policy([("third-party2", ["reviewed", "fuzzed"])]),
    );

    audits.audits.insert(
        "third-party2".to_string(),
        vec![full_audit(ver(DEFAULT_VER), "reviewed")],
    );

    let store = Store::mock(config, audits, imports);
    let report = run_resolve(&metadata, &store, ResolveDepth::Shallow);
    expect_fail(&report);
    expect_at_fault(&report, ["third-party2:10"]);
}

#[test]
fn mock_simple_policy_first_extra_partially_missing() {
    let mock = MockMetadata::simple();
    let metadata = mock.metadata();
    let (mut config, mut audits, imports) = files_full_audited(&metadata);

    config.policy.insert(
        "first-party".to_string(),
        self_policy(["reviewed", "fuzzed"]),
    );

    audits.audits.insert(
        "third-party2".to_string(),
        vec![
            full_audit(ver(DEFAULT_VER), "reviewed"),
            full_audit(ver(DEFAULT_VER), "fuzzed"),
        ],
    );

    let store = Store::mock(config, audits, imports);
    let report = run_resolve(&metadata, &store, ResolveDepth::Shallow);
    expect_fail(&report);
}

#[test]
fn mock_simple_first_policy_redundant() {
    let mock = MockMetadata::simple();
    let metadata = mock.metadata();
    let (mut config, audits, imports) = files_full_audited(&metadata);

    config.policy.insert(
        "first-party".to_string(),
        self_policy(["reviewed", "weak-reviewed"]),
    );

    let store = Store::mock(config, audits, imports);
    let report = run_resolve(&metadata, &store, ResolveDepth::Shallow);
    expect_pass(&report);
}

#[test]
fn builtin_simple_deps_inited() {
    let mock = MockMetadata::simple_deps();

    let metadata = mock.metadata();
    let (config, audits, imports) = builtin_files_inited(&metadata);

    let store = Store::mock(config, audits, imports);
    let report = run_resolve(&metadata, &store, ResolveDepth::Shallow);
    expect_pass(&report);
}

#[test]
fn builtin_simple_deps_no_exemptions() {
    let mock = MockMetadata::simple_deps();

    let metadata = mock.metadata();
    let (config, audits, imports) = builtin_files_no_exemptions(&metadata);

    let store = Store::mock(config, audits, imports);
    let report = run_resolve(&metadata, &store, ResolveDepth::Shallow);
    expect_fail(&report);
}

#[test]
fn builtin_simple_deps_full_audited() {
    let mock = MockMetadata::simple_deps();

    let metadata = mock.metadata();
    let (config, audits, imports) = builtin_files_full_audited(&metadata);

    let store = Store::mock(config, audits, imports);
    let report = run_resolve(&metadata, &store, ResolveDepth::Shallow);
    expect_pass(&report);
}

#[test]
fn builtin_simple_deps_minimal_audited() {
    let mock = MockMetadata::simple_deps();

    let metadata = mock.metadata();
    let (config, audits, imports) = builtin_files_minimal_audited(&metadata);

    let store = Store::mock(config, audits, imports);
    let report = run_resolve(&metadata, &store, ResolveDepth::Shallow);
    expect_pass(&report);
}

#[test]
fn builtin_no_deps() {
    let mock = MockMetadata::new(vec![MockPackage {
        name: "root-package",
        is_workspace: true,
        is_first_party: true,
        deps: vec![],
        ..Default::default()
    }]);

    let metadata = mock.metadata();
    let (config, audits, imports) = builtin_files_full_audited(&metadata);

    let store = Store::mock(config, audits, imports);
    let report = run_resolve(&metadata, &store, ResolveDepth::Shallow);
    expect_pass(&report);
}

#[test]
fn builtin_only_first_deps() {
    let mock = MockMetadata::new(vec![
        MockPackage {
            name: "root-package",
            is_workspace: true,
            is_first_party: true,
            deps: vec![dep("first-party")],
            ..Default::default()
        },
        MockPackage {
            name: "first-party",
            is_first_party: true,
            deps: vec![],
            ..Default::default()
        },
    ]);

    let metadata = mock.metadata();
    let (config, audits, imports) = builtin_files_full_audited(&metadata);

    let store = Store::mock(config, audits, imports);
    let report = run_resolve(&metadata, &store, ResolveDepth::Shallow);
    expect_pass(&report);
}

#[test]
fn builtin_cycle_inited() {
    let mock = MockMetadata::cycle();

    let metadata = mock.metadata();
    let (config, audits, imports) = builtin_files_inited(&metadata);

    let store = Store::mock(config, audits, imports);
    let report = run_resolve(&metadata, &store, ResolveDepth::Shallow);
    expect_pass(&report);
}

#[test]
fn builtin_cycle_exemptions() {
    let mock = MockMetadata::cycle();

    let metadata = mock.metadata();
    let (config, audits, imports) = builtin_files_no_exemptions(&metadata);

    let store = Store::mock(config, audits, imports);
    let report = run_resolve(&metadata, &store, ResolveDepth::Shallow);
    expect_fail(&report);
}

#[test]
fn builtin_cycle_full_audited() {
    let mock = MockMetadata::cycle();

    let metadata = mock.metadata();
    let (config, audits, imports) = builtin_files_full_audited(&metadata);

    let store = Store::mock(config, audits, imports);
    let report = run_resolve(&metadata, &store, ResolveDepth::Shallow);
    expect_pass(&report);
}

#[test]
fn builtin_cycle_minimal_audited() {
    let mock = MockMetadata::cycle();

    let metadata = mock.metadata();
    let (config, audits, imports) = builtin_files_minimal_audited(&metadata);

    let store = Store::mock(config, audits, imports);
    let report = run_resolve(&metadata, &store, ResolveDepth::Shallow);
    expect_pass(&report);
}

#[test]
fn builtin_dev_detection() {
    let mock = MockMetadata::dev_detection();

    let metadata = mock.metadata();
    let (config, mut audits, imports) = builtin_files_no_exemptions(&metadata);
    audits.audits.insert(
        "normal".to_string(),
        vec![full_audit(ver(DEFAULT_VER), SAFE_TO_DEPLOY)],
    );
    audits.audits.insert(
        "both".to_string(),
        vec![full_audit(ver(DEFAULT_VER), SAFE_TO_DEPLOY)],
    );
    audits.audits.insert(
        "simple-dev".to_string(),
        vec![full_audit(ver(DEFAULT_VER), SAFE_TO_RUN)],
    );
    audits.audits.insert(
        "simple-dev-indirect".to_string(),
        vec![full_audit(ver(DEFAULT_VER), SAFE_TO_RUN)],
    );
    audits.audits.insert(
        "dev-cycle-direct".to_string(),
        vec![full_audit(ver(DEFAULT_VER), SAFE_TO_RUN)],
    );
    audits.audits.insert(
        "dev-cycle-indirect".to_string(),
        vec![full_audit(ver(DEFAULT_VER), SAFE_TO_RUN)],
    );

    let store = Store::mock(config, audits, imports);
    let report = run_resolve(&metadata, &store, ResolveDepth::Shallow);
    expect_pass(&report);
}

#[test]
fn builtin_dev_detection_empty() {
    let mock = MockMetadata::dev_detection();

    let metadata = mock.metadata();
    let (config, audits, imports) = builtin_files_no_exemptions(&metadata);

    let store = Store::mock(config, audits, imports);
    let report = run_resolve(&metadata, &store, ResolveDepth::Shallow);
    expect_fail(&report);
}

#[test]
fn builtin_dev_detection_empty_deeper() {
    let mock = MockMetadata::dev_detection();

    let metadata = mock.metadata();
    let (config, audits, imports) = builtin_files_no_exemptions(&metadata);

    let store = Store::mock(config, audits, imports);
    let report = run_resolve(&metadata, &store, ResolveDepth::Deep);
    expect_fail(&report);
}

#[test]
fn builtin_simple_exemptions_extra() {
    let mock = MockMetadata::simple();

    let metadata = mock.metadata();
    let (mut config, mut audits, imports) = builtin_files_full_audited(&metadata);

    audits.audits.insert("third-party1".to_string(), vec![]);

    config.exemptions.insert(
        "third-party1".to_string(),
        vec![
            exemptions(ver(5), SAFE_TO_DEPLOY),
            exemptions(ver(DEFAULT_VER), SAFE_TO_DEPLOY),
        ],
    );

    let store = Store::mock(config, audits, imports);
    let report = run_resolve(&metadata, &store, ResolveDepth::Shallow);
    expect_pass(&report);
}

#[test]
fn builtin_simple_exemptions_not_a_real_dep() {
    let mock = MockMetadata::simple();

    let metadata = mock.metadata();
    let (mut config, audits, imports) = builtin_files_full_audited(&metadata);

    config.exemptions.insert(
        "fake-dep".to_string(),
        vec![exemptions(ver(DEFAULT_VER), SAFE_TO_DEPLOY)],
    );

    let store = Store::mock(config, audits, imports);
    let report = run_resolve(&metadata, &store, ResolveDepth::Shallow);
    expect_pass(&report);
}

#[test]
fn builtin_simple_deps_exemptions_overbroad() {
    let mock = MockMetadata::simple_deps();

    let metadata = mock.metadata();
    let (mut config, mut audits, imports) = builtin_files_full_audited(&metadata);

    audits.audits.insert("dev".to_string(), vec![]);

    config.exemptions.insert(
        "dev".to_string(),
        vec![exemptions(ver(DEFAULT_VER), SAFE_TO_DEPLOY)],
    );

    let store = Store::mock(config, audits, imports);
    let report = run_resolve(&metadata, &store, ResolveDepth::Shallow);
    expect_pass(&report);
}

#[test]
fn builtin_complex_exemptions_twins() {
    let mock = MockMetadata::complex();

    let metadata = mock.metadata();
    let (mut config, mut audits, imports) = builtin_files_full_audited(&metadata);

    audits.audits.insert("third-core".to_string(), vec![]);

    config.exemptions.insert(
        "third-core".to_string(),
        vec![
            exemptions(ver(DEFAULT_VER), SAFE_TO_DEPLOY),
            exemptions(ver(5), SAFE_TO_DEPLOY),
        ],
    );

    let store = Store::mock(config, audits, imports);
    let report = run_resolve(&metadata, &store, ResolveDepth::Shallow);
    expect_pass(&report);
}

#[test]
fn builtin_complex_exemptions_partial_twins() {
    let mock = MockMetadata::complex();

    let metadata = mock.metadata();
    let (mut config, mut audits, imports) = builtin_files_full_audited(&metadata);

    audits.audits.insert(
        "third-core".to_string(),
        vec![full_audit(ver(5), SAFE_TO_DEPLOY)],
    );

    config.exemptions.insert(
        "third-core".to_string(),
        vec![exemptions(ver(DEFAULT_VER), SAFE_TO_DEPLOY)],
    );

    let store = Store::mock(config, audits, imports);
    let report = run_resolve(&metadata, &store, ResolveDepth::Shallow);
    expect_pass(&report);
}

#[test]
fn builtin_simple_exemptions_in_delta() {
    let mock = MockMetadata::simple();

    let metadata = mock.metadata();
    let (mut config, mut audits, imports) = builtin_files_full_audited(&metadata);

    audits.audits.insert(
        "third-party1".to_string(),
        vec![
            full_audit(ver(3), SAFE_TO_DEPLOY),
            delta_audit(ver(3), ver(5), SAFE_TO_DEPLOY),
            delta_audit(ver(5), ver(DEFAULT_VER), SAFE_TO_DEPLOY),
        ],
    );

    config.exemptions.insert(
        "third-party1".to_string(),
        vec![exemptions(ver(5), SAFE_TO_DEPLOY)],
    );

    let store = Store::mock(config, audits, imports);
    let report = run_resolve(&metadata, &store, ResolveDepth::Shallow);
    expect_pass(&report);
}

#[test]
fn builtin_simple_exemptions_in_full() {
    let mock = MockMetadata::simple();

    let metadata = mock.metadata();
    let (mut config, mut audits, imports) = builtin_files_full_audited(&metadata);

    audits.audits.insert(
        "third-party1".to_string(),
        vec![
            full_audit(ver(3), SAFE_TO_DEPLOY),
            delta_audit(ver(3), ver(5), SAFE_TO_DEPLOY),
            delta_audit(ver(5), ver(DEFAULT_VER), SAFE_TO_DEPLOY),
        ],
    );

    config.exemptions.insert(
        "third-party1".to_string(),
        vec![exemptions(ver(3), SAFE_TO_DEPLOY)],
    );

    let store = Store::mock(config, audits, imports);
    let report = run_resolve(&metadata, &store, ResolveDepth::Shallow);
    expect_pass(&report);
}

#[test]
fn builtin_simple_exemptions_in_direct_full() {
    let mock = MockMetadata::simple();

    let metadata = mock.metadata();
    let (mut config, mut audits, imports) = builtin_files_full_audited(&metadata);

    audits.audits.insert(
        "third-party1".to_string(),
        vec![full_audit(ver(DEFAULT_VER), SAFE_TO_DEPLOY)],
    );

    config.exemptions.insert(
        "third-party1".to_string(),
        vec![exemptions(ver(DEFAULT_VER), SAFE_TO_DEPLOY)],
    );

    let store = Store::mock(config, audits, imports);
    let report = run_resolve(&metadata, &store, ResolveDepth::Shallow);
    expect_pass(&report);
}

#[test]
fn builtin_simple_exemptions_nested_weaker_req() {
    let mock = MockMetadata::simple();

    let metadata = mock.metadata();
    let (mut config, mut audits, imports) = builtin_files_full_audited(&metadata);

    audits.audits.insert(
        "third-party1".to_string(),
        vec![
            delta_audit_dep(
                ver(3),
                ver(6),
                SAFE_TO_DEPLOY,
                [("transitive-third-party1", [SAFE_TO_RUN])],
            ),
            delta_audit_dep(
                ver(6),
                ver(DEFAULT_VER),
                SAFE_TO_DEPLOY,
                [("transitive-third-party1", [SAFE_TO_RUN])],
            ),
        ],
    );
    audits.audits.insert(
        "transitive-third-party1".to_string(),
        vec![
            delta_audit(ver(4), ver(8), SAFE_TO_RUN),
            delta_audit(ver(8), ver(DEFAULT_VER), SAFE_TO_RUN),
        ],
    );

    config.exemptions.insert(
        "third-party1".to_string(),
        vec![exemptions_dep(
            ver(3),
            SAFE_TO_DEPLOY,
            [("transitive-third-party1", [SAFE_TO_RUN])],
        )],
    );

    config.exemptions.insert(
        "transitive-third-party1".to_string(),
        vec![exemptions(ver(4), SAFE_TO_RUN)],
    );

    let store = Store::mock(config, audits, imports);
    let report = run_resolve(&metadata, &store, ResolveDepth::Shallow);
    expect_pass(&report);
}

#[test]
fn builtin_simple_exemptions_nested_weaker_req_needs_dep_criteria() {
    let mock = MockMetadata::simple();

    let metadata = mock.metadata();
    let (mut config, mut audits, imports) = builtin_files_full_audited(&metadata);

    audits.audits.insert(
        "third-party1".to_string(),
        vec![
            delta_audit_dep(
                ver(3),
                ver(6),
                SAFE_TO_DEPLOY,
                [("transitive-third-party1", [SAFE_TO_RUN])],
            ),
            delta_audit_dep(
                ver(6),
                ver(DEFAULT_VER),
                SAFE_TO_DEPLOY,
                [("transitive-third-party1", [SAFE_TO_RUN])],
            ),
        ],
    );
    audits.audits.insert(
        "transitive-third-party1".to_string(),
        vec![
            delta_audit(ver(4), ver(8), SAFE_TO_RUN),
            delta_audit(ver(8), ver(DEFAULT_VER), SAFE_TO_RUN),
        ],
    );

    config.exemptions.insert(
        "third-party1".to_string(),
        vec![exemptions(ver(3), SAFE_TO_DEPLOY)],
    );

    config.exemptions.insert(
        "transitive-third-party1".to_string(),
        vec![exemptions(ver(4), SAFE_TO_RUN)],
    );

    let store = Store::mock(config, audits, imports);
    let report = run_resolve(&metadata, &store, ResolveDepth::Shallow);
    expect_fail(&report);
}

#[test]
fn builtin_simple_exemptions_nested_stronger_req() {
    let mock = MockMetadata::simple();

    let metadata = mock.metadata();
    let (mut config, mut audits, imports) = builtin_files_full_audited(&metadata);

    config.policy.insert(
        "first-party".to_string(),
        dep_policy([("third-party1", [SAFE_TO_RUN])]),
    );

    audits.audits.insert(
        "third-party1".to_string(),
        vec![
            delta_audit_dep(
                ver(3),
                ver(6),
                SAFE_TO_RUN,
                [("transitive-third-party1", [SAFE_TO_DEPLOY])],
            ),
            delta_audit_dep(
                ver(6),
                ver(DEFAULT_VER),
                SAFE_TO_RUN,
                [("transitive-third-party1", [SAFE_TO_DEPLOY])],
            ),
        ],
    );
    audits.audits.insert(
        "transitive-third-party1".to_string(),
        vec![
            delta_audit(ver(4), ver(8), SAFE_TO_DEPLOY),
            delta_audit(ver(8), ver(DEFAULT_VER), SAFE_TO_DEPLOY),
        ],
    );

    config.exemptions.insert(
        "third-party1".to_string(),
        vec![exemptions(ver(3), SAFE_TO_RUN)],
    );

    config.exemptions.insert(
        "transitive-third-party1".to_string(),
        vec![exemptions(ver(4), SAFE_TO_DEPLOY)],
    );

    let store = Store::mock(config, audits, imports);
    let report = run_resolve(&metadata, &store, ResolveDepth::Shallow);
    expect_pass(&report);
}

#[test]
fn builtin_simple_deps_exemptions_adds_uneeded_criteria() {
    let mock = MockMetadata::simple_deps();

    let metadata = mock.metadata();
    let (mut config, mut audits, imports) = builtin_files_full_audited(&metadata);

    audits.audits.insert(
        "dev".to_string(),
        vec![
            full_audit(ver(5), SAFE_TO_RUN),
            delta_audit(ver(5), ver(DEFAULT_VER), SAFE_TO_DEPLOY),
        ],
    );

    config
        .exemptions
        .insert("dev".to_string(), vec![exemptions(ver(5), SAFE_TO_DEPLOY)]);

    let store = Store::mock(config, audits, imports);
    let report = run_resolve(&metadata, &store, ResolveDepth::Shallow);
    expect_pass(&report);
}

#[test]
fn builtin_dev_detection_exemptions_adds_uneeded_criteria_indirect() {
    let mock = MockMetadata::dev_detection();

    let metadata = mock.metadata();
    let (mut config, mut audits, imports) = builtin_files_minimal_audited(&metadata);

    audits.audits.insert(
        "simple-dev-indirect".to_string(),
        vec![
            full_audit(ver(5), SAFE_TO_RUN),
            delta_audit(ver(5), ver(DEFAULT_VER), SAFE_TO_DEPLOY),
        ],
    );

    config.exemptions.insert(
        "simple-dev-indirect".to_string(),
        vec![exemptions(ver(5), SAFE_TO_DEPLOY)],
    );

    let store = Store::mock(config, audits, imports);
    let report = run_resolve(&metadata, &store, ResolveDepth::Shallow);
    expect_pass(&report);
}

#[test]
fn builtin_dev_detection_cursed_full() {
    let mock = MockMetadata::dev_detection();

    let metadata = mock.metadata();
    let (config, mut audits, imports) = builtin_files_full_audited(&metadata);

    audits.audits.insert(
        "simple-dev-indirect".to_string(),
        vec![
            full_audit(ver(5), SAFE_TO_RUN),
            delta_audit(ver(5), ver(DEFAULT_VER), SAFE_TO_RUN),
            delta_audit(ver(5), ver(DEFAULT_VER), SAFE_TO_DEPLOY),
        ],
    );

    let store = Store::mock(config, audits, imports);
    let report = run_resolve(&metadata, &store, ResolveDepth::Shallow);
    expect_pass(&report);
}

#[test]
fn builtin_dev_detection_cursed_minimal() {
    let mock = MockMetadata::dev_detection();

    let metadata = mock.metadata();
    let (config, mut audits, imports) = builtin_files_minimal_audited(&metadata);

    audits.audits.insert(
        "simple-dev-indirect".to_string(),
        vec![
            full_audit(ver(5), SAFE_TO_RUN),
            delta_audit(ver(5), ver(DEFAULT_VER), SAFE_TO_RUN),
            delta_audit(ver(5), ver(DEFAULT_VER), SAFE_TO_DEPLOY),
        ],
    );

    let store = Store::mock(config, audits, imports);
    let report = run_resolve(&metadata, &store, ResolveDepth::Shallow);
    expect_pass(&report);
}

#[test]
fn builtin_simple_delta_cycle() {
    let mock = MockMetadata::simple();

    let metadata = mock.metadata();
    let (config, mut audits, imports) = builtin_files_full_audited(&metadata);

    audits.audits.insert(
        "third-party1".to_string(),
        vec![
            full_audit(ver(3), SAFE_TO_DEPLOY),
            delta_audit(ver(3), ver(5), SAFE_TO_DEPLOY),
            delta_audit(ver(5), ver(7), SAFE_TO_DEPLOY),
            delta_audit(ver(7), ver(5), SAFE_TO_DEPLOY),
            delta_audit(ver(7), ver(DEFAULT_VER), SAFE_TO_DEPLOY),
        ],
    );

    let store = Store::mock(config, audits, imports);
    let report = run_resolve(&metadata, &store, ResolveDepth::Shallow);
    expect_pass(&report);
}

#[test]
fn builtin_simple_noop_delta() {
    let mock = MockMetadata::simple();

    let metadata = mock.metadata();
    let (config, mut audits, imports) = builtin_files_full_audited(&metadata);

    audits.audits.insert(
        "third-party1".to_string(),
        vec![
            full_audit(ver(3), SAFE_TO_DEPLOY),
            delta_audit(ver(3), ver(5), SAFE_TO_DEPLOY),
            delta_audit(ver(5), ver(5), SAFE_TO_DEPLOY),
            delta_audit(ver(5), ver(7), SAFE_TO_DEPLOY),
            delta_audit(ver(7), ver(DEFAULT_VER), SAFE_TO_DEPLOY),
        ],
    );

    let store = Store::mock(config, audits, imports);
    let report = run_resolve(&metadata, &store, ResolveDepth::Shallow);
    expect_pass(&report);
}

#[test]
fn builtin_simple_delta_double_cycle() {
    let mock = MockMetadata::simple();

    let metadata = mock.metadata();
    let (config, mut audits, imports) = builtin_files_full_audited(&metadata);

    audits.audits.insert(
        "third-party1".to_string(),
        vec![
            full_audit(ver(2), SAFE_TO_DEPLOY),
            delta_audit(ver(2), ver(3), SAFE_TO_DEPLOY),
            delta_audit(ver(3), ver(4), SAFE_TO_DEPLOY),
            delta_audit(ver(4), ver(3), SAFE_TO_DEPLOY),
            delta_audit(ver(4), ver(5), SAFE_TO_DEPLOY),
            delta_audit(ver(5), ver(6), SAFE_TO_DEPLOY),
            delta_audit(ver(6), ver(5), SAFE_TO_DEPLOY),
            delta_audit(ver(6), ver(7), SAFE_TO_DEPLOY),
            delta_audit(ver(7), ver(DEFAULT_VER), SAFE_TO_DEPLOY),
        ],
    );

    let store = Store::mock(config, audits, imports);
    let report = run_resolve(&metadata, &store, ResolveDepth::Shallow);
    expect_pass(&report);
}

#[test]
fn builtin_simple_delta_broken_double_cycle() {
    let mock = MockMetadata::simple();

    let metadata = mock.metadata();
    let (config, mut audits, imports) = builtin_files_full_audited(&metadata);

    audits.audits.insert(
        "third-party1".to_string(),
        vec![
            full_audit(ver(2), SAFE_TO_DEPLOY),
            delta_audit(ver(2), ver(3), SAFE_TO_DEPLOY),
            delta_audit(ver(3), ver(4), SAFE_TO_DEPLOY),
            delta_audit(ver(4), ver(3), SAFE_TO_DEPLOY),
            // broken: delta_audit(ver(4), ver(5), SAFE_TO_DEPLOY),
            delta_audit(ver(5), ver(6), SAFE_TO_DEPLOY),
            delta_audit(ver(6), ver(5), SAFE_TO_DEPLOY),
            delta_audit(ver(6), ver(7), SAFE_TO_DEPLOY),
            delta_audit(ver(7), ver(DEFAULT_VER), SAFE_TO_DEPLOY),
        ],
    );

    let store = Store::mock(config, audits, imports);
    let report = run_resolve(&metadata, &store, ResolveDepth::Shallow);
    expect_fail(&report);
    expect_at_fault(&report, ["third-party1:10"]);
}

#[test]
fn builtin_simple_delta_broken_cycle() {
    let mock = MockMetadata::simple();

    let metadata = mock.metadata();
    let (config, mut audits, imports) = builtin_files_full_audited(&metadata);

    audits.audits.insert(
        "third-party1".to_string(),
        vec![
            full_audit(ver(3), SAFE_TO_DEPLOY),
            delta_audit(ver(3), ver(5), SAFE_TO_DEPLOY),
            delta_audit(ver(5), ver(7), SAFE_TO_DEPLOY),
            delta_audit(ver(7), ver(5), SAFE_TO_DEPLOY),
            // broken: delta_audit(ver(7), ver(8), SAFE_TO_DEPLOY),
            delta_audit(ver(8), ver(DEFAULT_VER), SAFE_TO_DEPLOY),
        ],
    );

    let store = Store::mock(config, audits, imports);
    let report = run_resolve(&metadata, &store, ResolveDepth::Shallow);
    expect_fail(&report);
    expect_at_fault(&report, ["third-party1:10"]);
}

#[test]
fn builtin_simple_long_cycle() {
    let mock = MockMetadata::simple();

    let metadata = mock.metadata();
    let (config, mut audits, imports) = builtin_files_full_audited(&metadata);

    audits.audits.insert(
        "third-party1".to_string(),
        vec![
            full_audit(ver(2), SAFE_TO_DEPLOY),
            delta_audit(ver(2), ver(7), SAFE_TO_DEPLOY),
            delta_audit(ver(7), ver(6), SAFE_TO_DEPLOY),
            delta_audit(ver(6), ver(8), SAFE_TO_DEPLOY),
            delta_audit(ver(8), ver(7), SAFE_TO_DEPLOY),
            delta_audit(ver(8), ver(DEFAULT_VER), SAFE_TO_DEPLOY),
        ],
    );

    let store = Store::mock(config, audits, imports);
    let report = run_resolve(&metadata, &store, ResolveDepth::Shallow);
    expect_pass(&report);
}

#[test]
fn builtin_simple_useless_long_cycle() {
    let mock = MockMetadata::simple();

    let metadata = mock.metadata();
    let (config, mut audits, imports) = builtin_files_full_audited(&metadata);

    audits.audits.insert(
        "third-party1".to_string(),
        vec![
            full_audit(ver(2), SAFE_TO_DEPLOY),
            delta_audit(ver(2), ver(7), SAFE_TO_DEPLOY),
            delta_audit(ver(7), ver(6), SAFE_TO_DEPLOY),
            delta_audit(ver(6), ver(8), SAFE_TO_DEPLOY),
            delta_audit(ver(8), ver(7), SAFE_TO_DEPLOY),
            delta_audit(ver(7), ver(DEFAULT_VER), SAFE_TO_DEPLOY),
        ],
    );

    let store = Store::mock(config, audits, imports);
    let report = run_resolve(&metadata, &store, ResolveDepth::Shallow);
    expect_pass(&report);
}

#[test]
fn builtin_haunted_init() {
    let mock = MockMetadata::haunted_tree();

    let metadata = mock.metadata();
    let (config, audits, imports) = builtin_files_inited(&metadata);

    let store = Store::mock(config, audits, imports);
    let report = run_resolve(&metadata, &store, ResolveDepth::Shallow);
    expect_pass(&report);
}

#[test]
fn builtin_haunted_no_exemptions() {
    let mock = MockMetadata::haunted_tree();

    let metadata = mock.metadata();
    let (config, audits, imports) = builtin_files_no_exemptions(&metadata);

    let store = Store::mock(config, audits, imports);
    let report = run_resolve(&metadata, &store, ResolveDepth::Shallow);
    expect_fail(&report);
}

#[test]
fn builtin_haunted_no_exemptions_deeper() {
    let mock = MockMetadata::haunted_tree();

    let metadata = mock.metadata();
    let (config, audits, imports) = builtin_files_no_exemptions(&metadata);

    let store = Store::mock(config, audits, imports);
    let report = run_resolve(&metadata, &store, ResolveDepth::Deep);
    expect_fail(&report);
}

#[test]
fn builtin_haunted_full_audited() {
    let mock = MockMetadata::haunted_tree();

    let metadata = mock.metadata();
    let (config, audits, imports) = builtin_files_full_audited(&metadata);

    let store = Store::mock(config, audits, imports);
    let report = run_resolve(&metadata, &store, ResolveDepth::Shallow);
    expect_pass(&report);
}

#[test]
fn builtin_haunted_minimal_audited() {
    let mock = MockMetadata::haunted_tree();

    let metadata = mock.metadata();
    let (config, audits, imports) = builtin_files_minimal_audited(&metadata);

    let store = Store::mock(config, audits, imports);
    let report = run_resolve(&metadata, &store, ResolveDepth::Shallow);
    expect_pass(&report);
}

#[test]
fn builtin_simple_audit_as_default_root_no_audit() {
    let mock = MockMetadata::simple();

    let metadata = mock.metadata();
    let (mut config, audits, imports) = builtin_files_inited(&metadata);

    config
        .policy
        .insert("root-package".to_string(), audit_as_policy(Some(true)));

    let store = Store::mock(config, audits, imports);
    let report = run_resolve(&metadata, &store, ResolveDepth::Shallow);
    expect_fail(&report);
    expect_at_fault(&report, ["root-package:10"]);
}

#[test]
fn builtin_simple_audit_as_default_root() {
    let mock = MockMetadata::simple();

    let metadata = mock.metadata();
    let (mut config, audits, imports) = builtin_files_inited(&metadata);

    config
        .policy
        .insert("root-package".to_string(), audit_as_policy(Some(true)));
    config.exemptions.insert(
        "root-package".to_string(),
        vec![exemptions(ver(DEFAULT_VER), SAFE_TO_DEPLOY)],
    );

    let store = Store::mock(config, audits, imports);
    let report = run_resolve(&metadata, &store, ResolveDepth::Shallow);
    expect_pass(&report);
}

#[test]
fn builtin_simple_audit_as_default_root_too_weak() {
    let mock = MockMetadata::simple();

    let metadata = mock.metadata();
    let (mut config, audits, imports) = builtin_files_inited(&metadata);

    config
        .policy
        .insert("root-package".to_string(), audit_as_policy(Some(true)));
    config.exemptions.insert(
        "root-package".to_string(),
        vec![exemptions(ver(DEFAULT_VER), SAFE_TO_RUN)],
    );

    let store = Store::mock(config, audits, imports);
    let report = run_resolve(&metadata, &store, ResolveDepth::Shallow);
    expect_fail(&report);
    expect_at_fault(&report, ["root-package:10"]);
}

#[test]
fn builtin_simple_audit_as_weaker_root() {
    let mock = MockMetadata::simple();

    let metadata = mock.metadata();
    let (mut config, audits, imports) = builtin_files_inited(&metadata);

    config.policy.insert(
        "root-package".to_string(),
        PolicyEntry {
            criteria: Some(vec![SAFE_TO_RUN.to_string()]),
            ..audit_as_policy(Some(true))
        },
    );
    config.exemptions.insert(
        "root-package".to_string(),
        vec![exemptions(ver(DEFAULT_VER), SAFE_TO_RUN)],
    );

    let store = Store::mock(config, audits, imports);
    let report = run_resolve(&metadata, &store, ResolveDepth::Shallow);
    expect_pass(&report);
}
