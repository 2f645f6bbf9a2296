use std::collections::BTreeMap;

use cargo_vet::commands::init_files;
use cargo_vet::files::{
    load_audits, load_config, load_imports, AuditEntry, AuditKind, AuditedPackage, AuditsFile,
    ConfigFile, ExemptedPackage, ExemptionEntry, ImportedAudits, ImportsFile, NamedCriteria,
    PolicyFileEntry,
};
use cargo_vet::lower::{build_graph, build_policy, build_store};
use cargo_vet::metadata::{Dependency, Metadata, Package};
use cargo_vet::model::{EdgeKind, Version};
use cargo_vet::commands::kept_exemptions;
use cargo_vet::resolver::store_criteria_rows;
use cargo_vet::satisfy::Problem;
use cargo_vet::universe::{CriteriaEntry, CriteriaTable};

const DEFAULT_VER: u64 = 10;
const DEFAULT_CRIT: &str = "reviewed";
const SAFE_TO_DEPLOY: &str = "safe-to-deploy";
const SAFE_TO_RUN: &str = "safe-to-run";
const CRATES_IO: &str = "registry+https://github.com/rust-lang/crates.io-index";

type SortedMap<K, V> = BTreeMap<K, V>;

fn ver(major: u64) -> Version {
    Version::new(major, 0, 0)
}

#[derive(Clone)]
struct MockDependency {
    name: &'static str,
    version: Version,
}

fn dep(name: &'static str) -> MockDependency {
    dep_ver(name, DEFAULT_VER)
}

fn dep_ver(name: &'static str, version: u64) -> MockDependency {
    MockDependency { name, version: ver(version) }
}

#[derive(Clone)]
struct MockPackage {
    name: &'static str,
    version: Version,
    deps: Vec<MockDependency>,
    dev_deps: Vec<MockDependency>,
    build_deps: Vec<MockDependency>,
    is_workspace: bool,
    is_first_party: bool,
}

impl Default for MockPackage {
    fn default() -> Self {
        MockPackage {
            name: "",
            version: ver(DEFAULT_VER),
            deps: vec![],
            dev_deps: vec![],
            build_deps: vec![],
            is_workspace: false,
            is_first_party: false,
        }
    }
}

struct MockMetadata {
    packages: Vec<MockPackage>,
}

fn first(name: &'static str, workspace: bool, deps: Vec<MockDependency>) -> MockPackage {
    MockPackage { name, is_workspace: workspace, is_first_party: true, deps, ..Default::default() }
}

fn third(name: &'static str, deps: Vec<MockDependency>) -> MockPackage {
    MockPackage { name, deps, ..Default::default() }
}

impl MockMetadata {
    fn new(packages: Vec<MockPackage>) -> Self {
        MockMetadata { packages }
    }

    /// root-package -> first-party -> {third-party1 -> transitive-third-party1, third-party2}
    fn simple() -> Self {
        MockMetadata::new(vec![
            first("root-package", true, vec![dep("first-party")]),
            first("first-party", false, vec![dep("third-party1"), dep("third-party2")]),
            third("third-party1", vec![dep("transitive-third-party1")]),
            third("third-party2", vec![]),
            third("transitive-third-party1", vec![]),
        ])
    }

    /// Two roots that share a first-party package, and a third-party package
    /// that is in the tree at two versions.
    fn complex() -> Self {
        MockMetadata::new(vec![
            first("rootA", true, vec![dep("firstA"), dep("firstAB")]),
            first("rootB", true, vec![dep("firstB"), dep("firstAB"), dep("firstB-nodeps")]),
            first("firstA", false, vec![dep("thirdA"), dep_ver("third-core", 5)]),
            first("firstAB", false, vec![dep("thirdAB")]),
            first("firstB", false, vec![dep("thirdB")]),
            first("firstB-nodeps", false, vec![]),
            third("thirdA", vec![dep("third-core")]),
            third("thirdAB", vec![dep("third-core")]),
            third("thirdB", vec![dep("third-core")]),
            third("third-core", vec![]),
            MockPackage { name: "third-core", version: ver(5), ..Default::default() },
        ])
    }

    /// One root with a dependency of every kind.
    fn simple_deps() -> Self {
        MockMetadata::new(vec![
            MockPackage {
                name: "root-package",
                is_workspace: true,
                is_first_party: true,
                deps: vec![dep("normal"), dep("proc-macro")],
                dev_deps: vec![dep("dev"), dep("dev-proc-macro")],
                build_deps: vec![dep("build"), dep("build-proc-macro")],
                ..Default::default()
            },
            third("normal", vec![]),
            third("dev", vec![]),
            third("build", vec![]),
            third("proc-macro", vec![]),
            third("dev-proc-macro", vec![]),
            third("build-proc-macro", vec![]),
        ])
    }

    /// A dev dependency that depends on the root again.
    fn cycle() -> Self {
        MockMetadata::new(vec![
            MockPackage {
                name: "root",
                is_workspace: true,
                is_first_party: true,
                deps: vec![dep("normal")],
                dev_deps: vec![dep("dev-cycle")],
                ..Default::default()
            },
            third("normal", vec![]),
            third("dev-cycle", vec![dep("root")]),
        ])
    }

    /// Packages that are needed at run time, for development only, or both.
    fn dev_detection() -> Self {
        MockMetadata::new(vec![
            MockPackage {
                name: "root-package",
                is_workspace: true,
                is_first_party: true,
                deps: vec![dep("normal"), dep("both")],
                dev_deps: vec![dep("simple-dev"), dep("both"), dep("dev-cycle-direct")],
                ..Default::default()
            },
            third("normal", vec![]),
            third("both", vec![]),
            third("simple-dev", vec![dep("simple-dev-indirect")]),
            third("simple-dev-indirect", vec![]),
            third("dev-cycle-direct", vec![dep("dev-cycle-indirect")]),
            third("dev-cycle-indirect", vec![dep("root-package")]),
        ])
    }

    /// First-party packages below third-party packages.
    fn haunted_tree() -> Self {
        MockMetadata::new(vec![
            MockPackage {
                name: "root",
                is_workspace: true,
                is_first_party: true,
                deps: vec![dep("first"), dep("third-normal")],
                dev_deps: vec![dep("third-dev")],
                ..Default::default()
            },
            first("first", false, vec![dep("third-normal")]),
            third("third-normal", vec![dep("first-deep")]),
            third("third-dev", vec![dep("first-deep"), dep("third-deep")]),
            first("first-deep", false, vec![dep("third-deep")]),
            third("third-deep", vec![]),
        ])
    }

    fn index_of(&self, dep: &MockDependency) -> usize {
        self.packages
            .iter()
            .position(|p| p.name == dep.name && p.version == dep.version)
            .unwrap()
    }

    fn metadata(&self) -> Metadata {
        let mut packages = Vec::new();
        let mut workspace_members = Vec::new();
        for (i, p) in self.packages.iter().enumerate() {
            let mut dependencies = Vec::new();
            for d in &p.deps {
                dependencies.push(Dependency { package: self.index_of(d), kind: EdgeKind::Normal });
            }
            for d in &p.build_deps {
                dependencies.push(Dependency { package: self.index_of(d), kind: EdgeKind::Build });
            }
            for d in &p.dev_deps {
                dependencies.push(Dependency { package: self.index_of(d), kind: EdgeKind::Dev });
            }
            packages.push(Package {
                name: p.name.to_string(),
                version: p.version.clone(),
                source: if p.is_first_party { None } else { Some(CRATES_IO.to_string()) },
                dependencies,
            });
            if p.is_workspace {
                workspace_members.push(i);
            }
        }
        Metadata { packages, workspace_members }
    }
}

// The files of the store, with packages by name.

#[derive(Clone)]
struct MockAudit {
    kind: AuditKind,
    criteria: Vec<String>,
    dependency_criteria: Vec<(String, Vec<String>)>,
}

#[derive(Clone)]
struct MockExemption {
    version: Version,
    criteria: Vec<String>,
    dependency_criteria: Vec<(String, Vec<String>)>,
    suggest: bool,
}

#[derive(Clone, Default)]
struct PolicyEntry {
    audit_as_crates_io: Option<bool>,
    criteria: Option<Vec<String>>,
    dependency_criteria: Vec<(String, Vec<String>)>,
}

#[derive(Clone, Default)]
struct MockAudits {
    criteria: SortedMap<String, Vec<String>>,
    audits: SortedMap<String, Vec<MockAudit>>,
}

#[derive(Clone)]
struct MockConfig {
    default_criteria: String,
    unaudited: SortedMap<String, Vec<MockExemption>>,
    policy: SortedMap<String, PolicyEntry>,
}

#[derive(Clone, Default)]
struct MockImports {
    audits: SortedMap<String, MockAudits>,
}

struct Store {
    config: MockConfig,
    audits: MockAudits,
    imports: MockImports,
}

impl Store {
    fn mock(config: MockConfig, audits: MockAudits, imports: MockImports) -> Store {
        Store { config, audits, imports }
    }
}

fn names<const N: usize>(list: [&str; N]) -> Vec<String> {
    list.iter().map(|s| s.to_string()).collect()
}

fn dep_list<const N: usize, const M: usize>(deps: [(&str, [&str; M]); N]) -> Vec<(String, Vec<String>)> {
    deps.iter().map(|(name, list)| (name.to_string(), names(*list))).collect()
}

fn full_audit(version: Version, criteria: &str) -> MockAudit {
    MockAudit {
        kind: AuditKind::Full { version },
        criteria: vec![criteria.to_string()],
        dependency_criteria: vec![],
    }
}

fn full_audit_dep<const N: usize, const M: usize>(
    version: Version,
    criteria: &str,
    deps: [(&str, [&str; M]); N],
) -> MockAudit {
    MockAudit { dependency_criteria: dep_list(deps), ..full_audit(version, criteria) }
}

fn delta_audit(from: Version, to: Version, criteria: &str) -> MockAudit {
    MockAudit {
        kind: AuditKind::Delta { from, to },
        criteria: vec![criteria.to_string()],
        dependency_criteria: vec![],
    }
}

fn delta_audit_dep<const N: usize, const M: usize>(
    from: Version,
    to: Version,
    criteria: &str,
    deps: [(&str, [&str; M]); N],
) -> MockAudit {
    MockAudit { dependency_criteria: dep_list(deps), ..delta_audit(from, to, criteria) }
}

fn unaudited(version: Version, criteria: &str) -> MockExemption {
    MockExemption {
        version,
        criteria: vec![criteria.to_string()],
        dependency_criteria: vec![],
        suggest: true,
    }
}

fn unaudited_dep<const N: usize, const M: usize>(
    version: Version,
    criteria: &str,
    deps: [(&str, [&str; M]); N],
) -> MockExemption {
    MockExemption { dependency_criteria: dep_list(deps), ..unaudited(version, criteria) }
}

fn self_policy<const N: usize>(criteria: [&str; N]) -> PolicyEntry {
    PolicyEntry { criteria: Some(names(criteria)), ..Default::default() }
}

fn dep_policy<const N: usize, const M: usize>(deps: [(&str, [&str; M]); N]) -> PolicyEntry {
    PolicyEntry { dependency_criteria: dep_list(deps), ..Default::default() }
}

fn audit_as_policy(audit_as_crates_io: Option<bool>) -> PolicyEntry {
    PolicyEntry { audit_as_crates_io, ..Default::default() }
}

fn is_foreign(package: &Package) -> bool {
    package.source.is_some()
}

/// The files of a fresh store, as the library makes them.
fn builtin_files_inited(metadata: &Metadata) -> (MockConfig, MockAudits, MockImports) {
    let (config, audits, imports) = init_files(metadata);
    assert!(audits.criteria.is_empty() && audits.audits.is_empty());
    assert!(imports.audits.is_empty());
    assert!(config.policy.is_empty() && config.imports.is_empty());
    let mut exemptions = SortedMap::new();
    for package in config.exemptions {
        let list = package
            .exemptions
            .into_iter()
            .map(|e| MockExemption {
                version: e.version.clone(),
                criteria: e.criteria,
                dependency_criteria: vec![],
                suggest: e.suggest,
            })
            .collect();
        exemptions.insert(package.name, list);
    }
    let config = MockConfig {
        default_criteria: config.default_criteria,
        unaudited: exemptions,
        policy: SortedMap::new(),
    };
    (config, MockAudits::default(), MockImports::default())
}

fn builtin_files_no_exemptions(metadata: &Metadata) -> (MockConfig, MockAudits, MockImports) {
    let (mut config, audits, imports) = builtin_files_inited(metadata);
    config.unaudited.clear();
    (config, audits, imports)
}

fn builtin_files_full_audited(metadata: &Metadata) -> (MockConfig, MockAudits, MockImports) {
    let (config, mut audits, imports) = builtin_files_no_exemptions(metadata);
    for package in metadata.packages.iter().filter(|p| is_foreign(p)) {
        audits
            .audits
            .entry(package.name.clone())
            .or_insert_with(Vec::new)
            .push(full_audit(package.version.clone(), SAFE_TO_DEPLOY));
    }
    (config, audits, imports)
}

/// Every package audited for no more than it is needed for.
fn builtin_files_minimal_audited(metadata: &Metadata) -> (MockConfig, MockAudits, MockImports) {
    let (config, mut audits, imports) = builtin_files_no_exemptions(metadata);
    let graph = build_graph(metadata);
    let contexts = cargo_vet::context::dependency_contexts(&graph);
    for (i, package) in metadata.packages.iter().enumerate() {
        if !is_foreign(package) {
            continue;
        }
        let criteria = if contexts[i].needed_for_dev_only { SAFE_TO_RUN } else { SAFE_TO_DEPLOY };
        audits
            .audits
            .entry(package.name.clone())
            .or_insert_with(Vec::new)
            .push(full_audit(package.version.clone(), criteria));
    }
    (config, audits, imports)
}

/// A fresh store over a universe of criteria of its own:
/// strong-reviewed implies reviewed implies weak-reviewed; fuzzed stands alone.
fn files_inited(metadata: &Metadata) -> (MockConfig, MockAudits, MockImports) {
    let (mut config, mut audits, imports) = builtin_files_inited(metadata);
    audits.criteria.insert("strong-reviewed".to_string(), names(["reviewed"]));
    audits.criteria.insert("reviewed".to_string(), names(["weak-reviewed"]));
    audits.criteria.insert("weak-reviewed".to_string(), vec![]);
    audits.criteria.insert("fuzzed".to_string(), vec![]);
    for &member in &metadata.workspace_members {
        config
            .policy
            .insert(metadata.packages[member].name.clone(), self_policy([DEFAULT_CRIT]));
    }
    config.default_criteria = DEFAULT_CRIT.to_string();
    for list in config.unaudited.values_mut() {
        for entry in list {
            entry.criteria = vec![DEFAULT_CRIT.to_string()];
        }
    }
    (config, audits, imports)
}

fn files_no_exemptions(metadata: &Metadata) -> (MockConfig, MockAudits, MockImports) {
    let (mut config, audits, imports) = files_inited(metadata);
    config.unaudited.clear();
    (config, audits, imports)
}

fn files_full_audited(metadata: &Metadata) -> (MockConfig, MockAudits, MockImports) {
    let (config, mut audits, imports) = files_no_exemptions(metadata);
    for package in metadata.packages.iter().filter(|p| is_foreign(p)) {
        audits
            .audits
            .entry(package.name.clone())
            .or_insert_with(Vec::new)
            .push(full_audit(package.version.clone(), DEFAULT_CRIT));
    }
    (config, audits, imports)
}

fn named(list: &[(String, Vec<String>)]) -> Vec<NamedCriteria> {
    list.iter()
        .map(|(name, criteria)| NamedCriteria { name: name.clone(), criteria: criteria.clone() })
        .collect()
}

fn audits_file(audits: &MockAudits) -> AuditsFile {
    AuditsFile {
        criteria: audits
            .criteria
            .iter()
            .map(|(name, implies)| CriteriaEntry {
                name: name.clone(),
                implies: implies.clone(),
                description: String::new(),
            })
            .collect(),
        audits: audits
            .audits
            .iter()
            .map(|(name, list)| AuditedPackage {
                name: name.clone(),
                audits: list
                    .iter()
                    .map(|a| AuditEntry {
                        kind: a.kind.clone(),
                        criteria: a.criteria.clone(),
                        who: None,
                        notes: None,
                        dependency_criteria: named(&a.dependency_criteria),
                    })
                    .collect(),
            })
            .collect(),
    }
}

fn config_file(config: &MockConfig) -> ConfigFile {
    ConfigFile {
        default_criteria: config.default_criteria.clone(),
        imports: vec![],
        exemptions: config
            .unaudited
            .iter()
            .map(|(name, list)| ExemptedPackage {
                name: name.clone(),
                exemptions: list
                    .iter()
                    .map(|e| ExemptionEntry {
                        version: e.version.clone(),
                        criteria: e.criteria.clone(),
                        dependency_criteria: named(&e.dependency_criteria),
                        suggest: e.suggest,
                        notes: None,
                    })
                    .collect(),
            })
            .collect(),
        policy: config
            .policy
            .iter()
            .map(|(name, p)| PolicyFileEntry {
                name: name.clone(),
                criteria: p.criteria.clone(),
                dependency_criteria: named(&p.dependency_criteria),
                audit_as_third_party: p.audit_as_crates_io,
            })
            .collect(),
    }
}

fn imports_file(imports: &MockImports) -> ImportsFile {
    ImportsFile {
        audits: imports
            .audits
            .iter()
            .map(|(name, file)| ImportedAudits { name: name.clone(), file: audits_file(file) })
            .collect(),
    }
}

/// Everything that a resolution works on, loaded from the files.
struct Loaded {
    table: CriteriaTable,
    graph: cargo_vet::model::DepGraph,
    store: cargo_vet::model::Store,
    policy: cargo_vet::model::Policy,
}

fn load(metadata: &Metadata, store: &Store) -> Loaded {
    let audits = load_audits(audits_file(&store.audits)).unwrap();
    let table = CriteriaTable::load(&audits.criteria).unwrap();
    let config = load_config(config_file(&store.config), &table).unwrap();
    let imports = load_imports(imports_file(&store.imports)).unwrap();
    let lowered = build_store(&table, &audits, &config, &imports).unwrap();
    let policy = build_policy(&table, &config).unwrap();
    let graph = build_graph(metadata);
    Loaded { table, graph, store: lowered, policy }
}

/// The exemptions that are left once the store is minimized: package,
/// version, and the criteria that imply all that the exemption still counts
/// for.
fn minimize_unaudited(metadata: &Metadata, store: &Store) -> Vec<(String, Version, Vec<String>)> {
    let loaded = load(metadata, store);
    let problem = Problem {
        table: &loaded.table,
        graph: &loaded.graph,
        store: &loaded.store,
        policy: &loaded.policy,
    };
    let crit = store_criteria_rows(&loaded.store);
    let assumed = cargo_vet::resolver::nothing_assumed_row(loaded.graph.nodes.len());
    assert!(problem.resolve_with(&crit, &assumed).passes());
    let kept = problem.minimize_exemptions(&crit, &assumed);
    assert!(problem.resolve_with(&kept, &assumed).passes());
    let mut out = Vec::new();
    for k in kept_exemptions(&loaded.store, &kept) {
        let members = k.criteria.members();
        let names = members
            .iter()
            .filter(|&&c| !members.iter().any(|&d| d != c && loaded.table.implies_id(d, c)))
            .map(|&c| loaded.table.names[c].clone())
            .collect();
        let package = &loaded.store.packages[k.package];
        out.push((package.name.clone(), package.edges[k.edge].to.clone(), names));
    }
    out.sort_by(|a, b| (&a.0, a.1.major, &a.2).cmp(&(&b.0, b.1.major, &b.2)));
    out
}

fn left(name: &str, version: u64, criteria: &str) -> (String, Version, Vec<String>) {
    (name.to_string(), ver(version), vec![criteria.to_string()])
}

#[test]
fn builtin_simple_unaudited_not_a_real_dep_regenerate() {
    let mock = MockMetadata::simple();

    let metadata = mock.metadata();
    let (mut config, audits, imports) = builtin_files_full_audited(&metadata);

    config.unaudited.insert(
        "fake-dep".to_string(),
        vec![unaudited(ver(DEFAULT_VER), SAFE_TO_DEPLOY)],
    );

    let store = Store::mock(config, audits, imports);
    let unaudited = minimize_unaudited(&metadata, &store);
    let expected: Vec<(String, Version, Vec<String>)> = vec![];
    assert_eq!(unaudited, expected);
}

#[test]
fn builtin_simple_deps_unaudited_overbroad_regenerate() {
    let mock = MockMetadata::simple_deps();

    let metadata = mock.metadata();
    let (mut config, mut audits, imports) = builtin_files_full_audited(&metadata);

    audits.audits.insert("dev".to_string(), vec![]);

    config.unaudited.insert(
        "dev".to_string(),
        vec![unaudited(ver(DEFAULT_VER), SAFE_TO_DEPLOY)],
    );

    let store = Store::mock(config, audits, imports);
    let unaudited = minimize_unaudited(&metadata, &store);
    let expected: Vec<(String, Version, Vec<String>)> = vec![left("dev", DEFAULT_VER, SAFE_TO_RUN)];
    assert_eq!(unaudited, expected);
}

#[test]
fn builtin_complex_unaudited_twins_regenerate() {
    let mock = MockMetadata::complex();

    let metadata = mock.metadata();
    let (mut config, mut audits, imports) = builtin_files_full_audited(&metadata);

    audits.audits.insert("third-core".to_string(), vec![]);

    config.unaudited.insert(
        "third-core".to_string(),
        vec![
            unaudited(ver(DEFAULT_VER), SAFE_TO_DEPLOY),
            unaudited(ver(5), SAFE_TO_DEPLOY),
        ],
    );

    let store = Store::mock(config, audits, imports);
    let unaudited = minimize_unaudited(&metadata, &store);
    let expected: Vec<(String, Version, Vec<String>)> = vec![left("third-core", 5, SAFE_TO_DEPLOY), left("third-core", DEFAULT_VER, SAFE_TO_DEPLOY)];
    assert_eq!(unaudited, expected);
}

#[test]
fn builtin_complex_unaudited_partial_twins_regenerate() {
    let mock = MockMetadata::complex();

    let metadata = mock.metadata();
    let (mut config, mut audits, imports) = builtin_files_full_audited(&metadata);

    audits.audits.insert(
        "third-core".to_string(),
        vec![full_audit(ver(5), SAFE_TO_DEPLOY)],
    );

    config.unaudited.insert(
        "third-core".to_string(),
        vec![unaudited(ver(DEFAULT_VER), SAFE_TO_DEPLOY)],
    );

    let store = Store::mock(config, audits, imports);
    let unaudited = minimize_unaudited(&metadata, &store);
    let expected: Vec<(String, Version, Vec<String>)> = vec![left("third-core", DEFAULT_VER, SAFE_TO_DEPLOY)];
    assert_eq!(unaudited, expected);
}

#[test]
fn builtin_simple_unaudited_in_delta_regenerate() {
    let mock = MockMetadata::simple();

    let metadata = mock.metadata();
    let (mut config, mut audits, imports) = builtin_files_full_audited(&metadata);

    audits.audits.insert(
        "third-party1".to_string(),
        vec![
            full_audit(ver(3), SAFE_TO_DEPLOY),
            delta_audit(ver(3), ver(5), SAFE_TO_DEPLOY),
            delta_audit(ver(5), ver(DEFAULT_VER), SAFE_TO_DEPLOY),
        ],
    );

    config.unaudited.insert(
        "third-party1".to_string(),
        vec![unaudited(ver(5), SAFE_TO_DEPLOY)],
    );

    let store = Store::mock(config, audits, imports);
    let unaudited = minimize_unaudited(&metadata, &store);
    let expected: Vec<(String, Version, Vec<String>)> = vec![];
    assert_eq!(unaudited, expected);
}

#[test]
fn builtin_simple_unaudited_in_full_regenerate() {
    let mock = MockMetadata::simple();

    let metadata = mock.metadata();
    let (mut config, mut audits, imports) = builtin_files_full_audited(&metadata);

    audits.audits.insert(
        "third-party1".to_string(),
        vec![
            full_audit(ver(3), SAFE_TO_DEPLOY),
            delta_audit(ver(3), ver(5), SAFE_TO_DEPLOY),
            delta_audit(ver(5), ver(DEFAULT_VER), SAFE_TO_DEPLOY),
        ],
    );

    config.unaudited.insert(
        "third-party1".to_string(),
        vec![unaudited(ver(3), SAFE_TO_DEPLOY)],
    );

    let store = Store::mock(config, audits, imports);
    let unaudited = minimize_unaudited(&metadata, &store);
    let expected: Vec<(String, Version, Vec<String>)> = vec![];
    assert_eq!(unaudited, expected);
}

#[test]
fn builtin_simple_deps_unaudited_adds_uneeded_criteria_regenerate() {
    let mock = MockMetadata::simple_deps();

    let metadata = mock.metadata();
    let (mut config, mut audits, imports) = builtin_files_full_audited(&metadata);

    audits.audits.insert(
        "dev".to_string(),
        vec![
            full_audit(ver(5), SAFE_TO_RUN),
            delta_audit(ver(5), ver(DEFAULT_VER), SAFE_TO_DEPLOY),
        ],
    );

    config
        .unaudited
        .insert("dev".to_string(), vec![unaudited(ver(5), SAFE_TO_DEPLOY)]);

    let store = Store::mock(config, audits, imports);
    let unaudited = minimize_unaudited(&metadata, &store);
    let expected: Vec<(String, Version, Vec<String>)> = vec![];
    assert_eq!(unaudited, expected);
}

#[test]
fn builtin_dev_detection_unaudited_adds_uneeded_criteria_indirect_regenerate() {
    let mock = MockMetadata::dev_detection();

    let metadata = mock.metadata();
    let (mut config, mut audits, imports) = builtin_files_minimal_audited(&metadata);

    audits.audits.insert(
        "simple-dev-indirect".to_string(),
        vec![
            full_audit(ver(5), SAFE_TO_RUN),
            delta_audit(ver(5), ver(DEFAULT_VER), SAFE_TO_RUN),
            delta_audit(ver(5), ver(DEFAULT_VER), SAFE_TO_DEPLOY),
        ],
    );

    config.unaudited.insert(
        "simple-dev-indirect".to_string(),
        vec![unaudited(ver(5), SAFE_TO_DEPLOY)],
    );

    let store = Store::mock(config, audits, imports);
    let unaudited = minimize_unaudited(&metadata, &store);
    let expected: Vec<(String, Version, Vec<String>)> = vec![];
    assert_eq!(unaudited, expected);
}

#[test]
fn builtin_simple_unaudited_extra_regenerate() {
    let mock = MockMetadata::simple();

    let metadata = mock.metadata();
    let (mut config, mut audits, imports) = builtin_files_full_audited(&metadata);

    audits.audits.insert("third-party1".to_string(), vec![]);

    config.unaudited.insert(
        "third-party1".to_string(),
        vec![
            unaudited(ver(5), SAFE_TO_DEPLOY),
            unaudited(ver(DEFAULT_VER), SAFE_TO_DEPLOY),
        ],
    );

    let store = Store::mock(config, audits, imports);
    let unaudited = minimize_unaudited(&metadata, &store);
    let expected: Vec<(String, Version, Vec<String>)> = vec![left("third-party1", DEFAULT_VER, SAFE_TO_DEPLOY)];
    assert_eq!(unaudited, expected);
}

#[test]
fn builtin_simple_unaudited_in_direct_full_regenerate() {
    let mock = MockMetadata::simple();

    let metadata = mock.metadata();
    let (mut config, mut audits, imports) = builtin_files_full_audited(&metadata);

    audits.audits.insert(
        "third-party1".to_string(),
        vec![full_audit(ver(DEFAULT_VER), SAFE_TO_DEPLOY)],
    );

    config.unaudited.insert(
        "third-party1".to_string(),
        vec![unaudited(ver(DEFAULT_VER), SAFE_TO_DEPLOY)],
    );

    let store = Store::mock(config, audits, imports);
    let unaudited = minimize_unaudited(&metadata, &store);
    let expected: Vec<(String, Version, Vec<String>)> = vec![];
    assert_eq!(unaudited, expected);
}

#[test]
fn builtin_simple_unaudited_nested_weaker_req_regenerate() {
    let mock = MockMetadata::simple();

    let metadata = mock.metadata();
    let (mut config, mut audits, imports) = builtin_files_full_audited(&metadata);

    audits.audits.insert(
        "third-party1".to_string(),
        vec![
            delta_audit_dep(
                ver(3),
                ver(6),
                SAFE_TO_DEPLOY,
                [("transitive-third-party1", [SAFE_TO_RUN])],
            ),
            delta_audit_dep(
                ver(6),
                ver(DEFAULT_VER),
                SAFE_TO_DEPLOY,
                [("transitive-third-party1", [SAFE_TO_RUN])],
            ),
        ],
    );
    audits.audits.insert(
        "transitive-third-party1".to_string(),
        vec![
            delta_audit(ver(4), ver(8), SAFE_TO_RUN),
            delta_audit(ver(8), ver(DEFAULT_VER), SAFE_TO_RUN),
        ],
    );

    config.unaudited.insert(
        "third-party1".to_string(),
        vec![unaudited_dep(
            ver(3),
            SAFE_TO_DEPLOY,
            [("transitive-third-party1", [SAFE_TO_RUN])],
        )],
    );

    config.unaudited.insert(
        "transitive-third-party1".to_string(),
        vec![unaudited(ver(4), SAFE_TO_RUN)],
    );

    let store = Store::mock(config, audits, imports);
    let unaudited = minimize_unaudited(&metadata, &store);
    let expected: Vec<(String, Version, Vec<String>)> = vec![left("third-party1", 3, SAFE_TO_DEPLOY), left("transitive-third-party1", 4, SAFE_TO_RUN)];
    assert_eq!(unaudited, expected);
}

#[test]
fn builtin_simple_unaudited_nested_stronger_req_regenerate() {
    let mock = MockMetadata::simple();

    let metadata = mock.metadata();
    let (mut config, mut audits, imports) = builtin_files_full_audited(&metadata);

    config.policy.insert(
        "first-party".to_string(),
        dep_policy([("third-party1", [SAFE_TO_RUN])]),
    );

    audits.audits.insert(
        "third-party1".to_string(),
        vec![
            delta_audit_dep(
                ver(3),
                ver(6),
                SAFE_TO_RUN,
                [("transitive-third-party1", [SAFE_TO_DEPLOY])],
            ),
            delta_audit_dep(
                ver(6),
                ver(DEFAULT_VER),
                SAFE_TO_RUN,
                [("transitive-third-party1", [SAFE_TO_DEPLOY])],
            ),
        ],
    );
    audits.audits.insert(
        "transitive-third-party1".to_string(),
        vec![
            delta_audit(ver(4), ver(8), SAFE_TO_DEPLOY),
            delta_audit(ver(8), ver(DEFAULT_VER), SAFE_TO_DEPLOY),
        ],
    );

    config.unaudited.insert(
        "third-party1".to_string(),
        vec![unaudited(ver(3), SAFE_TO_RUN)],
    );

    config.unaudited.insert(
        "transitive-third-party1".to_string(),
        vec![unaudited(ver(4), SAFE_TO_DEPLOY)],
    );

    let store = Store::mock(config, audits, imports);
    let unaudited = minimize_unaudited(&metadata, &store);
    let expected: Vec<(String, Version, Vec<String>)> = vec![left("third-party1", 3, SAFE_TO_RUN), left("transitive-third-party1", 4, SAFE_TO_DEPLOY)];
    assert_eq!(unaudited, expected);
}
