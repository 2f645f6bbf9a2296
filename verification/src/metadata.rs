//! The packages of the project as the manifest parser reports them.

use vstd::prelude::*;
use vstd::string::*;
use crate::model::{EdgeKind, Version};

verus! {

/// One dependency of a package: the position of the package depended on,
/// and how it is used.
#[derive(Clone, Copy, Debug, PartialEq, Eq, Structural)]
pub struct Dependency {
    pub package: usize,
    pub kind: EdgeKind,
}

/// One package of the resolved graph.
#[derive(Debug)]
pub struct Package {
    pub name: String,
    pub version: Version,
    /// Where the package comes from; a package of the project has no source.
    pub source: Option<String>,
    pub dependencies: Vec<Dependency>,
}

/// The resolved packages and the members of the workspace.
#[derive(Debug)]
pub struct Metadata {
    pub packages: Vec<Package>,
    pub workspace_members: Vec<usize>,
}

/// Whether the source `repr` is the crates.io registry.
///
/// Calls `cargo_metadata::Source::is_crates_io`, which compares the source
/// with the address of the crates.io index.
#[verifier::external_body]
fn source_is_crates_io(repr: &String) -> (r: bool)
    ensures
        r == (repr@ == "registry+https://github.com/rust-lang/crates.io-index"@),
{
    cargo_metadata::Source { repr: repr.clone() }.is_crates_io()
}

/// What distinguishes the packages that need audits.
pub trait PackageExt {
    /// The package comes from the crates.io registry.
    spec fn third_party(&self) -> bool;

    /// Whether the package comes from the crates.io registry.
    fn is_third_party(&self) -> (r: bool)
        ensures
            r == self.third_party(),
    ;
}

impl PackageExt for Package {
    open spec fn third_party(&self) -> bool {
        match self.source {
            Some(s) => s@ == "registry+https://github.com/rust-lang/crates.io-index"@,
            None => false,
        }
    }

    fn is_third_party(&self) -> (r: bool) {
        match &self.source {
            Some(s) => source_is_crates_io(s),
            None => false,
        }
    }
}

/// The positions of the packages that come from the crates.io registry, in
/// rising order.
pub fn foreign_packages(metadata: &Metadata) -> (r: Vec<usize>)
    ensures
        forall|i: int|
            0 <= i < r.len() ==> (#[trigger] r[i]) < metadata.packages.len()
                && metadata.packages[r[i] as int].third_party(),
        forall|i: int, j: int| 0 <= i < j < r.len() ==> r[i] < r[j],
        forall|p: int|
            0 <= p < metadata.packages.len() && (#[trigger] metadata.packages[p]).third_party()
                ==> exists|i: int| 0 <= i < r.len() && r[i] == p,
{
    let mut r: Vec<usize> = Vec::new();
    let mut p: usize = 0;
    while p < metadata.packages.len()
        invariant
            p <= metadata.packages.len(),
            forall|i: int|
                0 <= i < r.len() ==> (#[trigger] r[i]) < p && metadata.packages[r[i] as int].third_party(),
            forall|i: int, j: int| 0 <= i < j < r.len() ==> r[i] < r[j],
            forall|q: int|
                0 <= q < p && (#[trigger] metadata.packages[q]).third_party() ==> exists|i: int|
                    0 <= i < r.len() && r[i] == q,
        decreases metadata.packages.len() - p,
    {
        if metadata.packages[p].is_third_party() {
            let ghost before = r@;
            r.push(p);
            proof {
                assert forall|q: int|
                    0 <= q < p + 1 && (#[trigger] metadata.packages[q]).third_party() implies exists|
                    i: int,
                | 0 <= i < r.len() && r[i] == q by {
                    if q < p {
                        let i = choose|i: int| 0 <= i < before.len() && before[i] == q;
                        assert(r[i] == q);
                    } else {
                        assert(r[r.len() - 1] == q);
                    }
                }
            }
        }
        p += 1;
    }
    r
}

} // verus!
