//! Plain-value package metadata, as the package manager reports it.
//!
//! The fields mirror the metadata document: each package carries its name,
//! an optional external-source marker (present exactly on registry
//! packages), its build targets, its manifest path and its declared
//! dependencies.

use vstd::prelude::*;

verus! {

/// The metadata of one workspace: its packages and its root paths.
#[derive(Debug)]
pub struct CargoMetadata {
    pub packages: Vec<CargoCrate>,
    pub workspace_root: String,
    pub target_directory: String,
}

/// One package of the metadata document.
#[derive(Debug)]
pub struct CargoCrate {
    pub name: String,
    pub source: Option<String>,
    pub targets: Vec<CargoTarget>,
    pub manifest_path: String,
    pub dependencies: Vec<CargoDependency>,
}

/// One build target of a package.
#[derive(Debug)]
pub struct CargoTarget {
    pub name: String,
    pub kind: Vec<String>,
    pub src_path: String,
}

/// One declared dependency of a package.
#[derive(Debug)]
pub struct CargoDependency {
    pub name: String,
    pub source: Option<String>,
}

/// The packages that belong to the workspace itself: those without an
/// external-source marker, in metadata order.
pub fn get_workspace_crates<'a>(metadata: &'a CargoMetadata) -> (r: Vec<&'a CargoCrate>)
    ensures
        r@.map_values(|p: &CargoCrate| *p) == metadata.packages@.filter(
            |p: CargoCrate| p.source is None,
        ),
{
    let ghost pred = |p: CargoCrate| p.source is None;
    let mut r: Vec<&CargoCrate> = Vec::new();
    let mut i: usize = 0;
    proof {
        reveal(Seq::filter);
        assert(metadata.packages@.take(0) =~= Seq::<CargoCrate>::empty());
        assert(r@.map_values(|p: &CargoCrate| *p) =~= Seq::<CargoCrate>::empty().filter(pred));
    }
    while i < metadata.packages.len()
        invariant
            0 <= i <= metadata.packages@.len(),
            r@.map_values(|p: &CargoCrate| *p) == metadata.packages@.take(i as int).filter(pred),
            pred == (|p: CargoCrate| p.source is None),
        decreases metadata.packages@.len() - i,
    {
        let ghost taken = metadata.packages@.take(i as int);
        let ghost taken1 = metadata.packages@.take(i + 1);
        proof {
            reveal(Seq::filter);
            assert(taken1.drop_last() =~= taken);
            assert(taken1.last() == metadata.packages@[i as int]);
        }
        let pkg = &metadata.packages[i];
        if pkg.source.is_none() {
            let ghost before = r@;
            r.push(pkg);
            proof {
                assert(r@.map_values(|p: &CargoCrate| *p) =~= before.map_values(
                    |p: &CargoCrate| *p,
                ).push(metadata.packages@[i as int]));
                assert(taken1.filter(pred) == taken.filter(pred).push(taken1.last()));
            }
        } else {
            proof {
                reveal(Seq::filter);
                assert(taken1.filter(pred) == taken.filter(pred));
            }
        }
        i += 1;
    }
    proof {
        assert(metadata.packages@.take(metadata.packages@.len() as int) =~= metadata.packages@);
    }
    r
}

} // verus!
