use vstd::prelude::*;

verus! {

/// serde_json::Value, carried unread as a package's feature table so that a
/// record keeps every field it was loaded with.
#[verifier::external_type_specification]
#[verifier::external_body]
pub struct ExJsonValue(serde_json::Value);

/// One dependency as a package's index entry declares it. Only `name` takes
/// part in ranking; the rest is kept as it was loaded.
pub struct Dep {
    pub name: String,
    pub req: String,
    pub features: Vec<String>,
    pub optional: bool,
    pub default_features: bool,
    pub target: Option<String>,
    pub kind: Option<String>,
}

/// The latest known version of one package.
pub struct Package {
    pub name: String,
    pub vers: String,
    pub deps: Vec<Dep>,
    pub cksum: String,
    pub features: serde_json::Value,
    pub yanked: bool,
}

/// No two packages of the collection share a name.
pub open spec fn unique_names(packages: Seq<Package>) -> bool {
    forall|a: int, b: int|
        0 <= a < packages.len() && 0 <= b < packages.len() && a != b
            ==> #[trigger] packages[a].name@ != #[trigger] packages[b].name@
}

/// `p` declares a dependency named as `q` is.
pub open spec fn depends_on(p: Package, q: Package) -> bool {
    exists|d: int| 0 <= d < p.deps@.len() && #[trigger] p.deps@[d].name@ == q.name@
}

} // verus!
