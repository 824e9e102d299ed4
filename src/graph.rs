use vstd::prelude::*;

use crate::error::RankError;
use crate::package::{depends_on, unique_names, Package};

verus! {

/// Package `i` declares a dependency on package `j` of the collection.
pub open spec fn in_deps(packages: Seq<Package>, i: int, j: int) -> bool {
    depends_on(packages[i], packages[j])
}

/// Package `i` declares no dependency that the collection holds.
pub open spec fn dangling(packages: Seq<Package>, i: int) -> bool {
    forall|j: int| 0 <= j < packages.len() ==> !#[trigger] in_deps(packages, i, j)
}

/// Rank flows from `i` to `j`: along a declared dependency, or, from a
/// dangling package, to every other package.
pub open spec fn edge(packages: Seq<Package>, i: int, j: int) -> bool {
    if dangling(packages, i) {
        j != i
    } else {
        in_deps(packages, i, j)
    }
}

/// For each package position, the distinct positions its rank flows to; each
/// of them receives the same share, one over the row's length.
pub struct TransitionModel {
    pub rows: Vec<Vec<usize>>,
}

impl TransitionModel {
    pub open spec fn row(&self, i: int) -> Seq<usize> {
        self.rows@[i]@
    }

    /// One row per package, each without repeats and pointing only at
    /// positions below `n`.
    pub open spec fn wf(&self, n: nat) -> bool {
        &&& self.rows@.len() == n
        &&& forall|i: int| 0 <= i < n ==> (#[trigger] self.row(i)).no_duplicates()
        &&& forall|i: int, m: int|
            0 <= i < n && 0 <= m < self.row(i).len() ==> #[trigger] self.row(i)[m] < n
    }
}

/// `model` is the transition model of `packages`.
pub open spec fn builds(packages: Seq<Package>, model: TransitionModel) -> bool {
    &&& model.wf(packages.len())
    &&& forall|i: int, j: int|
        0 <= i < packages.len() && 0 <= j < packages.len() ==> (#[trigger] model.row(i).contains(
            j as usize,
        ) <==> edge(packages, i, j))
    &&& forall|i: int|
        0 <= i < packages.len() && dangling(packages, i) ==> #[trigger] model.row(i).len()
            == packages.len() - 1
}

/// The position of the package called `name`, the first one if several are.
pub fn find_package(packages: &[Package], name: &String) -> (r: Option<usize>)
    ensures
        match r {
            Some(j) => {
                &&& j < packages@.len()
                &&& packages@[j as int].name@ == name@
                &&& forall|k: int| 0 <= k < j ==> packages@[k].name@ != name@
            },
            None => forall|k: int| 0 <= k < packages@.len() ==> packages@[k].name@ != name@,
        },
{
    let mut j: usize = 0;
    while j < packages.len()
        invariant
            j <= packages@.len(),
            forall|k: int| 0 <= k < j ==> packages@[k].name@ != name@,
        decreases packages@.len() - j,
    {
        if packages[j].name == *name {
            return Some(j);
        }
        j += 1;
    }
    None
}

fn contains_position(v: &Vec<usize>, x: usize) -> (r: bool)
    ensures
        r == v@.contains(x),
{
    let mut m: usize = 0;
    while m < v.len()
        invariant
            m <= v@.len(),
            forall|k: int| 0 <= k < m ==> v@[k] != x,
        decreases v@.len() - m,
    {
        if v[m] == x {
            return true;
        }
        m += 1;
    }
    false
}

/// The distinct positions of the packages that package `i` declares as
/// dependencies, in order of first mention; names the collection does not
/// hold are left out.
pub fn distinct_targets(packages: &[Package], i: usize) -> (r: Vec<usize>)
    requires
        i < packages@.len(),
        unique_names(packages@),
    ensures
        r@.no_duplicates(),
        forall|m: int| 0 <= m < r@.len() ==> #[trigger] r@[m] < packages@.len(),
        forall|j: int|
            0 <= j < packages@.len() ==> (r@.contains(j as usize) <==> in_deps(
                packages@,
                i as int,
                j,
            )),
{
    let n = packages.len();
    let deps = &packages[i].deps;
    let mut r: Vec<usize> = Vec::new();
    let mut d: usize = 0;
    while d < deps.len()
        invariant
            d <= deps@.len(),
            i < packages@.len(),
            n == packages@.len(),
            deps == packages@[i as int].deps,
            unique_names(packages@),
            r@.no_duplicates(),
            forall|m: int| 0 <= m < r@.len() ==> #[trigger] r@[m] < packages@.len(),
            forall|j: int|
                0 <= j < packages@.len() ==> (#[trigger] r@.contains(j as usize) <==> exists|e: int|
                    0 <= e < d && #[trigger] deps@[e].name@ == packages@[j].name@),
        decreases deps@.len() - d,
    {
        let found = find_package(packages, &deps[d].name);
        let ghost old_r = r@;
        match found {
            Some(j0) => {
                if !contains_position(&r, j0) {
                    r.push(j0);
                    assert forall|m: int| 0 <= m < r@.len() implies #[trigger] r@[m]
                        < packages@.len() by {
                        if m < old_r.len() {
                            assert(r@[m] == old_r[m]);
                        }
                    }
                    assert forall|a: int, b: int|
                        0 <= a < r@.len() && 0 <= b < r@.len() && a != b implies r@[a]
                        != r@[b] by {
                        if a < old_r.len() {
                            assert(r@[a] == old_r[a]);
                        }
                        if b < old_r.len() {
                            assert(r@[b] == old_r[b]);
                        }
                    }
                }
                assert forall|j: int| 0 <= j < packages@.len() implies (#[trigger] r@.contains(
                    j as usize,
                ) <==> exists|e: int|
                    0 <= e < d + 1 && #[trigger] deps@[e].name@ == packages@[j].name@) by {
                    if j == j0 {
                        if r@.len() > old_r.len() {
                            assert(r@[old_r.len() as int] == j0);
                        }
                        assert(r@.contains(j0));
                        assert(deps@[d as int].name@ == packages@[j].name@);
                    } else {
                        assert(packages@[j].name@ != packages@[j0 as int].name@);
                        if old_r.contains(j as usize) {
                            let k = choose|k: int| 0 <= k < old_r.len() && old_r[k] == j as usize;
                            assert(r@[k] == old_r[k]);
                        }
                        if r@.contains(j as usize) {
                            let k = choose|k: int| 0 <= k < r@.len() && r@[k] == j as usize;
                            if r@.len() > old_r.len() {
                                assert(r@[old_r.len() as int] == j0);
                            }
                            assert(k < old_r.len());
                            assert(r@[k] == old_r[k]);
                        }
                        assert(r@.contains(j as usize) <==> old_r.contains(j as usize));
                        if exists|e: int|
                            0 <= e < d + 1 && #[trigger] deps@[e].name@ == packages@[j].name@ {
                            let e = choose|e: int|
                                0 <= e < d + 1 && #[trigger] deps@[e].name@
                                    == packages@[j].name@;
                            assert(e != d);
                        }
                    }
                }
            },
            None => {
                assert forall|j: int| 0 <= j < packages@.len() implies (#[trigger] r@.contains(
                    j as usize,
                ) <==> exists|e: int|
                    0 <= e < d + 1 && #[trigger] deps@[e].name@ == packages@[j].name@) by {
                    if exists|e: int|
                        0 <= e < d + 1 && #[trigger] deps@[e].name@ == packages@[j].name@ {
                        let e = choose|e: int|
                            0 <= e < d + 1 && #[trigger] deps@[e].name@ == packages@[j].name@;
                        assert(e != d);
                    }
                }
            },
        }
        d += 1;
    }
    r
}

/// Every position below `n` but `i`, in increasing order.
pub fn other_positions(n: usize, i: usize) -> (r: Vec<usize>)
    requires
        i < n,
    ensures
        r@.len() == n - 1,
        forall|m: int| 0 <= m < r@.len() ==> #[trigger] r@[m] == if m < i { m } else { m + 1 },
        r@.no_duplicates(),
        forall|j: int| 0 <= j < n ==> (#[trigger] r@.contains(j as usize) <==> j != i),
{
    let mut r: Vec<usize> = Vec::new();
    let mut j: usize = 0;
    while j < n
        invariant
            j <= n,
            i < n,
            r@.len() == if j <= i { j as int } else { j - 1 },
            forall|m: int| 0 <= m < r@.len() ==> #[trigger] r@[m] == if m < i { m } else { m + 1 },
        decreases n - j,
    {
        if j != i {
            r.push(j);
        }
        j += 1;
    }
    assert forall|jj: int| 0 <= jj < n implies (#[trigger] r@.contains(jj as usize) <==> jj != i) by {
        if jj < i {
            assert(r@[jj] == jj);
        } else if jj > i {
            assert(r@[jj - 1] == jj);
        }
    }
    r
}

/// The transition model of a collection of packages with distinct names.
pub fn build_model(packages: &[Package]) -> (r: Result<TransitionModel, RankError>)
    requires
        unique_names(packages@),
    ensures
        packages@.len() == 0 <==> r == Err::<TransitionModel, RankError>(RankError::EmptyGraph),
        match r {
            Ok(model) => builds(packages@, model),
            Err(_) => packages@.len() == 0,
        },
{
    let n = packages.len();
    if n == 0 {
        return Err(RankError::EmptyGraph);
    }
    let mut rows: Vec<Vec<usize>> = Vec::new();
    let mut i: usize = 0;
    while i < n
        invariant
            n == packages@.len(),
            i <= n,
            unique_names(packages@),
            rows@.len() == i,
            forall|k: int| 0 <= k < i ==> (#[trigger] rows@[k]@).no_duplicates(),
            forall|k: int, m: int|
                0 <= k < i && 0 <= m < rows@[k]@.len() ==> #[trigger] rows@[k]@[m] < n,
            forall|k: int, j: int|
                0 <= k < i && 0 <= j < n ==> (#[trigger] rows@[k]@.contains(j as usize) <==> edge(
                    packages@,
                    k,
                    j,
                )),
            forall|k: int|
                0 <= k < i && dangling(packages@, k) ==> #[trigger] rows@[k]@.len() == n - 1,
        decreases n - i,
    {
        let targets = distinct_targets(packages, i);
        let row = if targets.len() == 0 {
            assert forall|j: int| 0 <= j < n implies !#[trigger] in_deps(packages@, i as int, j) by {
                assert(!targets@.contains(j as usize));
            }
            other_positions(n, i)
        } else {
            assert(targets@.contains(targets@[0]));
            assert(in_deps(packages@, i as int, targets@[0] as int));
            targets
        };
        rows.push(row);
        i += 1;
    }
    let model = TransitionModel { rows };
    assert(model.wf(n as nat));
    Ok(model)
}

} // verus!
