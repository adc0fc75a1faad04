//! The resolved dependency graph: packages, typed dependency edges, and the
//! graph-level facts the requirement propagator rests on.
//!
//! A package is in use when a first-party root reaches it. The graph is
//! acyclic by the package manager's guarantee, but the resolver checks that
//! rather than assuming it; the per-package reachable-set sizes computed here
//! also give the topological processing order for propagation.

use vstd::prelude::*;
use crate::reach::{
    adj_represents, count_true, count_true_vec, has_cycle, lemma_count_true_strict,
    lemma_cycle_iff, lemma_reach_refl, lemma_reach_step, lemma_reach_trans, reachable_set,
    reaches, reaches_from,
};
use crate::version::Version;

verus! {

/// The kind of one dependency edge.
#[derive(Clone, Copy, PartialEq, Eq, Structural, Debug)]
pub enum DepKind {
    Normal,
    Build,
    Dev,
}

/// One resolved package. Its index in the package list is its identity; two
/// packages may share a name and a version when they come from different
/// origins.
pub struct Package {
    pub name: usize,
    pub version: Version,
    pub is_first_party: bool,
    pub is_root: bool,
}

/// One dependency edge between package indices.
pub struct DepEdge {
    pub from: usize,
    pub to: usize,
    pub kind: DepKind,
}

/// The resolved dependency graph.
pub struct DepGraph {
    pub packages: Vec<Package>,
    pub edges: Vec<DepEdge>,
}

/// Every edge endpoint names a package.
pub open spec fn graph_wf(g: DepGraph) -> bool {
    forall|k: int| 0 <= k < g.edges@.len() ==>
        (#[trigger] g.edges@[k].from as int) < g.packages@.len()
            && (g.edges@[k].to as int) < g.packages@.len()
}

/// The dependency relation between package indices.
pub open spec fn dep_rel(g: DepGraph) -> spec_fn(int, int) -> bool {
    |a: int, b: int|
        0 <= a < g.packages@.len() && 0 <= b < g.packages@.len()
            && exists|k: int|
                0 <= k < g.edges@.len() && (#[trigger] g.edges@[k].from as int) == a
                    && (g.edges@[k].to as int) == b
}

/// The dependency graph has a cycle.
pub open spec fn dep_cyclic(g: DepGraph) -> bool {
    has_cycle(g.packages@.len() as int, dep_rel(g))
}

/// Package `i` is in use: some first-party root reaches it.
pub open spec fn pkg_in_use(g: DepGraph, i: int) -> bool {
    exists|r: int|
        0 <= r < g.packages@.len() && (#[trigger] g.packages@[r]).is_root
            && g.packages@[r].is_first_party
            && reaches(g.packages@.len() as int, dep_rel(g), r, i)
}

/// Builds adjacency rows for the dependency relation.
pub fn build_dep_adj(g: &DepGraph) -> (adj: Vec<Vec<usize>>)
    requires
        graph_wf(*g),
    ensures
        adj@.len() == g.packages@.len(),
        adj_represents(adj@, dep_rel(*g)),
{
    let n = g.packages.len();
    let ghost rel = dep_rel(*g);
    let mut adj: Vec<Vec<usize>> = Vec::new();
    let mut a: usize = 0;
    while a < n
        invariant
            a <= n,
            adj@.len() == a,
            n == g.packages@.len(),
            graph_wf(*g),
            rel == dep_rel(*g),
            forall|a2: int, x: int|
                0 <= a2 < a && 0 <= x < adj@[a2]@.len() ==>
                    (#[trigger] adj@[a2]@[x] as int) < n,
            forall|a2: int, b: int| 0 <= a2 < a && 0 <= b < n ==>
                (#[trigger] adj@[a2]@.contains(b as usize) <==> exists|k: int|
                    0 <= k < g.edges@.len() && (#[trigger] g.edges@[k].from as int) == a2
                        && (g.edges@[k].to as int) == b),
        decreases n - a,
    {
        let mut row: Vec<usize> = Vec::new();
        let mut k: usize = 0;
        while k < g.edges.len()
            invariant
                k <= g.edges@.len(),
                a < n,
                n == g.packages@.len(),
                graph_wf(*g),
                forall|x: int| 0 <= x < row@.len() ==> (#[trigger] row@[x] as int) < n,
                forall|b: int| 0 <= b < n ==>
                    (#[trigger] row@.contains(b as usize) <==> exists|k2: int|
                        0 <= k2 < k && (#[trigger] g.edges@[k2].from as int) == a as int
                            && (g.edges@[k2].to as int) == b),
            decreases g.edges@.len() - k,
        {
            let e = &g.edges[k];
            let ghost pre = row@;
            if e.from == a {
                row.push(e.to);
            }
            proof {
                assert forall|b: int| 0 <= b < n implies
                    (#[trigger] row@.contains(b as usize) <==> exists|k2: int|
                        0 <= k2 < k + 1 && (#[trigger] g.edges@[k2].from as int) == a as int
                            && (g.edges@[k2].to as int) == b) by {
                    if row@.contains(b as usize) {
                        let x = choose|x: int| 0 <= x < row@.len() && row@[x] == b as usize;
                        if x < pre.len() {
                            assert(pre[x] == b as usize);
                            assert(pre.contains(b as usize));
                            let k2 = choose|k2: int|
                                0 <= k2 < k && (#[trigger] g.edges@[k2].from as int) == a as int
                                    && (g.edges@[k2].to as int) == b;
                            assert((g.edges@[k2].from as int) == a as int);
                        } else {
                            assert(row@[x] == g.edges@[k as int].to);
                            assert((g.edges@[k as int].from as int) == a as int);
                        }
                    }
                    if exists|k2: int|
                        0 <= k2 < k + 1 && (#[trigger] g.edges@[k2].from as int) == a as int
                            && (g.edges@[k2].to as int) == b {
                        let k2 = choose|k2: int|
                            0 <= k2 < k + 1 && (#[trigger] g.edges@[k2].from as int) == a as int
                                && (g.edges@[k2].to as int) == b;
                        if k2 < k {
                            assert(pre.contains(b as usize));
                            let x = choose|x: int| 0 <= x < pre.len() && pre[x] == b as usize;
                            assert(row@[x] == b as usize);
                        } else {
                            assert(row@[row@.len() - 1] == b as usize);
                        }
                    }
                }
            }
            k = k + 1;
        }
        adj.push(row);
        a = a + 1;
    }
    proof {
        assert forall|a2: int, b: int|
            0 <= a2 < adj@.len() && 0 <= b < adj@.len() implies
            (#[trigger] rel(a2, b) <==> adj@[a2]@.contains(b as usize)) by {}
        assert(adj_represents(adj@, rel));
    }
    adj
}

/// Collects the first-party root package indices.
pub fn root_indices(g: &DepGraph) -> (r: Vec<usize>)
    ensures
        forall|k: int| 0 <= k < r@.len() ==> (#[trigger] r@[k] as int) < g.packages@.len(),
        forall|i: int| 0 <= i < g.packages@.len() ==>
            ((exists|k: int| 0 <= k < r@.len() && #[trigger] r@[k] as int == i)
                <==> ((#[trigger] g.packages@[i]).is_root && g.packages@[i].is_first_party)),
{
    let n = g.packages.len();
    let mut r: Vec<usize> = Vec::new();
    let mut i: usize = 0;
    while i < n
        invariant
            i <= n,
            n == g.packages@.len(),
            forall|k: int| 0 <= k < r@.len() ==> (#[trigger] r@[k] as int) < i,
            forall|i2: int| 0 <= i2 < i ==>
                ((exists|k: int| 0 <= k < r@.len() && #[trigger] r@[k] as int == i2)
                    <==> ((#[trigger] g.packages@[i2]).is_root
                        && g.packages@[i2].is_first_party)),
        decreases n - i,
    {
        let ghost pre = r@;
        if g.packages[i].is_root && g.packages[i].is_first_party {
            r.push(i);
        }
        proof {
            assert forall|i2: int| 0 <= i2 < i + 1 implies
                ((exists|k: int| 0 <= k < r@.len() && #[trigger] r@[k] as int == i2)
                    <==> ((#[trigger] g.packages@[i2]).is_root
                        && g.packages@[i2].is_first_party)) by {
                if i2 == i as int {
                    if g.packages@[i2].is_root && g.packages@[i2].is_first_party {
                        assert(r@[r@.len() - 1] as int == i2);
                    } else {
                        if exists|k: int| 0 <= k < r@.len() && #[trigger] r@[k] as int == i2 {
                            let k = choose|k: int|
                                0 <= k < r@.len() && #[trigger] r@[k] as int == i2;
                            assert((pre[k] as int) < i);
                        }
                    }
                } else {
                    if exists|k: int| 0 <= k < r@.len() && #[trigger] r@[k] as int == i2 {
                        let k = choose|k: int| 0 <= k < r@.len() && #[trigger] r@[k] as int == i2;
                        assert(k < pre.len() || r@[k] as int == i as int);
                        assert(pre[k] as int == i2);
                    }
                    if g.packages@[i2].is_root && g.packages@[i2].is_first_party {
                        let k = choose|k: int| 0 <= k < pre.len() && #[trigger] pre[k] as int == i2;
                        assert(r@[k] as int == i2);
                    }
                }
            }
        }
        i = i + 1;
    }
    r
}

/// Computes which packages a first-party root reaches.
pub fn compute_in_use(g: &DepGraph, adj: &Vec<Vec<usize>>) -> (r: Vec<bool>)
    requires
        graph_wf(*g),
        adj@.len() == g.packages@.len(),
        adj_represents(adj@, dep_rel(*g)),
    ensures
        r@.len() == g.packages@.len(),
        forall|i: int| 0 <= i < g.packages@.len() ==> (#[trigger] r@[i] <==> pkg_in_use(*g, i)),
{
    let roots = root_indices(g);
    let r = reachable_set(adj, &roots, Ghost(dep_rel(*g)));
    proof {
        let n = g.packages@.len() as int;
        assert forall|i: int| 0 <= i < n implies (#[trigger] r@[i] <==> pkg_in_use(*g, i)) by {
            if r@[i] {
                let k = choose|k: int|
                    0 <= k < roots@.len()
                        && reaches(n, dep_rel(*g), #[trigger] roots@[k] as int, i);
                assert(exists|k2: int| 0 <= k2 < roots@.len()
                    && #[trigger] roots@[k2] as int == roots@[k] as int);
                assert(g.packages@[roots@[k] as int].is_root
                    && g.packages@[roots@[k] as int].is_first_party);
            }
            if pkg_in_use(*g, i) {
                let root = choose|root: int|
                    0 <= root < n && (#[trigger] g.packages@[root]).is_root
                        && g.packages@[root].is_first_party
                        && reaches(n, dep_rel(*g), root, i);
                let k = choose|k: int| 0 <= k < roots@.len() && #[trigger] roots@[k] as int == root;
                assert(reaches_from(n, dep_rel(*g), roots@, i));
            }
        }
    }
    r
}

/// Computes, per package, how many packages it reaches, and whether the
/// dependency graph is cyclic.
pub fn reach_counts(g: &DepGraph, adj: &Vec<Vec<usize>>) -> (r: (Vec<usize>, bool))
    requires
        graph_wf(*g),
        adj@.len() == g.packages@.len(),
        adj_represents(adj@, dep_rel(*g)),
    ensures
        r.0@.len() == g.packages@.len(),
        r.1 == dep_cyclic(*g),
        !r.1 ==> forall|k: int| 0 <= k < g.edges@.len() ==>
            (r.0@[(#[trigger] g.edges@[k].to) as int] as int)
                < (r.0@[g.edges@[k].from as int] as int),
{
    let n = g.packages.len();
    let ghost rel = dep_rel(*g);
    let mut rows: Vec<Vec<bool>> = Vec::new();
    let mut cnt: Vec<usize> = Vec::new();
    let mut i: usize = 0;
    while i < n
        invariant
            i <= n,
            rows@.len() == i,
            cnt@.len() == i,
            n == g.packages@.len(),
            graph_wf(*g),
            rel == dep_rel(*g),
            adj@.len() == n,
            adj_represents(adj@, rel),
            forall|i2: int| 0 <= i2 < i ==> (#[trigger] rows@[i2])@.len() == n,
            forall|i2: int, b: int| 0 <= i2 < i && 0 <= b < n ==>
                ((#[trigger] rows@[i2]@[b]) <==> reaches(n as int, rel, i2, b)),
            forall|i2: int| 0 <= i2 < i ==>
                (#[trigger] cnt@[i2] as int) == count_true(rows@[i2]@),
        decreases n - i,
    {
        let mut srcs: Vec<usize> = Vec::new();
        srcs.push(i);
        let row = reachable_set(adj, &srcs, Ghost(rel));
        proof {
            assert forall|b: int| 0 <= b < n implies
                ((#[trigger] row@[b]) <==> reaches(n as int, rel, i as int, b)) by {
                if row@[b] {
                    let k = choose|k: int|
                        0 <= k < srcs@.len()
                            && reaches(n as int, rel, #[trigger] srcs@[k] as int, b);
                    assert(srcs@[k] == i);
                }
                if reaches(n as int, rel, i as int, b) {
                    assert(srcs@[0] == i);
                    assert(reaches_from(n as int, rel, srcs@, b));
                }
            }
        }
        let c = count_true_vec(&row);
        rows.push(row);
        cnt.push(c);
        i = i + 1;
    }
    // a cycle exists exactly when some edge leads back into a path to its
    // own source
    let mut cyc = false;
    let mut k: usize = 0;
    proof {
        lemma_cycle_iff(n as int, rel);
    }
    while k < g.edges.len()
        invariant
            k <= g.edges@.len(),
            n == g.packages@.len(),
            graph_wf(*g),
            rel == dep_rel(*g),
            rows@.len() == n,
            cnt@.len() == n,
            forall|i2: int| 0 <= i2 < n ==> (#[trigger] rows@[i2])@.len() == n,
            forall|i2: int, b: int| 0 <= i2 < n && 0 <= b < n ==>
                ((#[trigger] rows@[i2]@[b]) <==> reaches(n as int, rel, i2, b)),
            forall|i2: int| 0 <= i2 < n ==>
                (#[trigger] cnt@[i2] as int) == count_true(rows@[i2]@),
            cyc ==> dep_cyclic(*g),
            !cyc ==> forall|k2: int| 0 <= k2 < k ==>
                !reaches(n as int, rel, (#[trigger] g.edges@[k2].to) as int,
                    g.edges@[k2].from as int),
        decreases g.edges@.len() - k,
    {
        let e = &g.edges[k];
        proof {
            assert((g.edges@[k as int].from as int) < n && (g.edges@[k as int].to as int) < n);
        }
        if rows[e.to][e.from] {
            cyc = true;
            proof {
                assert(reaches(n as int, rel, e.to as int, e.from as int));
                assert((e.from as int) < n && (e.to as int) < n
                    && rel(e.from as int, e.to as int)
                    && reaches(n as int, rel, e.to as int, e.from as int));
                lemma_cycle_iff(n as int, rel);
                assert(dep_cyclic(*g));
            }
        }
        k = k + 1;
    }
    proof {
        lemma_cycle_iff(n as int, rel);
        if !cyc {
            assert forall|a: int, b: int|
                !(0 <= a < n && 0 <= b < n && #[trigger] rel(a, b)
                    && reaches(n as int, rel, b, a)) by {
                if 0 <= a < n && 0 <= b < n && rel(a, b) && reaches(n as int, rel, b, a) {
                    let k2 = choose|k2: int|
                        0 <= k2 < g.edges@.len() && (#[trigger] g.edges@[k2].from as int) == a
                            && (g.edges@[k2].to as int) == b;
                    assert(!reaches(n as int, rel, g.edges@[k2].to as int,
                        g.edges@[k2].from as int));
                }
            }
            assert(!dep_cyclic(*g));
            // along every edge, the reachable set strictly shrinks
            assert forall|k2: int| 0 <= k2 < g.edges@.len() implies
                (cnt@[(#[trigger] g.edges@[k2].to) as int] as int)
                    < (cnt@[g.edges@[k2].from as int] as int) by {
                let a = g.edges@[k2].from as int;
                let b = g.edges@[k2].to as int;
                assert(rel(a, b));
                let ra = rows@[a]@;
                let rb = rows@[b]@;
                assert forall|x: int| 0 <= x < n implies (rb[x] ==> #[trigger] ra[x]) by {
                    if rb[x] {
                        assert(reaches(n as int, rel, b, x));
                        lemma_reach_refl(n as int, rel, a);
                        lemma_reach_step(n as int, rel, a, a, b);
                        lemma_reach_trans(n as int, rel, a, b, x);
                    }
                }
                lemma_reach_refl(n as int, rel, a);
                assert(ra[a]);
                assert(!rb[a]) by {
                    if rb[a] {
                        assert(reaches(n as int, rel, b, a));
                    }
                }
                lemma_count_true_strict(rb, ra, a);
            }
        }
    }
    (cnt, cyc)
}

} // verus!
