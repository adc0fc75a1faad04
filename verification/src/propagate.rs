//! The requirement propagator: computes, per package in use, the closed set
//! of criteria demanded of it.
//!
//! A first-party root demands its policy's own criteria (or the defaults) of
//! itself. Every dependency edge passes demand on: a dependency-criteria
//! override wins over a build-and-dev override, which wins over plain
//! inheritance of the consumer's own resolved requirement. A package's
//! requirement is the closure of everything demanded of it. Packages are
//! processed consumers-first, which the strictly shrinking reachable-set
//! counts of an acyclic graph provide.

use vstd::prelude::*;
use crate::criteria::{
    close_set, closure_of, closure_table_ok, default_set, ids_set, ids_valid, CriteriaEntry,
    CriteriaSet,
};
use crate::graph::{graph_wf, DepEdge, DepGraph, DepKind, Package};
use crate::ledger::{DepCriteria, PolicyEntry};
use crate::reach::{count_true, lemma_count_true_bounds, lemma_count_true_update};

verus! {

/// First policy entry for `name`, if any.
pub open spec fn find_policy(pols: Seq<PolicyEntry>, name: usize) -> Option<PolicyEntry>
    decreases pols.len(),
{
    if pols.len() == 0 {
        Option::None
    } else if pols[0].name == name {
        Option::Some(pols[0])
    } else {
        find_policy(pols.drop_first(), name)
    }
}

/// First dependency-criteria override for `name`, if any.
pub open spec fn find_dep_override(list: Seq<DepCriteria>, name: usize) -> Option<DepCriteria>
    decreases list.len(),
{
    if list.len() == 0 {
        Option::None
    } else if list[0].name == name {
        Option::Some(list[0])
    } else {
        find_dep_override(list.drop_first(), name)
    }
}

/// The criteria a package demands of itself: its policy's own criteria, or
/// the default-marked criteria for a first-party root.
pub open spec fn base_demand(
    crit: Seq<CriteriaEntry>,
    pols: Seq<PolicyEntry>,
    p: Package,
) -> Set<int> {
    let fallback = if p.is_root && p.is_first_party {
        default_set(crit)
    } else {
        Set::<int>::empty()
    };
    match find_policy(pols, p.name) {
        Option::Some(pe) => match pe.own_criteria {
            Option::Some(ids) => ids_set(ids@),
            Option::None => fallback,
        },
        Option::None => fallback,
    }
}

/// The criteria one edge demands of its target: the consumer's
/// dependency-criteria override for the target's name if present, else its
/// build-and-dev criteria for build and dev edges, else the consumer's own
/// resolved requirement.
pub open spec fn edge_contrib(
    pols: Seq<PolicyEntry>,
    pkgs: Seq<Package>,
    m: Seq<Set<int>>,
    e: DepEdge,
) -> Set<int> {
    let inherit = m[e.from as int];
    match find_policy(pols, pkgs[e.from as int].name) {
        Option::Some(pe) => match find_dep_override(pe.dependency_criteria@,
            pkgs[e.to as int].name) {
            Option::Some(dc) => ids_set(dc.criteria@),
            Option::None => match pe.build_and_dev_criteria {
                Option::Some(ids) => if e.kind == DepKind::Build || e.kind == DepKind::Dev {
                    ids_set(ids@)
                } else {
                    inherit
                },
                Option::None => inherit,
            },
        },
        Option::None => inherit,
    }
}

/// Everything demanded of package `t` by its own base and by the edges up
/// to index `k` whose consumer is in use.
pub open spec fn demand_below(
    crit: Seq<CriteriaEntry>,
    pols: Seq<PolicyEntry>,
    pkgs: Seq<Package>,
    edges: Seq<DepEdge>,
    m: Seq<Set<int>>,
    inuse: Seq<bool>,
    t: int,
    k: int,
) -> Set<int> {
    base_demand(crit, pols, pkgs[t]).union(
        Set::new(|d: int| exists|k2: int|
            0 <= k2 < k && (#[trigger] edges[k2].to as int) == t
                && inuse[edges[k2].from as int]
                && edge_contrib(pols, pkgs, m, edges[k2]).contains(d)),
    )
}

/// The requirement equation for package `t`: the closure of everything
/// demanded of it.
pub open spec fn required_of(
    crit: Seq<CriteriaEntry>,
    pols: Seq<PolicyEntry>,
    pkgs: Seq<Package>,
    edges: Seq<DepEdge>,
    m: Seq<Set<int>>,
    inuse: Seq<bool>,
    t: int,
) -> Set<int> {
    closure_of(crit, demand_below(crit, pols, pkgs, edges, m, inuse, t, edges.len() as int))
}

/// The per-package criteria sets as mathematical sets.
pub open spec fn set_views(s: Seq<CriteriaSet>) -> Seq<Set<int>> {
    s.map(|i: int, cs: CriteriaSet| cs.sset())
}

/// The requirement map satisfies the propagation equations: every in-use
/// package's requirement is the closure of everything demanded of it, and
/// packages not in use require nothing.
pub open spec fn req_map_ok(
    crit: Seq<CriteriaEntry>,
    pols: Seq<PolicyEntry>,
    pkgs: Seq<Package>,
    edges: Seq<DepEdge>,
    inuse: Seq<bool>,
    m: Seq<Set<int>>,
) -> bool {
    &&& m.len() == pkgs.len()
    &&& forall|t: int| 0 <= t < pkgs.len() && inuse[t] ==>
        #[trigger] m[t] == required_of(crit, pols, pkgs, edges, m, inuse, t)
    &&& forall|t: int| 0 <= t < pkgs.len() && !inuse[t] ==> #[trigger] m[t] == Set::<int>::empty()
}

/// Every criteria identifier in the policies names a criterion of a table
/// with `n` entries.
pub open spec fn pols_ids_valid(pols: Seq<PolicyEntry>, n: int) -> bool {
    forall|x: int| 0 <= x < pols.len() ==> {
        let pe = #[trigger] pols[x];
        &&& match pe.own_criteria {
            Option::Some(ids) => ids_valid(ids@, n),
            Option::None => true,
        }
        &&& match pe.build_and_dev_criteria {
            Option::Some(ids) => ids_valid(ids@, n),
            Option::None => true,
        }
        &&& forall|y: int| 0 <= y < pe.dependency_criteria@.len() ==>
            ids_valid((#[trigger] pe.dependency_criteria@[y]).criteria@, n)
    }
}

proof fn lemma_find_policy_prefix(s: Seq<PolicyEntry>, name: usize, i: int)
    requires
        0 <= i <= s.len(),
        forall|j: int| 0 <= j < i ==> (#[trigger] s[j]).name != name,
    ensures
        find_policy(s, name) == find_policy(s.skip(i), name),
    decreases i,
{
    if i == 0 {
        assert(s.skip(0) =~= s);
    } else {
        lemma_find_policy_prefix(s, name, i - 1);
        assert(s.skip(i - 1).len() > 0);
        assert(s.skip(i - 1)[0] == s[i - 1]);
        assert(s.skip(i - 1).drop_first() =~= s.skip(i));
    }
}

proof fn lemma_find_dep_prefix(s: Seq<DepCriteria>, name: usize, i: int)
    requires
        0 <= i <= s.len(),
        forall|j: int| 0 <= j < i ==> (#[trigger] s[j]).name != name,
    ensures
        find_dep_override(s, name) == find_dep_override(s.skip(i), name),
    decreases i,
{
    if i == 0 {
        assert(s.skip(0) =~= s);
    } else {
        lemma_find_dep_prefix(s, name, i - 1);
        assert(s.skip(i - 1).len() > 0);
        assert(s.skip(i - 1)[0] == s[i - 1]);
        assert(s.skip(i - 1).drop_first() =~= s.skip(i));
    }
}

/// Finds the first policy entry for `name`, as an index.
fn find_policy_exec(pols: &Vec<PolicyEntry>, name: usize) -> (r: Option<usize>)
    ensures
        match r {
            Option::Some(ix) => ix < pols@.len()
                && find_policy(pols@, name) == Option::Some(pols@[ix as int]),
            Option::None => find_policy(pols@, name) is None,
        },
{
    let mut i: usize = 0;
    while i < pols.len()
        invariant
            i <= pols@.len(),
            forall|j: int| 0 <= j < i ==> (#[trigger] pols@[j]).name != name,
        decreases pols@.len() - i,
    {
        if pols[i].name == name {
            proof {
                lemma_find_policy_prefix(pols@, name, i as int);
                assert(pols@.skip(i as int)[0] == pols@[i as int]);
            }
            return Option::Some(i);
        }
        i = i + 1;
    }
    proof {
        lemma_find_policy_prefix(pols@, name, pols@.len() as int);
        assert(pols@.skip(pols@.len() as int).len() == 0);
    }
    Option::None
}

/// Finds the first dependency-criteria override for `name`, as an index.
fn find_dep_exec(list: &Vec<DepCriteria>, name: usize) -> (r: Option<usize>)
    ensures
        match r {
            Option::Some(ix) => ix < list@.len()
                && find_dep_override(list@, name) == Option::Some(list@[ix as int]),
            Option::None => find_dep_override(list@, name) is None,
        },
{
    let mut i: usize = 0;
    while i < list.len()
        invariant
            i <= list@.len(),
            forall|j: int| 0 <= j < i ==> (#[trigger] list@[j]).name != name,
        decreases list@.len() - i,
    {
        if list[i].name == name {
            proof {
                lemma_find_dep_prefix(list@, name, i as int);
                assert(list@.skip(i as int)[0] == list@[i as int]);
            }
            return Option::Some(i);
        }
        i = i + 1;
    }
    proof {
        lemma_find_dep_prefix(list@, name, list@.len() as int);
        assert(list@.skip(list@.len() as int).len() == 0);
    }
    Option::None
}

/// Adds every listed criterion to the set.
fn add_ids(acc: &mut CriteriaSet, ids: &Vec<usize>)
    requires
        ids_valid(ids@, old(acc).width()),
    ensures
        final(acc).width() == old(acc).width(),
        final(acc).sset() =~= old(acc).sset().union(ids_set(ids@)),
{
    let mut k: usize = 0;
    while k < ids.len()
        invariant
            k <= ids@.len(),
            ids_valid(ids@, acc.width()),
            acc.width() == old(acc).width(),
            forall|d: int| #[trigger] acc.sset().contains(d) <==>
                (old(acc).sset().contains(d) || exists|j: int|
                    0 <= j < k && (#[trigger] ids@[j] as int) == d),
        decreases ids@.len() - k,
    {
        let ghost pre = *acc;
        acc.insert(ids[k]);
        proof {
            assert forall|d: int| #[trigger] acc.sset().contains(d) implies
                (old(acc).sset().contains(d) || exists|j: int|
                    0 <= j < k + 1 && (#[trigger] ids@[j] as int) == d) by {
                if d == ids@[k as int] as int {
                    assert((ids@[k as int] as int) == d);
                } else {
                    assert(pre.sset().contains(d));
                }
            }
            assert forall|d: int|
                (old(acc).sset().contains(d) || exists|j: int|
                    0 <= j < k + 1 && (#[trigger] ids@[j] as int) == d) implies
                #[trigger] acc.sset().contains(d) by {}
        }
        k = k + 1;
    }
}

/// Propagates requirements through the dependency graph, consumers first.
#[verifier::rlimit(80)]
pub fn propagate(
    g: &DepGraph,
    crit_entries: &Vec<CriteriaEntry>,
    table: &Vec<CriteriaSet>,
    pols: &Vec<PolicyEntry>,
    default_list: &Vec<usize>,
    in_use: &Vec<bool>,
    cnt: &Vec<usize>,
) -> (r: Vec<CriteriaSet>)
    requires
        graph_wf(*g),
        closure_table_ok(crit_entries@, table@),
        in_use@.len() == g.packages@.len(),
        cnt@.len() == g.packages@.len(),
        pols_ids_valid(pols@, table@.len() as int),
        ids_valid(default_list@, table@.len() as int),
        ids_set(default_list@) == default_set(crit_entries@),
        forall|k: int| 0 <= k < g.edges@.len() ==>
            ((cnt@[(#[trigger] g.edges@[k].to) as int]) as int)
                < ((cnt@[g.edges@[k].from as int]) as int),
    ensures
        r@.len() == g.packages@.len(),
        forall|t: int| 0 <= t < r@.len() ==> (#[trigger] r@[t]).width() == table@.len(),
        req_map_ok(crit_entries@, pols@, g.packages@, g.edges@, in_use@, set_views(r@)),
{
    let n = g.packages.len();
    let m = table.len();
    let ghost crit = crit_entries@;
    let ghost pkgs = g.packages@;
    let ghost edges = g.edges@;
    let mut reqs: Vec<CriteriaSet> = Vec::new();
    let mut processed: Vec<bool> = Vec::new();
    let mut i: usize = 0;
    while i < n
        invariant
            i <= n,
            reqs@.len() == i,
            processed@.len() == i,
            forall|t: int| 0 <= t < i ==> (#[trigger] reqs@[t]).width() == m,
            forall|t: int| 0 <= t < i ==> (#[trigger] reqs@[t]).sset() == Set::<int>::empty(),
            forall|t: int| 0 <= t < i ==> !(#[trigger] processed@[t]),
        decreases n - i,
    {
        let e = CriteriaSet::empty(m);
        proof {
            assert(e.sset() =~= Set::<int>::empty());
        }
        reqs.push(e);
        processed.push(false);
        i = i + 1;
    }
    proof {
        lemma_count_true_bounds(processed@);
    }
    loop
        invariant
            n == g.packages@.len(),
            m == table@.len(),
            crit == crit_entries@,
            pkgs == g.packages@,
            edges == g.edges@,
            reqs@.len() == n,
            processed@.len() == n,
            in_use@.len() == n,
            cnt@.len() == n,
            graph_wf(*g),
            closure_table_ok(crit, table@),
            pols_ids_valid(pols@, m as int),
            ids_valid(default_list@, m as int),
            ids_set(default_list@) == default_set(crit),
            forall|k: int| 0 <= k < edges.len() ==>
                ((cnt@[(#[trigger] edges[k].to) as int]) as int)
                    < ((cnt@[edges[k].from as int]) as int),
            forall|t: int| 0 <= t < n ==> (#[trigger] reqs@[t]).width() == m,
            forall|t: int| 0 <= t < n && #[trigger] processed@[t] ==> in_use@[t],
            forall|t: int| 0 <= t < n && !(#[trigger] processed@[t]) ==>
                reqs@[t].sset() == Set::<int>::empty(),
            forall|t: int, k: int|
                0 <= t < n && #[trigger] processed@[t] && 0 <= k < edges.len()
                    && (#[trigger] edges[k].to as int) == t
                    && in_use@[edges[k].from as int] ==> processed@[edges[k].from as int],
            forall|t: int| 0 <= t < n && #[trigger] processed@[t] ==>
                reqs@[t].sset() == required_of(crit, pols@, pkgs, edges, set_views(reqs@),
                    in_use@, t),
            forall|x: int, y: int|
                0 <= x < n && 0 <= y < n && #[trigger] processed@[x] && in_use@[y]
                    && !(#[trigger] processed@[y]) ==> (cnt@[y] as int) <= (cnt@[x] as int),
            count_true(processed@) <= n,
        ensures
            forall|t: int| 0 <= t < n && in_use@[t] ==> #[trigger] processed@[t],
            forall|t: int| 0 <= t < n && #[trigger] processed@[t] ==> in_use@[t],
            forall|t: int| 0 <= t < n ==> (#[trigger] reqs@[t]).width() == m,
            forall|t: int| 0 <= t < n && !(#[trigger] processed@[t]) ==>
                reqs@[t].sset() == Set::<int>::empty(),
            forall|t: int| 0 <= t < n && #[trigger] processed@[t] ==>
                reqs@[t].sset() == required_of(crit, pols@, pkgs, edges, set_views(reqs@),
                    in_use@, t),
            reqs@.len() == n,
        decreases n - count_true(processed@),
    {
        // pick the unprocessed in-use package with the largest reach count
        let mut best: usize = n;
        let mut j: usize = 0;
        while j < n
            invariant
                j <= n,
                n == g.packages@.len(),
                processed@.len() == n,
                in_use@.len() == n,
                cnt@.len() == n,
                best == n || (best < n && in_use@[best as int] && !processed@[best as int]),
                best == n ==> forall|j2: int| 0 <= j2 < j ==>
                    !(in_use@[j2] && !(#[trigger] processed@[j2])),
                best < n ==> forall|j2: int| 0 <= j2 < j ==>
                    (in_use@[j2] && !(#[trigger] processed@[j2]) ==>
                        (cnt@[j2] as int) <= (cnt@[best as int] as int)),
            decreases n - j,
        {
            if in_use[j] && !processed[j] {
                if best == n {
                    best = j;
                } else if cnt[j] > cnt[best] {
                    best = j;
                }
            }
            j = j + 1;
        }
        if best == n {
            proof {
                assert forall|t: int| 0 <= t < n && in_use@[t] implies
                    #[trigger] processed@[t] by {
                    assert(!(in_use@[t] && !processed@[t]));
                }
            }
            break;
        }
        let t = best;
        let ghost ti = t as int;
        let ghost m_pre = set_views(reqs@);
        proof {
            // every in-use consumer of `t` is already processed
            assert forall|k: int|
                0 <= k < edges.len() && (#[trigger] edges[k].to as int) == ti
                    && in_use@[edges[k].from as int] implies
                processed@[edges[k].from as int] by {
                let f = edges[k].from as int;
                assert((cnt@[ti] as int) < (cnt@[f] as int));
                if !processed@[f] {
                    assert((cnt@[f] as int) <= (cnt@[ti] as int));
                }
            }
        }
        // gather the base demand
        let mut acc = CriteriaSet::empty(m);
        let pkg_name = g.packages[t].name;
        let is_rootfp = g.packages[t].is_root && g.packages[t].is_first_party;
        match find_policy_exec(pols, pkg_name) {
            Option::Some(pi) => {
                let pe = &pols[pi];
                match &pe.own_criteria {
                    Option::Some(ids) => {
                        add_ids(&mut acc, ids);
                    },
                    Option::None => {
                        if is_rootfp {
                            add_ids(&mut acc, default_list);
                        }
                    },
                }
            },
            Option::None => {
                if is_rootfp {
                    add_ids(&mut acc, default_list);
                }
            },
        }
        proof {
            assert(acc.sset() =~= base_demand(crit, pols@, pkgs[ti]));
        }
        // gather the edge demands
        let mut k: usize = 0;
        while k < g.edges.len()
            invariant
                k <= edges.len(),
                n == g.packages@.len(),
                m == table@.len(),
                crit == crit_entries@,
                pkgs == g.packages@,
                edges == g.edges@,
                t < n,
                ti == t as int,
                reqs@.len() == n,
                processed@.len() == n,
                in_use@.len() == n,
                graph_wf(*g),
                pols_ids_valid(pols@, m as int),
                m_pre == set_views(reqs@),
                forall|t2: int| 0 <= t2 < n ==> (#[trigger] reqs@[t2]).width() == m,
                acc.width() == m,
                acc.sset() =~= demand_below(crit, pols@, pkgs, edges, m_pre, in_use@, ti,
                    k as int),
            decreases edges.len() - k,
        {
            let e = &g.edges[k];
            let ghost pre_acc = acc;
            if e.to == t && in_use[e.from] {
                let from_name = g.packages[e.from].name;
                let to_name = g.packages[e.to].name;
                let is_bd = match e.kind {
                    DepKind::Build => true,
                    DepKind::Dev => true,
                    DepKind::Normal => false,
                };
                match find_policy_exec(pols, from_name) {
                    Option::Some(pi) => {
                        let pe = &pols[pi];
                        match find_dep_exec(&pe.dependency_criteria, to_name) {
                            Option::Some(di) => {
                                add_ids(&mut acc, &pe.dependency_criteria[di].criteria);
                            },
                            Option::None => {
                                match &pe.build_and_dev_criteria {
                                    Option::Some(ids) => {
                                        if is_bd {
                                            add_ids(&mut acc, ids);
                                        } else {
                                            acc.union_with(&reqs[e.from]);
                                        }
                                    },
                                    Option::None => {
                                        acc.union_with(&reqs[e.from]);
                                    },
                                }
                            },
                        }
                    },
                    Option::None => {
                        acc.union_with(&reqs[e.from]);
                    },
                }
                proof {
                    assert(m_pre[e.from as int] == reqs@[e.from as int].sset());
                    assert(acc.sset() =~= pre_acc.sset().union(
                        edge_contrib(pols@, pkgs, m_pre, edges[k as int])));
                }
            }
            proof {
                assert forall|d: int| #[trigger] acc.sset().contains(d) implies
                    demand_below(crit, pols@, pkgs, edges, m_pre, in_use@, ti, k as int + 1)
                        .contains(d) by {
                    if pre_acc.sset().contains(d) {
                        assert(demand_below(crit, pols@, pkgs, edges, m_pre, in_use@, ti,
                            k as int).contains(d));
                    }
                }
                assert forall|d: int|
                    demand_below(crit, pols@, pkgs, edges, m_pre, in_use@, ti, k as int + 1)
                        .contains(d) implies #[trigger] acc.sset().contains(d) by {
                    if !base_demand(crit, pols@, pkgs[ti]).contains(d) {
                        let k2 = choose|k2: int|
                            0 <= k2 < k as int + 1 && (#[trigger] edges[k2].to as int) == ti
                                && in_use@[edges[k2].from as int]
                                && edge_contrib(pols@, pkgs, m_pre, edges[k2]).contains(d);
                        if k2 < k as int {
                            assert(demand_below(crit, pols@, pkgs, edges, m_pre, in_use@, ti,
                                k as int).contains(d));
                            assert(pre_acc.sset().contains(d));
                        }
                    } else {
                        assert(demand_below(crit, pols@, pkgs, edges, m_pre, in_use@, ti,
                            k as int).contains(d));
                        assert(pre_acc.sset().contains(d));
                    }
                }
                assert(acc.sset() =~= demand_below(crit, pols@, pkgs, edges, m_pre, in_use@,
                    ti, k as int + 1));
            }
            k = k + 1;
        }
        let closed = close_set(Ghost(crit), table, &acc);
        let ghost pre_reqs = reqs@;
        let ghost pre_processed = processed@;
        reqs.set(t, closed);
        processed.set(t, true);
        proof {
            lemma_count_true_update(pre_processed, ti);
            lemma_count_true_bounds(processed@);
            let m_new = set_views(reqs@);
            // only slot `t` changed, and `t` was unprocessed
            assert forall|x: int| 0 <= x < n && x != ti implies m_new[x] == m_pre[x] by {
                assert(reqs@[x] == pre_reqs[x]);
            }
            // contributions read only processed slots, which did not change
            assert forall|t2: int, k2: int|
                0 <= t2 < n && #[trigger] processed@[t2] && 0 <= k2 < edges.len()
                    && (#[trigger] edges[k2].to as int) == t2
                    && in_use@[edges[k2].from as int] implies
                edge_contrib(pols@, pkgs, m_new, edges[k2])
                    == edge_contrib(pols@, pkgs, m_pre, edges[k2]) by {
                let f = edges[k2].from as int;
                if t2 == ti {
                    assert(processed@[f] == pre_processed[f] || f == ti);
                    if f == ti {
                        assert((cnt@[ti] as int) < (cnt@[ti] as int));
                    }
                    assert(pre_processed[f]);
                } else {
                    assert(pre_processed[t2]);
                    assert(pre_processed[f]);
                }
                assert(f != ti);
                assert(m_new[f] == m_pre[f]);
            }
            // the equations keep holding for previously processed packages
            assert forall|t2: int| 0 <= t2 < n && #[trigger] processed@[t2] implies
                reqs@[t2].sset() == required_of(crit, pols@, pkgs, edges, set_views(reqs@),
                    in_use@, t2) by {
                assert(demand_below(crit, pols@, pkgs, edges, m_new, in_use@, t2,
                    edges.len() as int) =~= demand_below(crit, pols@, pkgs, edges, m_pre,
                    in_use@, t2, edges.len() as int));
                if t2 == ti {
                    assert(reqs@[t2].sset() == closed.sset());
                    assert(closed.sset() =~= closure_of(crit, demand_below(crit, pols@, pkgs,
                        edges, m_pre, in_use@, ti, edges.len() as int)));
                } else {
                    assert(pre_processed[t2]);
                    assert(reqs@[t2] == pre_reqs[t2]);
                    assert(pre_reqs[t2].sset() == required_of(crit, pols@, pkgs, edges, m_pre,
                        in_use@, t2));
                }
            }
        }
    }
    proof {
        let mv = set_views(reqs@);
        assert forall|t: int| 0 <= t < n && in_use@[t] implies
            #[trigger] mv[t] == required_of(crit, pols@, pkgs, edges, mv, in_use@, t) by {
            assert(processed@[t]);
            assert(mv[t] == reqs@[t].sset());
        }
        assert forall|t: int| 0 <= t < n && !in_use@[t] implies
            #[trigger] mv[t] == Set::<int>::empty() by {
            assert(!processed@[t]);
            assert(mv[t] == reqs@[t].sset());
        }
        assert(req_map_ok(crit, pols@, pkgs, edges, in_use@, set_views(reqs@)));
    }
    reqs
}

} // verus!
