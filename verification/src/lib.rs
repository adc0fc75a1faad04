//! A supply-chain trust auditor for a resolved package dependency graph.
//!
//! Given the dependency graph, a ledger of audits (full audits, delta
//! audits, violations), an optional imported ledger, exemptions, and
//! per-package policies, the resolver decides for each package in use
//! whether its installed version is `Certified`, `Exempted`,
//! `Uncertifiable`, or `Forbidden` under the criteria required of it, and
//! aggregates the verdicts into a deterministic report.

use vstd::prelude::*;

pub mod criteria;
pub mod graph;
pub mod ledger;
pub mod propagate;
pub mod reach;
pub mod report;
pub mod solver;
pub mod version;

use crate::criteria::{
    build_closure_table, crit_cyclic, criteria_cyclic, default_ids, entries_valid, ids_valid,
};
use crate::graph::{
    build_dep_adj, compute_in_use, dep_cyclic, graph_wf, pkg_in_use, reach_counts, DepGraph,
};
use crate::ledger::{
    certified_for, delta_path, exempted_for, exemption_present, exemption_suggested,
    full_certifies, merged_records, AuditRecord, AuditsFile, ConfigFile, ImportsFile,
    PolicyEntry,
};
use crate::propagate::{pols_ids_valid, propagate, req_map_ok};
use crate::report::{count_verdict, removable_list, summarize, uncertifiable_list, PackageReport,
    Report};
use crate::solver::{
    adjudicated, all_certified, chain_candidate, exs_ids_valid, recs_ids_valid, solve_package,
    Verdict,
};
use crate::version::{version_le, Version};

verus! {

/// A fatal configuration error: resolution aborts before any verdict.
#[derive(Clone, Copy, PartialEq, Eq, Structural, Debug)]
pub enum ConfigError {
    /// Some document names a criterion the criteria table does not define.
    UndefinedCriteria,
    /// The criteria implication graph is cyclic.
    CriteriaCycle,
    /// A dependency-criteria override names a package that is not a
    /// dependency of any package of that name.
    UnknownDependencyOverride,
    /// The dependency graph is cyclic, breaking the package manager's
    /// guarantee.
    DependencyCycle,
}

/// Every criteria identifier of every input document names a defined
/// criterion.
pub open spec fn inputs_ids_ok(cfg: ConfigFile, audits: AuditsFile, imports: ImportsFile) -> bool {
    let n = audits.criteria@.len() as int;
    &&& entries_valid(audits.criteria@)
    &&& recs_ids_valid(audits.audits@, n)
    &&& recs_ids_valid(imports.audits@, n)
    &&& exs_ids_valid(cfg.exemptions@, n)
    &&& pols_ids_valid(cfg.policy@, n)
}

/// Some dependency edge runs from a package named `pname` to a package
/// named `dname`.
pub open spec fn has_target_edge(g: DepGraph, pname: usize, dname: usize) -> bool {
    exists|k: int|
        0 <= k < g.edges@.len()
            && g.packages@[(#[trigger] g.edges@[k]).from as int].name == pname
            && g.packages@[g.edges@[k].to as int].name == dname
}

/// Every dependency-criteria override names an actual dependency edge of a
/// package with the policy's name.
pub open spec fn policy_targets_ok(g: DepGraph, pols: Seq<PolicyEntry>) -> bool {
    forall|x: int, y: int|
        0 <= x < pols.len() && 0 <= y < pols[x].dependency_criteria@.len() ==>
            #[trigger] has_target_edge(g, pols[x].name, pols[x].dependency_criteria@[y].name)
}

/// The first configuration error resolution stops on, if any.
pub open spec fn first_config_error(
    g: DepGraph,
    cfg: ConfigFile,
    audits: AuditsFile,
    imports: ImportsFile,
) -> Option<ConfigError> {
    if !inputs_ids_ok(cfg, audits, imports) {
        Option::Some(ConfigError::UndefinedCriteria)
    } else if crit_cyclic(audits.criteria@) {
        Option::Some(ConfigError::CriteriaCycle)
    } else if !policy_targets_ok(g, cfg.policy@) {
        Option::Some(ConfigError::UnknownDependencyOverride)
    } else if dep_cyclic(g) {
        Option::Some(ConfigError::DependencyCycle)
    } else {
        Option::None
    }
}

/// Which packages are in use, as a sequence of flags.
pub open spec fn in_use_seq(g: DepGraph) -> Seq<bool> {
    Seq::new(g.packages@.len() as nat, |i: int| pkg_in_use(g, i))
}

/// The requirement of package `i` as the report records it: the `required`
/// set of its record, or empty when it has none.
pub open spec fn req_of_record(rep: Report, i: int) -> Set<int> {
    if exists|k: int|
        0 <= k < rep.records@.len() && (#[trigger] rep.records@[k]).package as int == i {
        let k = choose|k: int|
            0 <= k < rep.records@.len() && (#[trigger] rep.records@[k]).package as int == i;
        rep.records@[k].required.sset()
    } else {
        Set::empty()
    }
}

/// The whole requirement map as the report records it.
pub open spec fn m_of_report(rep: Report, n: int) -> Seq<Set<int>> {
    Seq::new(n as nat, |i: int| req_of_record(rep, i))
}

/// Record `a` stands before record `b` in the report: ordered by package
/// name, then by package identity. Names are interned identifiers, so the
/// name order is the loading layer's interning order; the graph index
/// breaks ties for determinism.
pub open spec fn record_before(a: PackageReport, b: PackageReport) -> bool {
    a.name < b.name || (a.name == b.name && a.package < b.package)
}

/// One record is correct: its fields restate the package, its requirement
/// obeys the propagation equations' map `m`, and its verdict and evidence
/// are the adjudicated ones.
pub open spec fn record_ok(
    g: DepGraph,
    cfg: ConfigFile,
    audits: AuditsFile,
    imports: ImportsFile,
    m: Seq<Set<int>>,
    rec: PackageReport,
) -> bool {
    let crit = audits.criteria@;
    let recs = merged_records(audits, imports);
    let i = rec.package as int;
    let p = g.packages@[i];
    &&& i < g.packages@.len()
    &&& rec.name == p.name
    &&& rec.version == p.version
    &&& rec.required.sset() == m[i]
    &&& rec.verdict == adjudicated(crit, recs, cfg.exemptions@, p.is_first_party, p.name,
        p.version, m[i])
    &&& rec.exemption_suggest == exemption_suggested(cfg.exemptions@, p.name, p.version)
    &&& rec.exemption_removable == (exemption_present(cfg.exemptions@, p.name, p.version)
        && all_certified(crit, recs, p.name, p.version, m[i]))
    &&& forall|c: int| #[trigger] rec.exempted_criteria.sset().contains(c) <==>
        (m[i].contains(c) && !certified_for(crit, recs, p.name, c, p.version)
            && exempted_for(crit, cfg.exemptions@, p.name, c, p.version))
    &&& forall|c: int| #[trigger] rec.uncovered_criteria.sset().contains(c) <==>
        (m[i].contains(c) && !certified_for(crit, recs, p.name, c, p.version)
            && !exempted_for(crit, cfg.exemptions@, p.name, c, p.version))
    &&& forall|e: int| 0 <= e < rec.evidence@.len() ==> {
        let ent = #[trigger] rec.evidence@[e];
        &&& m[i].contains(ent.criterion as int)
        &&& ent.chain@.len() >= 1
        &&& delta_path(crit, recs, p.name, ent.criterion as int, ent.chain@)
        &&& full_certifies(crit, recs, p.name, ent.criterion as int, ent.chain@[0])
        &&& ent.chain@[ent.chain@.len() - 1] == p.version
    }
    &&& forall|c: int|
        ((#[trigger] m[i].contains(c) && certified_for(crit, recs, p.name, c, p.version))
            <==> exists|e: int|
                0 <= e < rec.evidence@.len()
                    && ((#[trigger] rec.evidence@[e]).criterion as int) == c)
    &&& rec.duplicate_full_audit == crate::ledger::duplicate_full_audit(recs, p.name)
    &&& rec.imported_audits == crate::ledger::imported_records_present(imports, p.name)
    &&& rec.unanchored_delta == crate::solver::unanchored_delta(crit, recs, p.name,
        audits.criteria@.len() as int)
    &&& match rec.nearest_certified {
        Option::Some(w) => rec.verdict == Verdict::Uncertifiable
            && chain_candidate(crit, recs, p.name, p.version, m[i], w)
            && forall|w2: Version|
                #[trigger] chain_candidate(crit, recs, p.name, p.version, m[i], w2) ==>
                    version_le(w2, w),
        Option::None => rec.verdict != Verdict::Uncertifiable
            || forall|w2: Version|
                !#[trigger] chain_candidate(crit, recs, p.name, p.version, m[i], w2),
    }
}

/// The report is correct: one record per package in use, in package order,
/// each record adjudicated against the requirement map that the records
/// themselves carry, which satisfies the propagation equations; and the
/// summary restates the records.
pub open spec fn report_ok(
    g: DepGraph,
    cfg: ConfigFile,
    audits: AuditsFile,
    imports: ImportsFile,
    rep: Report,
) -> bool {
    let n = g.packages@.len() as int;
    let m = m_of_report(rep, n);
    &&& forall|k: int| 0 <= k < rep.records@.len() ==>
        record_ok(g, cfg, audits, imports, m, #[trigger] rep.records@[k])
    &&& forall|k1: int, k2: int|
        0 <= k1 < k2 < rep.records@.len() ==>
            record_before(#[trigger] rep.records@[k1], #[trigger] rep.records@[k2])
    &&& forall|i: int| 0 <= i < n ==>
        (pkg_in_use(g, i) <==> exists|k: int|
            0 <= k < rep.records@.len() && (#[trigger] rep.records@[k]).package as int == i)
    &&& req_map_ok(audits.criteria@, cfg.policy@, g.packages@, g.edges@, in_use_seq(g), m)
    &&& rep.n_certified == count_verdict(rep.records@, Verdict::Certified)
    &&& rep.n_exempted == count_verdict(rep.records@, Verdict::Exempted)
    &&& rep.n_uncertifiable == count_verdict(rep.records@, Verdict::Uncertifiable)
    &&& rep.n_forbidden == count_verdict(rep.records@, Verdict::Forbidden)
    &&& rep.needs_audit@ == uncertifiable_list(rep.records@)
    &&& rep.removable_exemptions@ == removable_list(rep.records@)
}

/// Checks that every identifier of the list names a criterion.
fn check_ids_list(ids: &Vec<usize>, n: usize) -> (r: bool)
    ensures
        r == ids_valid(ids@, n as int),
{
    let mut k: usize = 0;
    while k < ids.len()
        invariant
            k <= ids@.len(),
            forall|j: int| 0 <= j < k ==> (#[trigger] ids@[j] as int) < n,
        decreases ids@.len() - k,
    {
        if ids[k] >= n {
            return false;
        }
        k = k + 1;
    }
    true
}

/// Checks every record's criteria list.
fn check_recs_ids(recs: &Vec<AuditRecord>, n: usize) -> (r: bool)
    ensures
        r == recs_ids_valid(recs@, n as int),
{
    let mut x: usize = 0;
    while x < recs.len()
        invariant
            x <= recs@.len(),
            forall|y: int| 0 <= y < x ==> ids_valid((#[trigger] recs@[y]).criteria@, n as int),
        decreases recs@.len() - x,
    {
        if !check_ids_list(&recs[x].criteria, n) {
            return false;
        }
        x = x + 1;
    }
    true
}

/// Checks every identifier of every input document.
fn check_inputs_ids(cfg: &ConfigFile, audits: &AuditsFile, imports: &ImportsFile) -> (r: bool)
    ensures
        r == inputs_ids_ok(*cfg, *audits, *imports),
{
    let n = audits.criteria.len();
    let mut i: usize = 0;
    while i < audits.criteria.len()
        invariant
            i <= audits.criteria@.len(),
            n == audits.criteria@.len(),
            forall|j: int| 0 <= j < i ==>
                ids_valid((#[trigger] audits.criteria@[j]).implies@, n as int),
        decreases audits.criteria@.len() - i,
    {
        if !check_ids_list(&audits.criteria[i].implies, n) {
            return false;
        }
        i = i + 1;
    }
    if !check_recs_ids(&audits.audits, n) {
        return false;
    }
    if !check_recs_ids(&imports.audits, n) {
        return false;
    }
    let mut x: usize = 0;
    while x < cfg.exemptions.len()
        invariant
            x <= cfg.exemptions@.len(),
            n == audits.criteria@.len(),
            forall|y: int| 0 <= y < x ==>
                match (#[trigger] cfg.exemptions@[y]).criteria {
                    Option::Some(ids) => ids_valid(ids@, n as int),
                    Option::None => true,
                },
        decreases cfg.exemptions@.len() - x,
    {
        let ok = match &cfg.exemptions[x].criteria {
            Option::Some(ids) => check_ids_list(ids, n),
            Option::None => true,
        };
        if !ok {
            return false;
        }
        x = x + 1;
    }
    let mut p: usize = 0;
    while p < cfg.policy.len()
        invariant
            p <= cfg.policy@.len(),
            n == audits.criteria@.len(),
            forall|y: int| 0 <= y < p ==> {
                let pe = #[trigger] cfg.policy@[y];
                &&& match pe.own_criteria {
                    Option::Some(ids) => ids_valid(ids@, n as int),
                    Option::None => true,
                }
                &&& match pe.build_and_dev_criteria {
                    Option::Some(ids) => ids_valid(ids@, n as int),
                    Option::None => true,
                }
                &&& forall|z: int| 0 <= z < pe.dependency_criteria@.len() ==>
                    ids_valid((#[trigger] pe.dependency_criteria@[z]).criteria@, n as int)
            },
        decreases cfg.policy@.len() - p,
    {
        let pe = &cfg.policy[p];
        let ok1 = match &pe.own_criteria {
            Option::Some(ids) => check_ids_list(ids, n),
            Option::None => true,
        };
        if !ok1 {
            return false;
        }
        let ok2 = match &pe.build_and_dev_criteria {
            Option::Some(ids) => check_ids_list(ids, n),
            Option::None => true,
        };
        if !ok2 {
            return false;
        }
        let mut z: usize = 0;
        while z < pe.dependency_criteria.len()
            invariant
                z <= pe.dependency_criteria@.len(),
                n == audits.criteria@.len(),
                p < cfg.policy@.len(),
                pe.dependency_criteria@ == cfg.policy@[p as int].dependency_criteria@,
                forall|z2: int| 0 <= z2 < z ==>
                    ids_valid((#[trigger] pe.dependency_criteria@[z2]).criteria@, n as int),
            decreases pe.dependency_criteria@.len() - z,
        {
            if !check_ids_list(&pe.dependency_criteria[z].criteria, n) {
                proof {
                    if pols_ids_valid(cfg.policy@, n as int) {
                        let pe2 = cfg.policy@[p as int];
                        assert(ids_valid(
                            (pe2.dependency_criteria@[z as int]).criteria@, n as int));
                    }
                }
                return false;
            }
            z = z + 1;
        }
        p = p + 1;
    }
    true
}

/// Checks that every dependency-criteria override names an actual
/// dependency.
fn check_policy_targets(g: &DepGraph, pols: &Vec<PolicyEntry>) -> (r: bool)
    requires
        graph_wf(*g),
    ensures
        r == policy_targets_ok(*g, pols@),
{
    let mut x: usize = 0;
    while x < pols.len()
        invariant
            x <= pols@.len(),
            graph_wf(*g),
            forall|x2: int, y: int|
                0 <= x2 < x && 0 <= y < pols@[x2].dependency_criteria@.len() ==>
                    #[trigger] has_target_edge(*g, pols@[x2].name,
                        pols@[x2].dependency_criteria@[y].name),
        decreases pols@.len() - x,
    {
        let dlen = pols[x].dependency_criteria.len();
        let pname = pols[x].name;
        let mut y: usize = 0;
        while y < dlen
            invariant
                y <= dlen,
                x < pols@.len(),
                dlen == pols@[x as int].dependency_criteria@.len(),
                pname == pols@[x as int].name,
                graph_wf(*g),
                forall|y2: int| 0 <= y2 < y ==>
                    #[trigger] has_target_edge(*g, pname,
                        pols@[x as int].dependency_criteria@[y2].name),
            decreases dlen - y,
        {
            let want = pols[x].dependency_criteria[y].name;
            let mut k: usize = 0;
            let mut found = false;
            while k < g.edges.len()
                invariant
                    k <= g.edges@.len(),
                    graph_wf(*g),
                    found ==> has_target_edge(*g, pname, want),
                    !found ==> forall|k2: int| 0 <= k2 < k ==>
                        !(g.packages@[(#[trigger] g.edges@[k2]).from as int].name == pname
                            && g.packages@[g.edges@[k2].to as int].name == want),
                decreases g.edges@.len() - k,
            {
                let e = &g.edges[k];
                proof {
                    assert((g.edges@[k as int].from as int) < g.packages@.len());
                }
                if g.packages[e.from].name == pname && g.packages[e.to].name == want {
                    found = true;
                    proof {
                        assert(g.packages@[(g.edges@[k as int]).from as int].name == pname
                            && g.packages@[g.edges@[k as int].to as int].name == want);
                        assert(has_target_edge(*g, pname, want));
                    }
                }
                k = k + 1;
            }
            if !found {
                proof {
                    if policy_targets_ok(*g, pols@) {
                        assert(has_target_edge(*g, pols@[x as int].name,
                            pols@[x as int].dependency_criteria@[y as int].name));
                        let k2 = choose|k2: int|
                            0 <= k2 < g.edges@.len()
                                && g.packages@[(#[trigger] g.edges@[k2]).from as int].name
                                    == pname
                                && g.packages@[g.edges@[k2].to as int].name == want;
                        assert(!(g.packages@[g.edges@[k2].from as int].name == pname
                            && g.packages@[g.edges@[k2].to as int].name == want));
                    }
                }
                return false;
            }
            y = y + 1;
        }
        proof {
            assert forall|x2: int, y2: int|
                0 <= x2 < x + 1 && 0 <= y2 < pols@[x2].dependency_criteria@.len() implies
                #[trigger] has_target_edge(*g, pols@[x2].name,
                    pols@[x2].dependency_criteria@[y2].name) by {
                if x2 == x as int {
                    assert(0 <= y2 < dlen);
                    assert(has_target_edge(*g, pname,
                        pols@[x as int].dependency_criteria@[y2].name));
                }
            }
        }
        x = x + 1;
    }
    true
}

/// Resolves the whole graph: validates the configuration, propagates the
/// required criteria, adjudicates every package in use, and aggregates the
/// report. Returns the first configuration error instead when one exists.
pub fn resolve(
    g: &DepGraph,
    config: &ConfigFile,
    audits: &AuditsFile,
    imports: &ImportsFile,
) -> (r: Result<Report, ConfigError>)
    requires
        graph_wf(*g),
    ensures
        match r {
            Result::Err(e) => Option::Some(e) == first_config_error(*g, *config, *audits,
                *imports),
            Result::Ok(rep) => first_config_error(*g, *config, *audits, *imports) is None
                && report_ok(*g, *config, *audits, *imports, rep),
        },
{
    let ghost crit = audits.criteria@;
    let ghost recs = merged_records(*audits, *imports);
    if !check_inputs_ids(config, audits, imports) {
        return Result::Err(ConfigError::UndefinedCriteria);
    }
    let table = build_closure_table(&audits.criteria);
    if criteria_cyclic(&audits.criteria, &table) {
        return Result::Err(ConfigError::CriteriaCycle);
    }
    if !check_policy_targets(g, &config.policy) {
        return Result::Err(ConfigError::UnknownDependencyOverride);
    }
    let adj = build_dep_adj(g);
    let counts = reach_counts(g, &adj);
    let cnt = counts.0;
    if counts.1 {
        return Result::Err(ConfigError::DependencyCycle);
    }
    let in_use = compute_in_use(g, &adj);
    let default_list = default_ids(&audits.criteria);
    let reqs = propagate(g, &audits.criteria, &table, &config.policy, &default_list, &in_use,
        &cnt);
    let ghost m0 = crate::propagate::set_views(reqs@);
    let n = g.packages.len();
    let mut emitted: Vec<bool> = Vec::new();
    let mut ie: usize = 0;
    while ie < n
        invariant
            emitted@.len() == ie,
            ie <= n,
            forall|j: int| 0 <= j < ie ==> !(#[trigger] emitted@[j]),
        decreases n - ie,
    {
        emitted.push(false);
        ie = ie + 1;
    }
    let mut records: Vec<PackageReport> = Vec::new();
    proof {
        crate::reach::lemma_count_true_bounds(emitted@);
    }
    // emit the records of the packages in use, smallest (name, identity)
    // first
    loop
        invariant
            n == g.packages@.len(),
            crit == audits.criteria@,
            recs == merged_records(*audits, *imports),
            crate::criteria::closure_table_ok(crit, table@),
            recs_ids_valid(audits.audits@, table@.len() as int),
            recs_ids_valid(imports.audits@, table@.len() as int),
            exs_ids_valid(config.exemptions@, table@.len() as int),
            ids_valid(default_list@, table@.len() as int),
            crate::criteria::ids_set(default_list@) == crate::criteria::default_set(crit),
            in_use@.len() == n,
            forall|i2: int| 0 <= i2 < n ==> (#[trigger] in_use@[i2] <==> pkg_in_use(*g, i2)),
            reqs@.len() == n,
            forall|t: int| 0 <= t < n ==> (#[trigger] reqs@[t]).width() == table@.len(),
            m0 == crate::propagate::set_views(reqs@),
            emitted@.len() == n,
            forall|i2: int| 0 <= i2 < n && #[trigger] emitted@[i2] ==> in_use@[i2],
            forall|k: int| 0 <= k < records@.len() ==>
                ((#[trigger] records@[k]).package as int) < n
                    && emitted@[records@[k].package as int]
                    && records@[k].name == g.packages@[records@[k].package as int].name,
            forall|i2: int| 0 <= i2 < n && #[trigger] emitted@[i2] ==> exists|k: int|
                0 <= k < records@.len() && (#[trigger] records@[k]).package as int == i2,
            forall|k1: int, k2: int|
                0 <= k1 < k2 < records@.len() ==>
                    record_before(#[trigger] records@[k1], #[trigger] records@[k2]),
            forall|x: int, y: int|
                0 <= x < n && 0 <= y < n && #[trigger] emitted@[x] && in_use@[y]
                    && !(#[trigger] emitted@[y]) ==>
                    (g.packages@[x].name < g.packages@[y].name
                        || (g.packages@[x].name == g.packages@[y].name && x < y)),
            forall|k: int| 0 <= k < records@.len() ==>
                record_ok(*g, *config, *audits, *imports, m0, #[trigger] records@[k]),
            crate::reach::count_true(emitted@) <= n,
        ensures
            forall|i2: int| 0 <= i2 < n ==>
                (pkg_in_use(*g, i2) <==> exists|k: int|
                    0 <= k < records@.len() && (#[trigger] records@[k]).package as int == i2),
            forall|k1: int, k2: int|
                0 <= k1 < k2 < records@.len() ==>
                    record_before(#[trigger] records@[k1], #[trigger] records@[k2]),
            forall|k: int| 0 <= k < records@.len() ==>
                record_ok(*g, *config, *audits, *imports, m0, #[trigger] records@[k]),
        decreases n - crate::reach::count_true(emitted@),
    {
        // pick the unemitted in-use package with the smallest (name,
        // identity) key
        let mut best: usize = n;
        let mut j: usize = 0;
        while j < n
            invariant
                j <= n,
                n == g.packages@.len(),
                emitted@.len() == n,
                in_use@.len() == n,
                best == n || ((best as int) < j && in_use@[best as int]
                    && !emitted@[best as int]),
                best == n ==> forall|j2: int| 0 <= j2 < j ==>
                    !(in_use@[j2] && !(#[trigger] emitted@[j2])),
                best < n ==> forall|j2: int|
                    0 <= j2 < j && in_use@[j2] && !(#[trigger] emitted@[j2]) ==>
                        (g.packages@[best as int].name < g.packages@[j2].name
                            || (g.packages@[best as int].name == g.packages@[j2].name
                                && best as int <= j2)),
            decreases n - j,
        {
            if in_use[j] && !emitted[j] {
                if best == n {
                    best = j;
                } else if g.packages[j].name < g.packages[best].name {
                    best = j;
                }
            }
            j = j + 1;
        }
        if best == n {
            proof {
                assert forall|i2: int| 0 <= i2 < n implies
                    (pkg_in_use(*g, i2) <==> exists|k: int|
                        0 <= k < records@.len()
                            && (#[trigger] records@[k]).package as int == i2) by {
                    if pkg_in_use(*g, i2) {
                        assert(in_use@[i2]);
                        assert(!(in_use@[i2] && !emitted@[i2]));
                        assert(emitted@[i2]);
                    }
                    if exists|k: int|
                        0 <= k < records@.len()
                            && (#[trigger] records@[k]).package as int == i2 {
                        let k = choose|k: int|
                            0 <= k < records@.len()
                                && (#[trigger] records@[k]).package as int == i2;
                        assert(emitted@[i2]);
                        assert(in_use@[i2]);
                    }
                }
            }
            break;
        }
        let ghost pre = records@;
        let ghost pre_emitted = emitted@;
        let p = &g.packages[best];
        let analysis = solve_package(audits, imports, &table, &default_list,
            &config.exemptions, p.name, p.version, &reqs[best], p.is_first_party);
        let rec = PackageReport {
            package: best,
            name: p.name,
            version: p.version,
            verdict: analysis.verdict,
            required: reqs[best].clone_set(),
            exempted_criteria: analysis.exempted_criteria,
            uncovered_criteria: analysis.uncovered_criteria,
            exemption_removable: analysis.exemption_removable,
            exemption_suggest: analysis.exemption_suggest,
            nearest_certified: analysis.nearest_certified,
            duplicate_full_audit: analysis.duplicate_full_audit,
            unanchored_delta: analysis.unanchored_delta,
            imported_audits: analysis.imported_audits,
            evidence: analysis.evidence,
        };
        records.push(rec);
        proof {
            crate::reach::lemma_count_true_update(pre_emitted, best as int);
        }
        emitted.set(best, true);
        proof {
            crate::reach::lemma_count_true_bounds(emitted@);
            assert(records@[records@.len() - 1].package as int == best as int);
            assert(m0[best as int] == reqs@[best as int].sset());
            assert(record_ok(*g, *config, *audits, *imports, m0,
                records@[records@.len() - 1]));
            // the new record stands after every earlier one
            assert forall|k1: int, k2: int|
                0 <= k1 < k2 < records@.len() implies
                record_before(#[trigger] records@[k1], #[trigger] records@[k2]) by {
                if k2 == records@.len() - 1 {
                    let x = records@[k1].package as int;
                    assert(pre_emitted[x]);
                    assert(g.packages@[x].name < g.packages@[best as int].name
                        || (g.packages@[x].name == g.packages@[best as int].name
                            && x < best as int));
                    assert(records@[k1].name == g.packages@[x].name);
                } else {
                    assert(record_before(pre[k1], pre[k2]));
                }
            }
            // every emitted package still sorts before every unemitted one
            assert forall|x: int, y: int|
                0 <= x < n && 0 <= y < n && #[trigger] emitted@[x] && in_use@[y]
                    && !(#[trigger] emitted@[y]) implies
                (g.packages@[x].name < g.packages@[y].name
                    || (g.packages@[x].name == g.packages@[y].name && x < y)) by {
                if x == best as int {
                    assert(in_use@[y] && !pre_emitted[y]);
                    assert(g.packages@[best as int].name < g.packages@[y].name
                        || (g.packages@[best as int].name == g.packages@[y].name
                            && best as int <= y));
                } else {
                    assert(pre_emitted[x]);
                    assert(!pre_emitted[y]);
                }
            }
            // membership bookkeeping
            assert forall|i2: int| 0 <= i2 < n && #[trigger] emitted@[i2] implies
                exists|k: int|
                    0 <= k < records@.len()
                        && (#[trigger] records@[k]).package as int == i2 by {
                if i2 == best as int {
                    assert(records@[records@.len() - 1].package as int == i2);
                } else {
                    assert(pre_emitted[i2]);
                    let k = choose|k: int|
                        0 <= k < pre.len() && (#[trigger] pre[k]).package as int == i2;
                    assert(records@[k].package as int == i2);
                }
            }
        }
    }
    let rep = summarize(records);
    proof {
        let ni = n as int;
        let m1 = m_of_report(rep, ni);
        // the requirement map the records carry is the propagated one
        assert forall|i2: int| 0 <= i2 < ni implies m1[i2] == m0[i2] by {
            if exists|k: int|
                0 <= k < rep.records@.len() && (#[trigger] rep.records@[k]).package as int == i2 {
                // `req_of_record` reads the record the same choice picks
                let k = choose|k: int|
                    0 <= k < rep.records@.len()
                        && (#[trigger] rep.records@[k]).package as int == i2;
                assert(record_ok(*g, *config, *audits, *imports, m0, rep.records@[k]));
                assert(rep.records@[k].required.sset() == m0[i2]);
                assert(m1[i2] == req_of_record(rep, i2));
                assert(req_of_record(rep, i2) == rep.records@[k].required.sset());
            } else {
                assert(!pkg_in_use(*g, i2));
                assert(!in_use@[i2]);
                assert(m0[i2] == reqs@[i2].sset());
                assert(reqs@[i2].sset() == Set::<int>::empty());
            }
        }
        assert(m1 =~= m0);
        assert forall|i2: int| 0 <= i2 < ni implies
            in_use_seq(*g)[i2] == in_use@[i2] by {}
        assert(in_use_seq(*g) =~= in_use@);
        assert(req_map_ok(crit, config.policy@, g.packages@, g.edges@, in_use_seq(*g), m1));
        assert forall|k: int| 0 <= k < rep.records@.len() implies
            record_ok(*g, *config, *audits, *imports, m1, #[trigger] rep.records@[k]) by {
            assert(record_ok(*g, *config, *audits, *imports, m0, rep.records@[k]));
        }
        assert(report_ok(*g, *config, *audits, *imports, rep));
    }
    Result::Ok(rep)
}

} // verus!
