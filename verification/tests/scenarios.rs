//! End-to-end scenarios on a small dependency graph: a first-party root
//! depending on a first-party package, which depends on two third-party
//! packages, one of which has a further third-party dependency.

use vet_resolver::criteria::CriteriaEntry;
use vet_resolver::graph::{DepEdge, DepGraph, DepKind, Package};
use vet_resolver::ledger::{
    AuditKind, AuditRecord, AuditsFile, ConfigFile, Exemption, ImportsFile,
};
use vet_resolver::resolve;
use vet_resolver::solver::Verdict;
use vet_resolver::version::{Version, VersionReq};

const DEFAULT_VER: u64 = 10;

// package name identifiers
const ROOT_PACKAGE: usize = 0;
const FIRST_PARTY: usize = 1;
const THIRD_PARTY1: usize = 2;
const THIRD_PARTY2: usize = 3;
const TRANSITIVE_THIRD_PARTY1: usize = 4;

fn ver(major: u64) -> Version {
    Version::new(major, 0, 0)
}

fn simple_graph() -> DepGraph {
    let mk = |name: usize, first_party: bool, root: bool| Package {
        name,
        version: ver(DEFAULT_VER),
        is_first_party: first_party,
        is_root: root,
    };
    DepGraph {
        packages: vec![
            mk(ROOT_PACKAGE, true, true),
            mk(FIRST_PARTY, true, false),
            mk(THIRD_PARTY1, false, false),
            mk(THIRD_PARTY2, false, false),
            mk(TRANSITIVE_THIRD_PARTY1, false, false),
        ],
        edges: vec![
            DepEdge { from: 0, to: 1, kind: DepKind::Normal },
            DepEdge { from: 1, to: 2, kind: DepKind::Normal },
            DepEdge { from: 1, to: 3, kind: DepKind::Normal },
            DepEdge { from: 2, to: 4, kind: DepKind::Normal },
        ],
    }
}

/// One criterion, marked default, implying nothing.
fn files_no_unaudited() -> (ConfigFile, AuditsFile, ImportsFile) {
    let config = ConfigFile { exemptions: vec![], policy: vec![] };
    let audits = AuditsFile {
        criteria: vec![CriteriaEntry { implies: vec![], is_default: true }],
        audits: vec![],
    };
    let imports = ImportsFile { audits: vec![] };
    (config, audits, imports)
}

/// Every third-party version exempted.
fn files_inited() -> (ConfigFile, AuditsFile, ImportsFile) {
    let (mut config, audits, imports) = files_no_unaudited();
    for name in [THIRD_PARTY1, THIRD_PARTY2, TRANSITIVE_THIRD_PARTY1] {
        config.exemptions.push(Exemption {
            package: name,
            version: ver(DEFAULT_VER),
            criteria: None,
            suggest: true,
        });
    }
    (config, audits, imports)
}

/// Every third-party version fully audited for the default criteria.
fn files_full_audited() -> (ConfigFile, AuditsFile, ImportsFile) {
    let (config, mut audits, imports) = files_no_unaudited();
    for name in [THIRD_PARTY1, THIRD_PARTY2, TRANSITIVE_THIRD_PARTY1] {
        audits.audits.push(AuditRecord {
            package: name,
            kind: AuditKind::Full { version: ver(DEFAULT_VER) },
            criteria: vec![0],
        });
    }
    (config, audits, imports)
}

fn verdict_of(report: &vet_resolver::report::Report, package: usize) -> Verdict {
    for rec in &report.records {
        if rec.package == package {
            return rec.verdict;
        }
    }
    panic!("no record for package {}", package);
}

#[test]
fn mock_simple_init() {
    let graph = simple_graph();
    let (config, audits, imports) = files_inited();
    let report = resolve(&graph, &config, &audits, &imports).unwrap();
    assert_eq!(report.records.len(), 5);
    assert_eq!(verdict_of(&report, 0), Verdict::Certified);
    assert_eq!(verdict_of(&report, 1), Verdict::Certified);
    assert_eq!(verdict_of(&report, 2), Verdict::Exempted);
    assert_eq!(verdict_of(&report, 3), Verdict::Exempted);
    assert_eq!(verdict_of(&report, 4), Verdict::Exempted);
    assert_eq!(report.n_certified, 2);
    assert_eq!(report.n_exempted, 3);
    assert_eq!(report.n_uncertifiable, 0);
    assert_eq!(report.n_forbidden, 0);
}

#[test]
fn mock_simple_no_unaudited() {
    let graph = simple_graph();
    let (config, audits, imports) = files_no_unaudited();
    let report = resolve(&graph, &config, &audits, &imports).unwrap();
    assert_eq!(verdict_of(&report, 0), Verdict::Certified);
    assert_eq!(verdict_of(&report, 1), Verdict::Certified);
    assert_eq!(verdict_of(&report, 2), Verdict::Uncertifiable);
    assert_eq!(verdict_of(&report, 3), Verdict::Uncertifiable);
    assert_eq!(verdict_of(&report, 4), Verdict::Uncertifiable);
    assert_eq!(report.needs_audit, vec![2, 3, 4]);
}

#[test]
fn mock_simple_full_audited() {
    let graph = simple_graph();
    let (config, audits, imports) = files_full_audited();
    let report = resolve(&graph, &config, &audits, &imports).unwrap();
    for pkg in 0..5 {
        assert_eq!(verdict_of(&report, pkg), Verdict::Certified);
    }
    assert_eq!(report.n_certified, 5);
    assert!(report.needs_audit.is_empty());
}

#[test]
fn mock_simple_forbidden_unaudited() {
    let graph = simple_graph();
    let (config, mut audits, imports) = files_inited();
    audits.audits.push(AuditRecord {
        package: THIRD_PARTY1,
        kind: AuditKind::Violation { req: VersionReq::exact(ver(DEFAULT_VER)) },
        criteria: vec![0],
    });
    let report = resolve(&graph, &config, &audits, &imports).unwrap();
    assert_eq!(verdict_of(&report, 2), Verdict::Forbidden);
    assert_eq!(verdict_of(&report, 0), Verdict::Certified);
    assert_eq!(verdict_of(&report, 1), Verdict::Certified);
    assert_eq!(verdict_of(&report, 3), Verdict::Exempted);
    assert_eq!(verdict_of(&report, 4), Verdict::Exempted);
    assert_eq!(report.n_forbidden, 1);
}

/// A chain of delta audits anchored at a full audit certifies the installed
/// version.
#[test]
fn delta_chain_certifies() {
    let mut graph = simple_graph();
    graph.packages[2].version = ver(12);
    let (config, mut audits, imports) = files_full_audited();
    // third-party1 runs at 12.0.0: full audit at 10, deltas 10 -> 11 -> 12
    audits.audits.push(AuditRecord {
        package: THIRD_PARTY1,
        kind: AuditKind::Delta { from: ver(10), to: ver(11) },
        criteria: vec![0],
    });
    audits.audits.push(AuditRecord {
        package: THIRD_PARTY1,
        kind: AuditKind::Delta { from: ver(11), to: ver(12) },
        criteria: vec![0],
    });
    let report = resolve(&graph, &config, &audits, &imports).unwrap();
    assert_eq!(verdict_of(&report, 2), Verdict::Certified);
    // the record carries the witness chain for the one required criterion
    let rec = report.records.iter().find(|r| r.package == 2).unwrap();
    assert_eq!(rec.evidence.len(), 1);
    assert_eq!(rec.evidence[0].criterion, 0);
    assert_eq!(rec.evidence[0].chain, vec![ver(10), ver(11), ver(12)]);
}

/// A cycle among the delta audits of one package is legal data and resolves
/// in finite steps.
#[test]
fn delta_cycle_terminates() {
    let mut graph = simple_graph();
    graph.packages[2].version = ver(11);
    let (config, mut audits, imports) = files_full_audited();
    // deltas 10 -> 11 and 11 -> 10 form a cycle; 10 is fully audited
    audits.audits.push(AuditRecord {
        package: THIRD_PARTY1,
        kind: AuditKind::Delta { from: ver(10), to: ver(11) },
        criteria: vec![0],
    });
    audits.audits.push(AuditRecord {
        package: THIRD_PARTY1,
        kind: AuditKind::Delta { from: ver(11), to: ver(10) },
        criteria: vec![0],
    });
    let report = resolve(&graph, &config, &audits, &imports).unwrap();
    assert_eq!(verdict_of(&report, 2), Verdict::Certified);
}

/// For an uncertifiable package the report suggests the greatest fully
/// certified version below the installed one.
#[test]
fn nearest_certified_version_reported() {
    let mut graph = simple_graph();
    graph.packages[2].version = ver(20);
    let (config, mut audits, imports) = files_full_audited();
    // 10 is fully audited, the chain reaches 11, but 20 stays unaudited
    audits.audits.push(AuditRecord {
        package: THIRD_PARTY1,
        kind: AuditKind::Delta { from: ver(10), to: ver(11) },
        criteria: vec![0],
    });
    let report = resolve(&graph, &config, &audits, &imports).unwrap();
    let rec = report.records.iter().find(|r| r.package == 2).unwrap();
    assert_eq!(rec.verdict, Verdict::Uncertifiable);
    assert_eq!(rec.nearest_certified, Some(ver(11)));
}

/// A delta chain that never reaches the installed version does not certify
/// it, even with a cycle in the chain.
#[test]
fn delta_cycle_unreachable_version() {
    let mut graph = simple_graph();
    graph.packages[2].version = ver(20);
    let (config, mut audits, imports) = files_full_audited();
    audits.audits.push(AuditRecord {
        package: THIRD_PARTY1,
        kind: AuditKind::Delta { from: ver(10), to: ver(11) },
        criteria: vec![0],
    });
    audits.audits.push(AuditRecord {
        package: THIRD_PARTY1,
        kind: AuditKind::Delta { from: ver(11), to: ver(10) },
        criteria: vec![0],
    });
    let report = resolve(&graph, &config, &audits, &imports).unwrap();
    assert_eq!(verdict_of(&report, 2), Verdict::Uncertifiable);
}

/// A package no first-party root reaches is excluded from the report.
#[test]
fn unreachable_package_not_reported() {
    let mut graph = simple_graph();
    graph.packages.push(Package {
        name: 9,
        version: ver(DEFAULT_VER),
        is_first_party: false,
        is_root: false,
    });
    let (config, audits, imports) = files_full_audited();
    let report = resolve(&graph, &config, &audits, &imports).unwrap();
    assert_eq!(report.records.len(), 5);
    assert!(report.records.iter().all(|r| r.package != 5));
}

/// Records come back sorted by package name (the identity breaks ties).
#[test]
fn records_in_package_order() {
    let graph = simple_graph();
    let (config, audits, imports) = files_inited();
    let report = resolve(&graph, &config, &audits, &imports).unwrap();
    let packages: Vec<usize> = report.records.iter().map(|r| r.package).collect();
    assert_eq!(packages, vec![0, 1, 2, 3, 4]);
}

/// Name order wins over graph order in the report.
#[test]
fn records_sorted_by_name_not_index() {
    let mut graph = simple_graph();
    // swap the two third-party names: package 2 is now named 3 and package
    // 3 named 2, so name order reverses their report order
    graph.packages[2].name = THIRD_PARTY2;
    graph.packages[3].name = THIRD_PARTY1;
    let (config, audits, imports) = files_no_unaudited();
    let report = resolve(&graph, &config, &audits, &imports).unwrap();
    let packages: Vec<usize> = report.records.iter().map(|r| r.package).collect();
    assert_eq!(packages, vec![0, 1, 3, 2, 4]);
}

/// An audit record in an imported ledger counts like a local one.
#[test]
fn imported_audit_counts() {
    let graph = simple_graph();
    let (config, mut audits, mut imports) = files_full_audited();
    // move the audit of transitive-third-party1 into the imported ledger
    let moved = audits
        .audits
        .iter()
        .position(|r| r.package == TRANSITIVE_THIRD_PARTY1)
        .unwrap();
    imports.audits.push(audits.audits.remove(moved));
    let report = resolve(&graph, &config, &audits, &imports).unwrap();
    assert_eq!(verdict_of(&report, 4), Verdict::Certified);
    // the report tells imported evidence apart from local evidence
    let rec4 = report.records.iter().find(|r| r.package == 4).unwrap();
    assert!(rec4.imported_audits);
    let rec2 = report.records.iter().find(|r| r.package == 2).unwrap();
    assert!(!rec2.imported_audits);
}
