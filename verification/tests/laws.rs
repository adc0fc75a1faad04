//! Concrete checks of the engine's laws and error taxonomy: closure
//! idempotence, violation absolutism, chain monotonicity, exemption
//! weakness, the configuration errors, and policy override precedence.

use vet_resolver::criteria::{build_closure_table, CriteriaEntry, CriteriaSet};
use vet_resolver::graph::{DepEdge, DepGraph, DepKind, Package};
use vet_resolver::ledger::{
    AuditKind, AuditRecord, AuditsFile, ConfigFile, DepCriteria, Exemption, ImportsFile,
    PolicyEntry,
};
use vet_resolver::resolve;
use vet_resolver::solver::Verdict;
use vet_resolver::version::{Version, VersionOp, VersionPred, VersionReq};
use vet_resolver::ConfigError;

fn ver(major: u64) -> Version {
    Version::new(major, 0, 0)
}

/// A root depending on one third-party package.
fn tiny_graph() -> DepGraph {
    DepGraph {
        packages: vec![
            Package { name: 0, version: ver(1), is_first_party: true, is_root: true },
            Package { name: 1, version: ver(1), is_first_party: false, is_root: false },
        ],
        edges: vec![DepEdge { from: 0, to: 1, kind: DepKind::Normal }],
    }
}

fn one_criterion() -> Vec<CriteriaEntry> {
    vec![CriteriaEntry { implies: vec![], is_default: true }]
}

fn verdict_of(report: &vet_resolver::report::Report, package: usize) -> Verdict {
    report
        .records
        .iter()
        .find(|r| r.package == package)
        .expect("record missing")
        .verdict
}

/// Closure idempotence on concrete values: closing the closure of a set
/// adds nothing. Criteria: 0 implies 1, 1 implies 2.
#[test]
fn closure_idempotent_concrete() {
    let entries = vec![
        CriteriaEntry { implies: vec![1], is_default: false },
        CriteriaEntry { implies: vec![2], is_default: false },
        CriteriaEntry { implies: vec![], is_default: true },
    ];
    let table = build_closure_table(&entries);
    assert_eq!(table[0].bits, vec![true, true, true]);
    assert_eq!(table[1].bits, vec![false, true, true]);
    assert_eq!(table[2].bits, vec![false, false, true]);
    // close the closure of {0}: the union of the rows of its members
    let mut twice = CriteriaSet::empty(3);
    twice.union_with(&table[0]);
    twice.union_with(&table[1]);
    twice.union_with(&table[2]);
    assert_eq!(twice.bits, table[0].bits);
}

/// An audit whose criteria transitively imply the required criterion
/// certifies the package.
#[test]
fn closure_reaches_required_criterion() {
    let graph = tiny_graph();
    let audits = AuditsFile {
        criteria: vec![
            CriteriaEntry { implies: vec![1], is_default: false },
            CriteriaEntry { implies: vec![2], is_default: false },
            CriteriaEntry { implies: vec![], is_default: true },
        ],
        audits: vec![AuditRecord {
            package: 1,
            kind: AuditKind::Full { version: ver(1) },
            criteria: vec![0],
        }],
    };
    let config = ConfigFile { exemptions: vec![], policy: vec![] };
    let report = resolve(&graph, &config, &audits, &ImportsFile { audits: vec![] }).unwrap();
    assert_eq!(verdict_of(&report, 1), Verdict::Certified);
}

/// Violation absolutism: a matching violation forbids the version although a
/// full audit and an exemption both cover the same criteria.
#[test]
fn violation_overrides_audit_and_exemption() {
    let graph = tiny_graph();
    let audits = AuditsFile {
        criteria: one_criterion(),
        audits: vec![
            AuditRecord {
                package: 1,
                kind: AuditKind::Full { version: ver(1) },
                criteria: vec![0],
            },
            AuditRecord {
                package: 1,
                kind: AuditKind::Violation { req: VersionReq::exact(ver(1)) },
                criteria: vec![0],
            },
        ],
    };
    let config = ConfigFile {
        exemptions: vec![Exemption { package: 1, version: ver(1), criteria: None, suggest: false }],
        policy: vec![],
    };
    let report = resolve(&graph, &config, &audits, &ImportsFile { audits: vec![] }).unwrap();
    assert_eq!(verdict_of(&report, 1), Verdict::Forbidden);
}

/// A violation whose range does not match the installed version changes
/// nothing.
#[test]
fn violation_range_must_match() {
    let graph = tiny_graph();
    let audits = AuditsFile {
        criteria: one_criterion(),
        audits: vec![
            AuditRecord {
                package: 1,
                kind: AuditKind::Full { version: ver(1) },
                criteria: vec![0],
            },
            AuditRecord {
                package: 1,
                kind: AuditKind::Violation {
                    req: VersionReq {
                        preds: vec![VersionPred { op: VersionOp::GreaterEq, v: ver(2) }],
                    },
                },
                criteria: vec![0],
            },
        ],
    };
    let config = ConfigFile { exemptions: vec![], policy: vec![] };
    let report = resolve(&graph, &config, &audits, &ImportsFile { audits: vec![] }).unwrap();
    assert_eq!(verdict_of(&report, 1), Verdict::Certified);
}

/// Chain monotonicity on concrete values: adding a full audit turns
/// Uncertifiable into Certified and never downgrades the others.
#[test]
fn adding_audit_never_downgrades() {
    let graph = tiny_graph();
    let mut audits = AuditsFile { criteria: one_criterion(), audits: vec![] };
    let config = ConfigFile { exemptions: vec![], policy: vec![] };
    let imports = ImportsFile { audits: vec![] };
    let before = resolve(&graph, &config, &audits, &imports).unwrap();
    assert_eq!(verdict_of(&before, 1), Verdict::Uncertifiable);
    audits.audits.push(AuditRecord {
        package: 1,
        kind: AuditKind::Full { version: ver(1) },
        criteria: vec![0],
    });
    let after = resolve(&graph, &config, &audits, &imports).unwrap();
    assert_eq!(verdict_of(&after, 1), Verdict::Certified);
    assert_eq!(verdict_of(&after, 0), Verdict::Certified);
}

/// Exemption weakness: a package certified by audits alone stays Certified,
/// not merely Exempted, when an exemption for it also exists; the resolver
/// flags that exemption as no longer needed.
#[test]
fn exemption_never_downgrades() {
    let graph = tiny_graph();
    let audits = AuditsFile {
        criteria: one_criterion(),
        audits: vec![AuditRecord {
            package: 1,
            kind: AuditKind::Full { version: ver(1) },
            criteria: vec![0],
        }],
    };
    let config = ConfigFile {
        exemptions: vec![Exemption { package: 1, version: ver(1), criteria: None, suggest: true }],
        policy: vec![],
    };
    let report = resolve(&graph, &config, &audits, &ImportsFile { audits: vec![] }).unwrap();
    assert_eq!(verdict_of(&report, 1), Verdict::Certified);
    assert_eq!(report.removable_exemptions, vec![1]);
    let rec = report.records.iter().find(|r| r.package == 1).unwrap();
    assert!(rec.exemption_removable);
    assert!(rec.exemption_suggest);
}

/// An exemption with an explicit criteria list covers only what that list
/// implies.
#[test]
fn exemption_with_explicit_criteria() {
    let graph = tiny_graph();
    let audits = AuditsFile {
        criteria: vec![
            CriteriaEntry { implies: vec![], is_default: true },
            CriteriaEntry { implies: vec![], is_default: false },
        ],
        audits: vec![],
    };
    // the exemption names criterion 1, but criterion 0 is required
    let config = ConfigFile {
        exemptions: vec![
            Exemption { package: 1, version: ver(1), criteria: Some(vec![1]), suggest: false },
        ],
        policy: vec![],
    };
    let report = resolve(&graph, &config, &audits, &ImportsFile { audits: vec![] }).unwrap();
    assert_eq!(verdict_of(&report, 1), Verdict::Uncertifiable);
}

/// A dependency-criteria override replaces the inherited requirement.
#[test]
fn dependency_criteria_override_wins() {
    let graph = tiny_graph();
    let audits = AuditsFile {
        criteria: vec![
            CriteriaEntry { implies: vec![], is_default: true },
            CriteriaEntry { implies: vec![], is_default: false },
        ],
        // the dependency is audited only for criterion 1
        audits: vec![AuditRecord {
            package: 1,
            kind: AuditKind::Full { version: ver(1) },
            criteria: vec![1],
        }],
    };
    let config = ConfigFile {
        exemptions: vec![],
        policy: vec![PolicyEntry {
            name: 0,
            own_criteria: None,
            dependency_criteria: vec![DepCriteria { name: 1, criteria: vec![1] }],
            build_and_dev_criteria: None,
        }],
    };
    let report = resolve(&graph, &config, &audits, &ImportsFile { audits: vec![] }).unwrap();
    assert_eq!(verdict_of(&report, 1), Verdict::Certified);
}

/// Two full audits of the same version for the same criteria list raise
/// the duplicate warning; a different criteria list does not.
#[test]
fn duplicate_full_audit_warns() {
    let graph = tiny_graph();
    let mut audits = AuditsFile {
        criteria: vec![
            CriteriaEntry { implies: vec![], is_default: true },
            CriteriaEntry { implies: vec![], is_default: false },
        ],
        audits: vec![
            AuditRecord {
                package: 1,
                kind: AuditKind::Full { version: ver(1) },
                criteria: vec![0],
            },
            AuditRecord {
                package: 1,
                kind: AuditKind::Full { version: ver(1) },
                criteria: vec![0],
            },
        ],
    };
    let config = ConfigFile { exemptions: vec![], policy: vec![] };
    let imports = ImportsFile { audits: vec![] };
    let report = resolve(&graph, &config, &audits, &imports).unwrap();
    let rec = report.records.iter().find(|r| r.package == 1).unwrap();
    assert!(rec.duplicate_full_audit);
    let root = report.records.iter().find(|r| r.package == 0).unwrap();
    assert!(!root.duplicate_full_audit);
    // a second audit for different criteria is no duplicate
    audits.audits[1].criteria = vec![1];
    let report2 = resolve(&graph, &config, &audits, &imports).unwrap();
    let rec2 = report2.records.iter().find(|r| r.package == 1).unwrap();
    assert!(!rec2.duplicate_full_audit);
}

/// A delta audit whose source version no criterion can certify raises the
/// unanchored warning; an anchored chain does not.
#[test]
fn unanchored_delta_warns() {
    let graph = tiny_graph();
    let mut audits = AuditsFile {
        criteria: one_criterion(),
        audits: vec![
            AuditRecord {
                package: 1,
                kind: AuditKind::Full { version: ver(1) },
                criteria: vec![0],
            },
            AuditRecord {
                package: 1,
                kind: AuditKind::Delta { from: ver(5), to: ver(6) },
                criteria: vec![0],
            },
        ],
    };
    let config = ConfigFile { exemptions: vec![], policy: vec![] };
    let imports = ImportsFile { audits: vec![] };
    let report = resolve(&graph, &config, &audits, &imports).unwrap();
    let rec = report.records.iter().find(|r| r.package == 1).unwrap();
    assert_eq!(rec.verdict, Verdict::Certified);
    assert!(rec.unanchored_delta);
    // anchoring the delta at the audited version clears the warning
    audits.audits[1].kind = AuditKind::Delta { from: ver(1), to: ver(6) };
    let report2 = resolve(&graph, &config, &audits, &imports).unwrap();
    let rec2 = report2.records.iter().find(|r| r.package == 1).unwrap();
    assert!(!rec2.unanchored_delta);
}

/// A cyclic criteria implication graph is a fatal configuration error.
#[test]
fn criteria_cycle_is_fatal() {
    let graph = tiny_graph();
    let audits = AuditsFile {
        criteria: vec![
            CriteriaEntry { implies: vec![1], is_default: true },
            CriteriaEntry { implies: vec![0], is_default: false },
        ],
        audits: vec![],
    };
    let config = ConfigFile { exemptions: vec![], policy: vec![] };
    let r = resolve(&graph, &config, &audits, &ImportsFile { audits: vec![] });
    assert_eq!(r.unwrap_err(), ConfigError::CriteriaCycle);
}

/// An undefined criteria identifier is a fatal configuration error.
#[test]
fn undefined_criteria_is_fatal() {
    let graph = tiny_graph();
    let audits = AuditsFile {
        criteria: one_criterion(),
        audits: vec![AuditRecord {
            package: 1,
            kind: AuditKind::Full { version: ver(1) },
            criteria: vec![7],
        }],
    };
    let config = ConfigFile { exemptions: vec![], policy: vec![] };
    let r = resolve(&graph, &config, &audits, &ImportsFile { audits: vec![] });
    assert_eq!(r.unwrap_err(), ConfigError::UndefinedCriteria);
}

/// A dependency-criteria override naming a package that is no dependency is
/// a fatal configuration error.
#[test]
fn unknown_override_target_is_fatal() {
    let graph = tiny_graph();
    let audits = AuditsFile { criteria: one_criterion(), audits: vec![] };
    let config = ConfigFile {
        exemptions: vec![],
        policy: vec![PolicyEntry {
            name: 0,
            own_criteria: None,
            dependency_criteria: vec![DepCriteria { name: 9, criteria: vec![0] }],
            build_and_dev_criteria: None,
        }],
    };
    let r = resolve(&graph, &config, &audits, &ImportsFile { audits: vec![] });
    assert_eq!(r.unwrap_err(), ConfigError::UnknownDependencyOverride);
}

/// A cyclic dependency graph is rejected rather than looped over.
#[test]
fn dependency_cycle_is_fatal() {
    let mut graph = tiny_graph();
    graph.edges.push(DepEdge { from: 1, to: 0, kind: DepKind::Normal });
    let audits = AuditsFile { criteria: one_criterion(), audits: vec![] };
    let config = ConfigFile { exemptions: vec![], policy: vec![] };
    let r = resolve(&graph, &config, &audits, &ImportsFile { audits: vec![] });
    assert_eq!(r.unwrap_err(), ConfigError::DependencyCycle);
}

/// Version order and requirement matching on concrete values.
#[test]
fn version_order_and_requirements() {
    let a = Version::new(1, 2, 3);
    let b = Version::new(1, 3, 0);
    assert!(a.lt(&b));
    assert!(!b.lt(&a));
    assert!(!a.lt(&a));
    let req = VersionReq {
        preds: vec![
            VersionPred { op: VersionOp::GreaterEq, v: Version::new(1, 0, 0) },
            VersionPred { op: VersionOp::Less, v: Version::new(2, 0, 0) },
        ],
    };
    assert!(req.matches(&Version::new(1, 5, 0)));
    assert!(!req.matches(&Version::new(2, 0, 0)));
    assert!(VersionReq::any().matches(&Version::new(9, 9, 9)));
}
