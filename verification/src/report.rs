//! The report model: one verdict record per package in use, summary counts,
//! and the two recommendation lists.

use vstd::prelude::*;
use crate::criteria::CriteriaSet;
use crate::solver::{EvidenceEntry, Verdict};
use crate::version::Version;

verus! {

/// One package's verdict with its evidence.
#[derive(Debug)]
pub struct PackageReport {
    /// The package's index in the dependency graph.
    pub package: usize,
    pub name: usize,
    pub version: Version,
    pub verdict: Verdict,
    /// The closed criteria set required of the package.
    pub required: CriteriaSet,
    /// The required criteria covered only by an exemption.
    pub exempted_criteria: CriteriaSet,
    /// The required criteria neither certified nor exempted.
    pub uncovered_criteria: CriteriaSet,
    /// An exemption for this version is no longer needed: one exists, yet
    /// audit chains alone already certify every required criterion.
    pub exemption_removable: bool,
    pub exemption_suggest: bool,
    /// For an `Uncertifiable` package: the greatest ledger-mentioned version
    /// below the installed one that audit chains fully certify, if any.
    pub nearest_certified: Option<Version>,
    /// Soft warning: two records fully audit this package's same version
    /// for the same criteria list.
    pub duplicate_full_audit: bool,
    /// Soft warning: some delta audit of this package starts from a version
    /// no criterion can certify.
    pub unanchored_delta: bool,
    /// The imported ledger carries records for this package: its evidence
    /// is not purely local.
    pub imported_audits: bool,
    /// Per certified required criterion, one witness chain of versions: the
    /// first is fully audited, consecutive pairs are delta audits, the last
    /// is the installed version.
    pub evidence: Vec<EvidenceEntry>,
}

/// The aggregated report: records for the packages in use, in package
/// order, with summary counts and recommendations.
#[derive(Debug)]
pub struct Report {
    pub records: Vec<PackageReport>,
    pub n_certified: usize,
    pub n_exempted: usize,
    pub n_uncertifiable: usize,
    pub n_forbidden: usize,
    /// Packages needing a new audit: those with verdict `Uncertifiable`.
    pub needs_audit: Vec<usize>,
    /// Packages whose exemption the resolver computed as no longer needed.
    pub removable_exemptions: Vec<usize>,
}

/// How many records carry verdict `v`.
pub open spec fn count_verdict(s: Seq<PackageReport>, v: Verdict) -> int
    decreases s.len(),
{
    if s.len() == 0 {
        0
    } else {
        count_verdict(s.drop_last(), v) + if s.last().verdict == v {
            1int
        } else {
            0int
        }
    }
}

/// The packages of the records with verdict `Uncertifiable`, in order.
pub open spec fn uncertifiable_list(s: Seq<PackageReport>) -> Seq<usize>
    decreases s.len(),
{
    if s.len() == 0 {
        Seq::empty()
    } else if s.last().verdict == Verdict::Uncertifiable {
        uncertifiable_list(s.drop_last()).push(s.last().package)
    } else {
        uncertifiable_list(s.drop_last())
    }
}

/// The packages of the records flagged with a removable exemption, in order.
pub open spec fn removable_list(s: Seq<PackageReport>) -> Seq<usize>
    decreases s.len(),
{
    if s.len() == 0 {
        Seq::empty()
    } else if s.last().exemption_removable {
        removable_list(s.drop_last()).push(s.last().package)
    } else {
        removable_list(s.drop_last())
    }
}

/// Builds the summary parts of the report from finished records.
pub fn summarize(records: Vec<PackageReport>) -> (r: Report)
    ensures
        r.records == records,
        r.n_certified == count_verdict(records@, Verdict::Certified),
        r.n_exempted == count_verdict(records@, Verdict::Exempted),
        r.n_uncertifiable == count_verdict(records@, Verdict::Uncertifiable),
        r.n_forbidden == count_verdict(records@, Verdict::Forbidden),
        r.needs_audit@ == uncertifiable_list(records@),
        r.removable_exemptions@ == removable_list(records@),
{
    let mut n_certified: usize = 0;
    let mut n_exempted: usize = 0;
    let mut n_uncertifiable: usize = 0;
    let mut n_forbidden: usize = 0;
    let mut needs_audit: Vec<usize> = Vec::new();
    let mut removable_exemptions: Vec<usize> = Vec::new();
    let mut k: usize = 0;
    proof {
        assert(records@.take(0) =~= Seq::<PackageReport>::empty());
    }
    while k < records.len()
        invariant
            k <= records@.len(),
            n_certified == count_verdict(records@.take(k as int), Verdict::Certified),
            n_exempted == count_verdict(records@.take(k as int), Verdict::Exempted),
            n_uncertifiable == count_verdict(records@.take(k as int), Verdict::Uncertifiable),
            n_forbidden == count_verdict(records@.take(k as int), Verdict::Forbidden),
            needs_audit@ == uncertifiable_list(records@.take(k as int)),
            removable_exemptions@ == removable_list(records@.take(k as int)),
            n_certified + n_exempted + n_uncertifiable + n_forbidden <= k,
        decreases records@.len() - k,
    {
        proof {
            assert(records@.take(k as int + 1).drop_last() =~= records@.take(k as int));
            assert(records@.take(k as int + 1).last() == records@[k as int]);
        }
        let rec = &records[k];
        match rec.verdict {
            Verdict::Certified => { n_certified = n_certified + 1; },
            Verdict::Exempted => { n_exempted = n_exempted + 1; },
            Verdict::Uncertifiable => { n_uncertifiable = n_uncertifiable + 1; },
            Verdict::Forbidden => { n_forbidden = n_forbidden + 1; },
        }
        if matches!(rec.verdict, Verdict::Uncertifiable) {
            needs_audit.push(rec.package);
        }
        if rec.exemption_removable {
            removable_exemptions.push(rec.package);
        }
        k = k + 1;
    }
    proof {
        assert(records@.take(records@.len() as int) =~= records@);
    }
    Report {
        records,
        n_certified,
        n_exempted,
        n_uncertifiable,
        n_forbidden,
        needs_audit,
        removable_exemptions,
    }
}

} // verus!
