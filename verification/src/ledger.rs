//! The audit ledger model: audit records (full audits, delta audits,
//! violations), exemptions, policies, and the configuration documents that
//! carry them.
//!
//! A record's criteria list is interpreted through the implication closure:
//! a record covers criterion `c` when some listed criterion transitively
//! implies `c`. Imported ledgers are a second, read-only record list merged
//! with the local one for every question the resolver asks.

use vstd::prelude::*;
use crate::criteria::{
    closure_of, closure_table_ok, default_set, ids_set, ids_valid, implies_star, CriteriaEntry,
    CriteriaSet,
};
use crate::version::{req_matches, Version, VersionReq};

verus! {

/// The three kinds of audit record.
pub enum AuditKind {
    /// Certifies one version directly.
    Full { version: Version },
    /// Certifies the transition between two versions; only meaningful as an
    /// edge of the audit-chain graph.
    Delta { from: Version, to: Version },
    /// Marks the versions matching the requirement as forbidden.
    Violation { req: VersionReq },
}

/// One audit record, scoped to a package name and a criteria list.
pub struct AuditRecord {
    pub package: usize,
    pub kind: AuditKind,
    pub criteria: Vec<usize>,
}

/// The local audit ledger: the criteria definitions and the audit records.
pub struct AuditsFile {
    pub criteria: Vec<CriteriaEntry>,
    pub audits: Vec<AuditRecord>,
}

/// An imported, read-only ledger: further audit records, trusted wholesale.
pub struct ImportsFile {
    pub audits: Vec<AuditRecord>,
}

/// A provisional, unverified pass for one version of one package.
pub struct Exemption {
    pub package: usize,
    pub version: Version,
    /// Defaults to the default-marked criteria when absent.
    pub criteria: Option<Vec<usize>>,
    pub suggest: bool,
}

/// One dependency-criteria override inside a policy.
pub struct DepCriteria {
    pub name: usize,
    pub criteria: Vec<usize>,
}

/// A per-package policy override.
pub struct PolicyEntry {
    pub name: usize,
    pub own_criteria: Option<Vec<usize>>,
    pub dependency_criteria: Vec<DepCriteria>,
    pub build_and_dev_criteria: Option<Vec<usize>>,
}

/// The configuration document: exemptions and policies.
pub struct ConfigFile {
    pub exemptions: Vec<Exemption>,
    pub policy: Vec<PolicyEntry>,
}

/// The merged record list: local records first, imported records after.
pub open spec fn merged_records(audits: AuditsFile, imports: ImportsFile) -> Seq<AuditRecord> {
    audits.audits@ + imports.audits@
}

/// A criteria list covers criterion `c`: some listed criterion transitively
/// implies `c`.
pub open spec fn covers(crit: Seq<CriteriaEntry>, ids: Seq<usize>, c: int) -> bool {
    closure_of(crit, ids_set(ids)).contains(c)
}

/// The criteria an exemption stands for, its closure taken: the listed ones,
/// or the default-marked ones when none are listed.
pub open spec fn exemption_covers(crit: Seq<CriteriaEntry>, ex: Exemption, c: int) -> bool {
    match ex.criteria {
        Option::Some(ids) => covers(crit, ids@, c),
        Option::None => closure_of(crit, default_set(crit)).contains(c),
    }
}

/// Record `x` of the merged list is a full audit of `(name, w)` covering `c`.
pub open spec fn rec_full(crit: Seq<CriteriaEntry>, r: AuditRecord, name: usize, c: int, w: Version) -> bool {
    &&& r.package == name
    &&& r.kind matches AuditKind::Full { version } && version == w
    &&& covers(crit, r.criteria@, c)
}

/// Some record is a full audit of `(name, w)` covering `c`.
pub open spec fn full_certifies(crit: Seq<CriteriaEntry>, recs: Seq<AuditRecord>, name: usize, c: int, w: Version) -> bool {
    exists|x: int| 0 <= x < recs.len() && rec_full(crit, #[trigger] recs[x], name, c, w)
}

/// Record is a delta audit `w1 -> w2` for `name` covering `c`.
pub open spec fn rec_delta(crit: Seq<CriteriaEntry>, r: AuditRecord, name: usize, c: int, w1: Version, w2: Version) -> bool {
    &&& r.package == name
    &&& r.kind matches AuditKind::Delta { from, to } && from == w1 && to == w2
    &&& covers(crit, r.criteria@, c)
}

/// Some record is a delta audit `w1 -> w2` for `name` covering `c`.
pub open spec fn delta_edge(crit: Seq<CriteriaEntry>, recs: Seq<AuditRecord>, name: usize, c: int, w1: Version, w2: Version) -> bool {
    exists|x: int| 0 <= x < recs.len() && rec_delta(crit, #[trigger] recs[x], name, c, w1, w2)
}

/// A chain of delta audits for `name` covering `c`.
pub open spec fn delta_path(crit: Seq<CriteriaEntry>, recs: Seq<AuditRecord>, name: usize, c: int, p: Seq<Version>) -> bool {
    &&& p.len() >= 1
    &&& forall|i: int| 0 <= i < p.len() - 1 ==>
        delta_edge(crit, recs, name, c, #[trigger] p[i], p[i + 1])
}

/// Version `v` of `name` is certified for criterion `c`: a chain of delta
/// audits covering `c` leads from some fully audited version to `v` (the
/// chain may be the single version `v` itself).
pub open spec fn certified_for(crit: Seq<CriteriaEntry>, recs: Seq<AuditRecord>, name: usize, c: int, v: Version) -> bool {
    exists|p: Seq<Version>|
        delta_path(crit, recs, name, c, p) && full_certifies(crit, recs, name, c, p[0])
            && p[p.len() - 1] == v
}

/// An exemption lets `(name, v)` pass for criterion `c`.
pub open spec fn exempted_for(crit: Seq<CriteriaEntry>, exs: Seq<Exemption>, name: usize, c: int, v: Version) -> bool {
    exists|x: int| 0 <= x < exs.len() && (#[trigger] exs[x]).package == name
        && exs[x].version == v && exemption_covers(crit, exs[x], c)
}

/// Some exemption names `(name, v)`, whatever criteria it carries.
pub open spec fn exemption_present(exs: Seq<Exemption>, name: usize, v: Version) -> bool {
    exists|x: int| 0 <= x < exs.len() && (#[trigger] exs[x]).package == name
        && exs[x].version == v
}

/// Some exemption for `(name, v)` carries the `suggest` hint.
pub open spec fn exemption_suggested(exs: Seq<Exemption>, name: usize, v: Version) -> bool {
    exists|x: int| 0 <= x < exs.len() && (#[trigger] exs[x]).package == name
        && exs[x].version == v && exs[x].suggest
}

/// A violation record forbids `(name, v)` for some required criterion in `R`.
pub open spec fn violated(crit: Seq<CriteriaEntry>, recs: Seq<AuditRecord>, name: usize, v: Version, req: Set<int>) -> bool {
    exists|x: int, d: int|
        0 <= x < recs.len() && (#[trigger] recs[x]).package == name
            && (recs[x].kind matches AuditKind::Violation { req: vr } && req_matches(vr, v))
            && #[trigger] req.contains(d) && covers(crit, recs[x].criteria@, d)
}

/// Record `r` is a full audit of `name` at version `w` with exactly the
/// criteria list `cl`.
pub open spec fn rec_full_same(r: AuditRecord, name: usize, w: Version, cl: Seq<usize>) -> bool {
    &&& r.package == name
    &&& r.kind matches AuditKind::Full { version } && version == w
    &&& r.criteria@ == cl
}

/// Two distinct records fully audit the same version of `name` for the same
/// criteria list: a ledger inconsistency surfaced as a soft warning.
pub open spec fn duplicate_full_audit(recs: Seq<AuditRecord>, name: usize) -> bool {
    exists|x1: int, x2: int|
        0 <= x1 < recs.len() && 0 <= x2 < recs.len() && x1 != x2
            && ((#[trigger] recs[x1]).kind matches AuditKind::Full { version }
                && recs[x1].package == name
                && rec_full_same(#[trigger] recs[x2], name, version, recs[x1].criteria@))
}

/// The imported ledger carries records for `name`: the package's ledger
/// slice partly rests on imported, not locally recorded, evidence.
pub open spec fn imported_records_present(imports: ImportsFile, name: usize) -> bool {
    exists|x: int|
        0 <= x < imports.audits@.len() && (#[trigger] imports.audits@[x]).package == name
}

/// A record mentions version `w` of `name` as an endpoint of an audit.
pub open spec fn rec_mentions(r: AuditRecord, name: usize, w: Version) -> bool {
    &&& r.package == name
    &&& ((r.kind matches AuditKind::Full { version } && version == w)
        || (r.kind matches AuditKind::Delta { from, to } && (from == w || to == w)))
}

/// Some record up to index `m` mentions version `w` of `name`.
pub open spec fn mentioned_up_to(recs: Seq<AuditRecord>, name: usize, w: Version, m: int) -> bool {
    exists|x: int| 0 <= x < m && rec_mentions(#[trigger] recs[x], name, w)
}

/// Some record mentions version `w` of `name`.
pub open spec fn mentioned(recs: Seq<AuditRecord>, name: usize, w: Version) -> bool {
    mentioned_up_to(recs, name, w, recs.len() as int)
}

/// Decides whether a criteria list covers criterion `c`, using the closure
/// table.
pub fn covers_exec(
    Ghost(crit): Ghost<Seq<CriteriaEntry>>,
    table: &Vec<CriteriaSet>,
    ids: &Vec<usize>,
    c: usize,
) -> (r: bool)
    requires
        closure_table_ok(crit, table@),
        ids_valid(ids@, table@.len() as int),
        c < table@.len(),
    ensures
        r == covers(crit, ids@, c as int),
{
    let mut k: usize = 0;
    while k < ids.len()
        invariant
            k <= ids@.len(),
            closure_table_ok(crit, table@),
            ids_valid(ids@, table@.len() as int),
            c < table@.len(),
            forall|j: int| 0 <= j < k ==>
                !implies_star(crit, #[trigger] ids@[j] as int, c as int),
        decreases ids@.len() - k,
    {
        let id = ids[k];
        if table[id].has(c) {
            proof {
                assert(implies_star(crit, id as int, c as int));
                assert(ids_set(ids@).contains(id as int));
                assert(covers(crit, ids@, c as int));
            }
            return true;
        }
        k = k + 1;
    }
    proof {
        if covers(crit, ids@, c as int) {
            let e = choose|e: int|
                ids_set(ids@).contains(e) && implies_star(crit, e, c as int);
            let j = choose|j: int| 0 <= j < ids@.len() && (#[trigger] ids@[j] as int) == e;
            assert(!implies_star(crit, ids@[j] as int, c as int));
        }
    }
    false
}

} // verus!
