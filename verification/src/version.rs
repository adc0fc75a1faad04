//! Plain-value model of package versions and of version-range predicates.
//!
//! A version is a `major.minor.patch` triple ordered lexicographically; a
//! requirement is a conjunction of comparator predicates against one version
//! each. Violations in the audit ledger are scoped by such requirements.

use vstd::prelude::*;

verus! {

/// A semantic version, reduced to its ordered numeric components.
#[derive(Clone, Copy, PartialEq, Eq, Structural, Debug, Hash)]
pub struct Version {
    pub major: u64,
    pub minor: u64,
    pub patch: u64,
}

/// Strict lexicographic order on versions.
pub open spec fn version_lt(a: Version, b: Version) -> bool {
    a.major < b.major
        || (a.major == b.major && a.minor < b.minor)
        || (a.major == b.major && a.minor == b.minor && a.patch < b.patch)
}

pub open spec fn version_le(a: Version, b: Version) -> bool {
    version_lt(a, b) || a == b
}

impl Version {
    pub fn new(major: u64, minor: u64, patch: u64) -> (r: Version)
        ensures
            r == (Version { major, minor, patch }),
    {
        Version { major, minor, patch }
    }

    /// Decides the strict lexicographic order.
    pub fn lt(&self, other: &Version) -> (r: bool)
        ensures
            r == version_lt(*self, *other),
    {
        if self.major != other.major {
            self.major < other.major
        } else if self.minor != other.minor {
            self.minor < other.minor
        } else {
            self.patch < other.patch
        }
    }
}

/// The lexicographic order is transitive across a weak and a strict step.
pub proof fn lemma_version_le_lt_trans(a: Version, b: Version, c: Version)
    requires
        version_le(a, b),
        version_lt(b, c),
    ensures
        version_lt(a, c),
{
}

/// The lexicographic order is total.
pub proof fn lemma_version_total(a: Version, b: Version)
    ensures
        version_lt(a, b) || version_lt(b, a) || a == b,
{
}

/// The comparison operator of one version predicate.
#[derive(Clone, Copy, PartialEq, Eq, Structural, Debug)]
pub enum VersionOp {
    Exact,
    Greater,
    GreaterEq,
    Less,
    LessEq,
}

/// One comparator: `op v`, e.g. `>= 1.2.0`.
#[derive(Clone, Copy, PartialEq, Eq, Structural, Debug)]
pub struct VersionPred {
    pub op: VersionOp,
    pub v: Version,
}

pub open spec fn pred_matches(p: VersionPred, v: Version) -> bool {
    match p.op {
        VersionOp::Exact => v == p.v,
        VersionOp::Greater => version_lt(p.v, v),
        VersionOp::GreaterEq => version_le(p.v, v),
        VersionOp::Less => version_lt(v, p.v),
        VersionOp::LessEq => version_le(v, p.v),
    }
}

/// A version requirement: the conjunction of its comparators.
/// An empty requirement matches every version.
#[derive(Clone, PartialEq, Eq, Debug)]
pub struct VersionReq {
    pub preds: Vec<VersionPred>,
}

pub open spec fn req_matches(r: VersionReq, v: Version) -> bool {
    forall|i: int| 0 <= i < r.preds@.len() ==> pred_matches(r.preds@[i], v)
}

impl VersionReq {
    /// The requirement that matches every version.
    pub fn any() -> (r: VersionReq)
        ensures
            r.preds@.len() == 0,
            forall|v: Version| req_matches(r, v),
    {
        VersionReq { preds: Vec::new() }
    }

    /// The requirement that matches exactly `v`.
    pub fn exact(v: Version) -> (r: VersionReq)
        ensures
            r.preds@.len() == 1,
            r.preds@[0] == (VersionPred { op: VersionOp::Exact, v }),
            forall|w: Version| req_matches(r, w) <==> w == v,
    {
        let preds = vec![VersionPred { op: VersionOp::Exact, v }];
        let r = VersionReq { preds };
        assert forall|w: Version| req_matches(r, w) <==> w == v by {
            if w == v {
                assert forall|i: int| 0 <= i < r.preds@.len() implies
                    pred_matches(#[trigger] r.preds@[i], w) by {}
            }
            if req_matches(r, w) {
                assert(pred_matches(r.preds@[0], w));
            }
        }
        r
    }

    /// Decides whether `v` satisfies every comparator of the requirement.
    pub fn matches(&self, v: &Version) -> (r: bool)
        ensures
            r == req_matches(*self, *v),
    {
        let mut i: usize = 0;
        while i < self.preds.len()
            invariant
                0 <= i <= self.preds@.len(),
                forall|j: int| 0 <= j < i ==> pred_matches(self.preds@[j], *v),
            decreases self.preds@.len() - i,
        {
            let p = self.preds[i];
            let ok = match p.op {
                VersionOp::Exact => v.major == p.v.major && v.minor == p.v.minor
                    && v.patch == p.v.patch,
                VersionOp::Greater => p.v.lt(v),
                VersionOp::GreaterEq => !v.lt(&p.v),
                VersionOp::Less => v.lt(&p.v),
                VersionOp::LessEq => !p.v.lt(v),
            };
            if !ok {
                assert(!pred_matches(self.preds@[i as int], *v));
                return false;
            }
            i = i + 1;
        }
        true
    }
}

} // verus!
