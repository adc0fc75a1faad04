//! The reachability solver and the adjudicator.
//!
//! For one package, one installed version, and one closed set of required
//! criteria, the solver decides per criterion whether the version is
//! certified (reachable from a fully audited version through delta audits),
//! merely exempted, or uncovered, and combines that into a verdict. The
//! adjudication puts violations first: a matching violation forbids the
//! version whatever else the ledger holds.

use vstd::prelude::*;
use crate::criteria::{closure_table_ok, default_set, ids_set, ids_valid, CriteriaEntry, CriteriaSet};
use crate::ledger::{
    certified_for, covers, covers_exec, delta_edge, delta_path, exempted_for, exemption_covers,
    duplicate_full_audit, exemption_present, exemption_suggested, full_certifies,
    imported_records_present, mentioned, mentioned_up_to, merged_records, rec_delta,
    rec_full_same,
    rec_full, rec_mentions, violated, AuditKind, AuditRecord, AuditsFile, Exemption, ImportsFile,
};
use crate::reach::{
    adj_represents, find_path, lemma_path_edge, reaches, reaches_from, search_forest,
    valid_path,
};
use crate::version::{lemma_version_le_lt_trans, lemma_version_total, req_matches, version_le, version_lt, Version};

verus! {

/// The final classification of one package version.
#[derive(Clone, Copy, PartialEq, Eq, Structural, Debug)]
pub enum Verdict {
    Certified,
    Exempted,
    Uncertifiable,
    Forbidden,
}

/// Every required criterion is certified by audit chains alone.
pub open spec fn all_certified(
    crit: Seq<CriteriaEntry>,
    recs: Seq<AuditRecord>,
    name: usize,
    v: Version,
    req: Set<int>,
) -> bool {
    forall|c: int| #[trigger] req.contains(c) ==> certified_for(crit, recs, name, c, v)
}

/// Every required criterion is certified or at least exempted.
pub open spec fn all_covered(
    crit: Seq<CriteriaEntry>,
    recs: Seq<AuditRecord>,
    exs: Seq<Exemption>,
    name: usize,
    v: Version,
    req: Set<int>,
) -> bool {
    forall|c: int| #[trigger] req.contains(c) ==>
        certified_for(crit, recs, name, c, v) || exempted_for(crit, exs, name, c, v)
}

/// A version the ledger mentions that sits below the installed version and
/// that audit chains certify for every required criterion: a candidate for
/// the "audit the delta from here" suggestion.
pub open spec fn chain_candidate(
    crit: Seq<CriteriaEntry>,
    recs: Seq<AuditRecord>,
    name: usize,
    v: Version,
    req: Set<int>,
    w: Version,
) -> bool {
    mentioned(recs, name, w) && version_lt(w, v) && all_certified(crit, recs, name, w, req)
}

/// Some delta audit of `name` starts from a version that no criterion can
/// ever certify: a ledger inconsistency surfaced as a soft warning.
pub open spec fn unanchored_delta(
    crit: Seq<CriteriaEntry>,
    recs: Seq<AuditRecord>,
    name: usize,
    ncrit: int,
) -> bool {
    exists|x: int| 0 <= x < recs.len() && (#[trigger] recs[x]).package == name
        && (recs[x].kind matches AuditKind::Delta { from, .. }
            && (forall|c: int| 0 <= c < ncrit ==> !certified_for(crit, recs, name, c, from)))
}

/// The verdict of the chain search alone, violations not yet considered.
pub open spec fn search_verdict(
    crit: Seq<CriteriaEntry>,
    recs: Seq<AuditRecord>,
    exs: Seq<Exemption>,
    name: usize,
    v: Version,
    req: Set<int>,
) -> Verdict {
    if all_certified(crit, recs, name, v, req) {
        Verdict::Certified
    } else if all_covered(crit, recs, exs, name, v, req) {
        Verdict::Exempted
    } else {
        Verdict::Uncertifiable
    }
}

/// The adjudicated verdict. A matching violation forbids unconditionally;
/// otherwise first-party packages are trusted as themselves; otherwise the
/// chain search decides.
pub open spec fn adjudicated(
    crit: Seq<CriteriaEntry>,
    recs: Seq<AuditRecord>,
    exs: Seq<Exemption>,
    first_party: bool,
    name: usize,
    v: Version,
    req: Set<int>,
) -> Verdict {
    if violated(crit, recs, name, v, req) {
        Verdict::Forbidden
    } else if first_party {
        Verdict::Certified
    } else {
        search_verdict(crit, recs, exs, name, v, req)
    }
}

/// A full audit covering a criterion persists when records are added.
pub proof fn lemma_full_monotone(
    crit: Seq<CriteriaEntry>,
    recs: Seq<AuditRecord>,
    extra: Seq<AuditRecord>,
    name: usize,
    c: int,
    w: Version,
)
    requires
        full_certifies(crit, recs, name, c, w),
    ensures
        full_certifies(crit, recs + extra, name, c, w),
{
    let x = choose|x: int| 0 <= x < recs.len() && rec_full(crit, #[trigger] recs[x], name, c, w);
    assert(rec_full(crit, (recs + extra)[x], name, c, w));
}

/// An audit chain persists when records are added.
pub proof fn lemma_certified_monotone(
    crit: Seq<CriteriaEntry>,
    recs: Seq<AuditRecord>,
    extra: Seq<AuditRecord>,
    name: usize,
    c: int,
    v: Version,
)
    requires
        certified_for(crit, recs, name, c, v),
    ensures
        certified_for(crit, recs + extra, name, c, v),
{
    let p = choose|p: Seq<Version>|
        delta_path(crit, recs, name, c, p) && full_certifies(crit, recs, name, c, p[0])
            && p[p.len() - 1] == v;
    assert forall|i: int| 0 <= i < p.len() - 1 implies
        delta_edge(crit, recs + extra, name, c, #[trigger] p[i], p[i + 1]) by {
        assert(delta_edge(crit, recs, name, c, p[i], p[i + 1]));
        let x = choose|x: int|
            0 <= x < recs.len() && rec_delta(crit, #[trigger] recs[x], name, c, p[i], p[i + 1]);
        assert(rec_delta(crit, (recs + extra)[x], name, c, p[i], p[i + 1]));
    }
    lemma_full_monotone(crit, recs, extra, name, c, p[0]);
    assert(delta_path(crit, recs + extra, name, c, p));
}

/// A violation persists when records are added.
pub proof fn lemma_violated_monotone(
    crit: Seq<CriteriaEntry>,
    recs: Seq<AuditRecord>,
    extra: Seq<AuditRecord>,
    name: usize,
    v: Version,
    req: Set<int>,
)
    requires
        violated(crit, recs, name, v, req),
    ensures
        violated(crit, recs + extra, name, v, req),
{
    let (x, d) = choose|x: int, d: int|
        0 <= x < recs.len() && (#[trigger] recs[x]).package == name
            && (recs[x].kind matches AuditKind::Violation { req: vr } && req_matches(vr, v))
            && #[trigger] req.contains(d) && covers(crit, recs[x].criteria@, d);
    assert((recs + extra)[x] == recs[x]);
    assert(0 <= x < (recs + extra).len() && ((recs + extra)[x]).package == name
        && ((recs + extra)[x].kind matches AuditKind::Violation { req: vr }
            && req_matches(vr, v))
        && req.contains(d) && covers(crit, (recs + extra)[x].criteria@, d));
}

/// Violation absolutism: once a violation matches a package version under
/// the required criteria, the verdict is `Forbidden`, and stays `Forbidden`
/// whatever full audits, delta audits, exemptions, or further violations are
/// added to the ledger.
pub proof fn lemma_violation_absolute(
    crit: Seq<CriteriaEntry>,
    recs: Seq<AuditRecord>,
    extra: Seq<AuditRecord>,
    exs: Seq<Exemption>,
    first_party: bool,
    name: usize,
    v: Version,
    req: Set<int>,
)
    requires
        violated(crit, recs, name, v, req),
    ensures
        adjudicated(crit, recs + extra, exs, first_party, name, v, req) == Verdict::Forbidden,
{
    lemma_violated_monotone(crit, recs, extra, name, v, req);
}

/// Chain monotonicity: adding audit records never turns a verdict of the
/// chain search that was `Certified` or `Exempted` into `Uncertifiable`.
pub proof fn lemma_chain_monotone(
    crit: Seq<CriteriaEntry>,
    recs: Seq<AuditRecord>,
    extra: Seq<AuditRecord>,
    exs: Seq<Exemption>,
    name: usize,
    v: Version,
    req: Set<int>,
)
    requires
        search_verdict(crit, recs, exs, name, v, req) != Verdict::Uncertifiable,
    ensures
        search_verdict(crit, recs + extra, exs, name, v, req) != Verdict::Uncertifiable,
{
    assert forall|c: int| #[trigger] req.contains(c) implies
        certified_for(crit, recs + extra, name, c, v) || exempted_for(crit, exs, name, c, v) by {
        if certified_for(crit, recs, name, c, v) {
            lemma_certified_monotone(crit, recs, extra, name, c, v);
        }
    }
}

/// Exemption weakness: a package that the chain search certifies with
/// exemptions ignored is still `Certified`, never merely `Exempted`, when
/// exemptions are considered.
pub proof fn lemma_exemption_weakness(
    crit: Seq<CriteriaEntry>,
    recs: Seq<AuditRecord>,
    exs: Seq<Exemption>,
    name: usize,
    v: Version,
    req: Set<int>,
)
    requires
        search_verdict(crit, recs, Seq::<Exemption>::empty(), name, v, req) == Verdict::Certified,
    ensures
        search_verdict(crit, recs, exs, name, v, req) == Verdict::Certified,
{
}

/// Whether `u` holds version `w`.
fn contains_version(u: &Vec<Version>, w: &Version) -> (r: bool)
    ensures
        r == u@.contains(*w),
{
    let mut i: usize = 0;
    while i < u.len()
        invariant
            i <= u@.len(),
            forall|j: int| 0 <= j < i ==> u@[j] != *w,
        decreases u@.len() - i,
    {
        if u[i] == *w {
            return true;
        }
        i = i + 1;
    }
    false
}

/// The index of version `w` in `u`.
fn find_version(u: &Vec<Version>, w: &Version) -> (i: usize)
    requires
        u@.contains(*w),
    ensures
        i < u@.len(),
        u@[i as int] == *w,
{
    let mut i: usize = 0;
    while i < u.len()
        invariant
            i <= u@.len(),
            u@.contains(*w),
            forall|j: int| 0 <= j < i ==> u@[j] != *w,
        decreases u@.len() - i,
    {
        if u[i] == *w {
            return i;
        }
        i = i + 1;
    }
    proof {
        let j = choose|j: int| 0 <= j < u@.len() && u@[j] == *w;
        assert(false);
    }
    0
}

/// Adds `w` to the universe unless it is already there.
fn add_version(u: &mut Vec<Version>, w: Version)
    requires
        old(u)@.no_duplicates(),
    ensures
        final(u)@.no_duplicates(),
        final(u)@.len() >= old(u)@.len(),
        forall|j: int| 0 <= j < old(u)@.len() ==> final(u)@[j] == old(u)@[j],
        forall|w2: Version| final(u)@.contains(w2) <==> (old(u)@.contains(w2) || w2 == w),
{
    if !contains_version(u, &w) {
        u.push(w);
        proof {
            assert forall|w2: Version| u@.contains(w2) implies
                (old(u)@.contains(w2) || w2 == w) by {
                let j = choose|j: int| 0 <= j < u@.len() && u@[j] == w2;
                if j < u@.len() - 1 {
                    assert(old(u)@[j] == w2);
                }
            }
            assert(u@[u@.len() - 1] == w);
            assert forall|w2: Version| (old(u)@.contains(w2) || w2 == w) implies
                u@.contains(w2) by {
                if old(u)@.contains(w2) {
                    let j = choose|j: int| 0 <= j < old(u)@.len() && old(u)@[j] == w2;
                    assert(u@[j] == w2);
                } else {
                    assert(u@[u@.len() - 1] == w2);
                }
            }
            assert forall|i: int, j: int|
                0 <= i < u@.len() && 0 <= j < u@.len() && i != j implies u@[i] != u@[j] by {
                if i < u@.len() - 1 && j < u@.len() - 1 {
                    assert(old(u)@[i] != old(u)@[j]);
                } else if j == u@.len() - 1 {
                    assert(!old(u)@.contains(w));
                    assert(old(u)@[i] == u@[i]);
                } else {
                    assert(!old(u)@.contains(w));
                    assert(old(u)@[j] == u@[j]);
                }
            }
        }
    } else {
        proof {
            assert forall|w2: Version| u@.contains(w2) implies
                (old(u)@.contains(w2) || w2 == w) by {}
        }
    }
}

/// Collects the version universe of one package: the installed version plus
/// every version an audit record for the package mentions.
fn build_universe(
    audits: &AuditsFile,
    imports: &ImportsFile,
    name: usize,
    v: Version,
) -> (u: Vec<Version>)
    ensures
        u@.len() >= 1,
        u@[0] == v,
        u@.no_duplicates(),
        forall|w: Version| u@.contains(w) <==>
            (w == v || mentioned(merged_records(*audits, *imports), name, w)),
{
    let ghost recs = merged_records(*audits, *imports);
    let ghost alen = audits.audits@.len() as int;
    let mut u: Vec<Version> = Vec::new();
    u.push(v);
    assert(u@.no_duplicates());
    let mut x: usize = 0;
    while x < audits.audits.len()
        invariant
            x <= audits.audits@.len(),
            recs == merged_records(*audits, *imports),
            u@.len() >= 1,
            u@[0] == v,
            u@.no_duplicates(),
            forall|w: Version| u@.contains(w) <==>
                (w == v || mentioned_up_to(recs, name, w, x as int)),
        decreases audits.audits@.len() - x,
    {
        let ghost pre = u@;
        let rec = &audits.audits[x];
        proof {
            assert(recs[x as int] == audits.audits@[x as int]);
        }
        if rec.package == name {
            match &rec.kind {
                AuditKind::Full { version } => {
                    add_version(&mut u, *version);
                },
                AuditKind::Delta { from, to } => {
                    add_version(&mut u, *from);
                    add_version(&mut u, *to);
                },
                AuditKind::Violation { .. } => {},
            }
        }
        proof {
            assert forall|w: Version| u@.contains(w) implies
                (w == v || mentioned_up_to(recs, name, w, x as int + 1)) by {
                if !pre.contains(w) && w != v {
                    assert(rec_mentions(recs[x as int], name, w));
                }
                if pre.contains(w) && w != v {
                    let y = choose|y: int| 0 <= y < x && rec_mentions(#[trigger] recs[y], name, w);
                    assert(rec_mentions(recs[y], name, w));
                }
            }
            assert forall|w: Version|
                (w == v || mentioned_up_to(recs, name, w, x as int + 1)) implies
                u@.contains(w) by {
                if w == v {
                    assert(u@[0] == v);
                } else {
                    let y = choose|y: int|
                        0 <= y < x as int + 1 && rec_mentions(#[trigger] recs[y], name, w);
                    if y < x as int {
                        assert(pre.contains(w));
                        let j = choose|j: int| 0 <= j < pre.len() && pre[j] == w;
                        assert(u@[j] == w);
                    }
                }
            }
        }
        x = x + 1;
    }
    let mut x2: usize = 0;
    while x2 < imports.audits.len()
        invariant
            x2 <= imports.audits@.len(),
            recs == merged_records(*audits, *imports),
            alen == audits.audits@.len() as int,
            u@.len() >= 1,
            u@[0] == v,
            u@.no_duplicates(),
            forall|w: Version| u@.contains(w) <==>
                (w == v || mentioned_up_to(recs, name, w, alen + x2 as int)),
        decreases imports.audits@.len() - x2,
    {
        let ghost pre = u@;
        let rec = &imports.audits[x2];
        proof {
            assert(recs[alen + x2 as int] == imports.audits@[x2 as int]);
        }
        if rec.package == name {
            match &rec.kind {
                AuditKind::Full { version } => {
                    add_version(&mut u, *version);
                },
                AuditKind::Delta { from, to } => {
                    add_version(&mut u, *from);
                    add_version(&mut u, *to);
                },
                AuditKind::Violation { .. } => {},
            }
        }
        proof {
            assert forall|w: Version| u@.contains(w) implies
                (w == v || mentioned_up_to(recs, name, w, alen + x2 as int + 1)) by {
                if !pre.contains(w) && w != v {
                    assert(rec_mentions(recs[alen + x2 as int], name, w));
                }
                if pre.contains(w) && w != v {
                    let y = choose|y: int|
                        0 <= y < alen + x2 as int && rec_mentions(#[trigger] recs[y], name, w);
                    assert(rec_mentions(recs[y], name, w));
                }
            }
            assert forall|w: Version|
                (w == v || mentioned_up_to(recs, name, w, alen + x2 as int + 1)) implies
                u@.contains(w) by {
                if w == v {
                    assert(u@[0] == v);
                } else {
                    let y = choose|y: int|
                        0 <= y < alen + x2 as int + 1
                            && rec_mentions(#[trigger] recs[y], name, w);
                    if y < alen + x2 as int {
                        assert(pre.contains(w));
                        let j = choose|j: int| 0 <= j < pre.len() && pre[j] == w;
                        assert(u@[j] == w);
                    }
                }
            }
        }
        x2 = x2 + 1;
    }
    u
}

/// Decides whether some record fully audits `(name, w)` covering `c`.
fn full_at_exec(
    Ghost(crit): Ghost<Seq<CriteriaEntry>>,
    table: &Vec<CriteriaSet>,
    audits: &AuditsFile,
    imports: &ImportsFile,
    name: usize,
    c: usize,
    w: &Version,
) -> (r: bool)
    requires
        crit == audits.criteria@,
        closure_table_ok(crit, table@),
        c < table@.len(),
        recs_ids_valid(audits.audits@, table@.len() as int),
        recs_ids_valid(imports.audits@, table@.len() as int),
    ensures
        r == full_certifies(crit, merged_records(*audits, *imports), name, c as int, *w),
{
    let ghost recs = merged_records(*audits, *imports);
    let ghost alen = audits.audits@.len() as int;
    let mut x: usize = 0;
    while x < audits.audits.len()
        invariant
            x <= audits.audits@.len(),
            crit == audits.criteria@,
            closure_table_ok(crit, table@),
            c < table@.len(),
            recs_ids_valid(audits.audits@, table@.len() as int),
            recs_ids_valid(imports.audits@, table@.len() as int),
            recs == merged_records(*audits, *imports),
            forall|y: int| 0 <= y < x ==> !rec_full(crit, #[trigger] recs[y], name, c as int, *w),
        decreases audits.audits@.len() - x,
    {
        let rec = &audits.audits[x];
        proof {
            assert(recs[x as int] == audits.audits@[x as int]);
        }
        if rec.package == name {
            let is_full_w = match &rec.kind {
                AuditKind::Full { version } => *version == *w,
                _ => false,
            };
            if is_full_w {
                if covers_exec(Ghost(crit), table, &rec.criteria, c) {
                    proof {
                        assert(rec_full(crit, recs[x as int], name, c as int, *w));
                    }
                    return true;
                }
            }
        }
        x = x + 1;
    }
    let mut x2: usize = 0;
    while x2 < imports.audits.len()
        invariant
            x2 <= imports.audits@.len(),
            crit == audits.criteria@,
            closure_table_ok(crit, table@),
            c < table@.len(),
            recs_ids_valid(audits.audits@, table@.len() as int),
            recs_ids_valid(imports.audits@, table@.len() as int),
            recs == merged_records(*audits, *imports),
            alen == audits.audits@.len() as int,
            forall|y: int| 0 <= y < alen + x2 as int ==>
                !rec_full(crit, #[trigger] recs[y], name, c as int, *w),
        decreases imports.audits@.len() - x2,
    {
        let rec = &imports.audits[x2];
        proof {
            assert(recs[alen + x2 as int] == imports.audits@[x2 as int]);
        }
        if rec.package == name {
            let is_full_w = match &rec.kind {
                AuditKind::Full { version } => *version == *w,
                _ => false,
            };
            if is_full_w {
                if covers_exec(Ghost(crit), table, &rec.criteria, c) {
                    proof {
                        assert(rec_full(crit, recs[alen + x2 as int], name, c as int, *w));
                    }
                    return true;
                }
            }
        }
        x2 = x2 + 1;
    }
    proof {
        if full_certifies(crit, recs, name, c as int, *w) {
            let y = choose|y: int|
                0 <= y < recs.len() && rec_full(crit, #[trigger] recs[y], name, c as int, *w);
            assert(!rec_full(crit, recs[y], name, c as int, *w));
        }
    }
    false
}

/// Every record's criteria list stays inside a table of `n` criteria.
pub open spec fn recs_ids_valid(recs: Seq<AuditRecord>, n: int) -> bool {
    forall|x: int| 0 <= x < recs.len() ==> ids_valid((#[trigger] recs[x]).criteria@, n)
}

/// Every exemption's criteria list stays inside a table of `n` criteria.
pub open spec fn exs_ids_valid(exs: Seq<Exemption>, n: int) -> bool {
    forall|x: int| 0 <= x < exs.len() ==>
        match (#[trigger] exs[x]).criteria {
            Option::Some(ids) => ids_valid(ids@, n),
            Option::None => true,
        }
}

/// Decides whether the installed version (the universe's first entry) is
/// certified for criterion `c`: reachable from a fully audited version
/// through delta audits covering `c`.
#[verifier::rlimit(80)]
fn certified_exec(
    Ghost(crit): Ghost<Seq<CriteriaEntry>>,
    table: &Vec<CriteriaSet>,
    audits: &AuditsFile,
    imports: &ImportsFile,
    name: usize,
    c: usize,
    universe: &Vec<Version>,
) -> (r: (Vec<bool>, Option<Vec<Version>>))
    requires
        crit == audits.criteria@,
        closure_table_ok(crit, table@),
        c < table@.len(),
        recs_ids_valid(audits.audits@, table@.len() as int),
        recs_ids_valid(imports.audits@, table@.len() as int),
        universe@.len() >= 1,
        universe@.no_duplicates(),
        forall|w: Version| universe@.contains(w) <==>
            (w == universe@[0] || mentioned(merged_records(*audits, *imports), name, w)),
    ensures
        r.0@.len() == universe@.len(),
        forall|i0: int| 0 <= i0 < universe@.len() ==>
            (#[trigger] r.0@[i0] == certified_for(crit, merged_records(*audits, *imports), name,
                c as int, universe@[i0])),
        match r.1 {
            Option::Some(chain) => r.0@[0] && chain@.len() >= 1
                && delta_path(crit, merged_records(*audits, *imports), name, c as int, chain@)
                && full_certifies(crit, merged_records(*audits, *imports), name, c as int,
                    chain@[0])
                && chain@[chain@.len() - 1] == universe@[0],
            Option::None => !r.0@[0],
        },
{
    let ghost recs = merged_records(*audits, *imports);
    let ghost alen = audits.audits@.len() as int;
    let ulen = universe.len();
    let ghost ui = ulen as int;
    // the sources: universe indices whose version has a covering full audit
    let mut srcs: Vec<usize> = Vec::new();
    let mut i: usize = 0;
    while i < ulen
        invariant
            i <= ulen,
            ulen == universe@.len(),
            crit == audits.criteria@,
            closure_table_ok(crit, table@),
            c < table@.len(),
            recs_ids_valid(audits.audits@, table@.len() as int),
            recs_ids_valid(imports.audits@, table@.len() as int),
            recs == merged_records(*audits, *imports),
            forall|k: int| 0 <= k < srcs@.len() ==> (#[trigger] srcs@[k] as int) < i,
            forall|i2: int| 0 <= i2 < i ==>
                ((exists|k: int| 0 <= k < srcs@.len() && #[trigger] srcs@[k] as int == i2)
                    <==> full_certifies(crit, recs, name, c as int, universe@[i2])),
        decreases ulen - i,
    {
        let ghost pre = srcs@;
        if full_at_exec(Ghost(crit), table, audits, imports, name, c, &universe[i]) {
            srcs.push(i);
            proof {
                assert forall|i2: int| 0 <= i2 < i + 1 implies
                    ((exists|k: int| 0 <= k < srcs@.len() && #[trigger] srcs@[k] as int == i2)
                        <==> full_certifies(crit, recs, name, c as int, universe@[i2])) by {
                    if i2 == i as int {
                        assert(srcs@[srcs@.len() - 1] as int == i2);
                    } else {
                        if exists|k: int|
                            0 <= k < srcs@.len() && #[trigger] srcs@[k] as int == i2 {
                            let k = choose|k: int|
                                0 <= k < srcs@.len() && #[trigger] srcs@[k] as int == i2;
                            assert(k < pre.len());
                            assert(pre[k] as int == i2);
                        }
                        if full_certifies(crit, recs, name, c as int, universe@[i2]) {
                            let k = choose|k: int|
                                0 <= k < pre.len() && #[trigger] pre[k] as int == i2;
                            assert(srcs@[k] as int == i2);
                        }
                    }
                }
            }
        } else {
            proof {
                assert forall|i2: int| 0 <= i2 < i + 1 implies
                    ((exists|k: int| 0 <= k < srcs@.len() && #[trigger] srcs@[k] as int == i2)
                        <==> full_certifies(crit, recs, name, c as int, universe@[i2])) by {
                    if i2 == i as int {
                        if exists|k: int|
                            0 <= k < srcs@.len() && #[trigger] srcs@[k] as int == i2 {
                            let k = choose|k: int|
                                0 <= k < srcs@.len() && #[trigger] srcs@[k] as int == i2;
                            assert((srcs@[k] as int) < i);
                        }
                    }
                }
            }
        }
        i = i + 1;
    }
    // the delta-audit edges covering `c`, as adjacency over universe indices
    let mut adj: Vec<Vec<usize>> = Vec::new();
    let mut i2: usize = 0;
    while i2 < ulen
        invariant
            i2 <= ulen,
            ulen == universe@.len(),
            adj@.len() == i2,
            crit == audits.criteria@,
            closure_table_ok(crit, table@),
            c < table@.len(),
            recs_ids_valid(audits.audits@, table@.len() as int),
            recs_ids_valid(imports.audits@, table@.len() as int),
            recs == merged_records(*audits, *imports),
            universe@.no_duplicates(),
            forall|w: Version| universe@.contains(w) <==>
                (w == universe@[0] || mentioned(recs, name, w)),
            forall|a: int, x: int|
                0 <= a < i2 && 0 <= x < adj@[a]@.len() ==>
                    (#[trigger] adj@[a]@[x] as int) < ulen,
            forall|a: int, jj: int| 0 <= a < i2 && 0 <= jj < ulen ==>
                (#[trigger] adj@[a]@.contains(jj as usize) <==>
                    delta_edge(crit, recs, name, c as int, universe@[a], universe@[jj])),
        decreases ulen - i2,
    {
        let row = delta_row(Ghost(crit), table, audits, imports, name, c, universe, i2);
        adj.push(row);
        i2 = i2 + 1;
    }
    let ghost rel = |a: int, b: int|
        0 <= a < ui && 0 <= b < ui
            && delta_edge(crit, recs, name, c as int, universe@[a], universe@[b]);
    proof {
        assert forall|a: int, b: int|
            0 <= a < adj@.len() && 0 <= b < adj@.len() implies
            (#[trigger] rel(a, b) <==> adj@[a]@.contains(b as usize)) by {
            assert(adj@[a]@.contains(b as usize) <==>
                delta_edge(crit, recs, name, c as int, universe@[a], universe@[b]));
        }
        assert(adj_represents(adj@, rel));
    }
    let sf = search_forest(&adj, &srcs, Ghost(rel));
    let reached = sf.0;
    let parents = sf.1;
    let depths = sf.2;
    proof {
        assert forall|i0: int| 0 <= i0 < ui implies
            (#[trigger] reached@[i0] == certified_for(crit, recs, name, c as int,
                universe@[i0])) by {
            if reached@[i0] {
                // translate the index path into a version chain
                let k = choose|k: int|
                    0 <= k < srcs@.len() && reaches(ui, rel, #[trigger] srcs@[k] as int, i0);
                let p = choose|p: Seq<int>|
                    valid_path(ui, rel, p) && p[0] == srcs@[k] as int && p[p.len() - 1] == i0;
                let vp = Seq::new(p.len() as nat, |x: int| universe@[p[x]]);
                assert forall|x: int| 0 <= x < vp.len() - 1 implies
                    delta_edge(crit, recs, name, c as int, #[trigger] vp[x], vp[x + 1]) by {
                    lemma_path_edge(ui, rel, p, x);
                    assert(rel(p[x], p[x + 1]));
                }
                assert(delta_path(crit, recs, name, c as int, vp));
                assert(vp[0] == universe@[p[0]]);
                assert(srcs@[k] as int == p[0]);
                assert(full_certifies(crit, recs, name, c as int, universe@[p[0]]));
                assert(vp[vp.len() - 1] == universe@[i0]);
                assert(certified_for(crit, recs, name, c as int, universe@[i0]));
            }
            if certified_for(crit, recs, name, c as int, universe@[i0]) {
                let vp = choose|vp: Seq<Version>|
                    delta_path(crit, recs, name, c as int, vp)
                        && full_certifies(crit, recs, name, c as int, vp[0])
                        && vp[vp.len() - 1] == universe@[i0];
                // every version of the chain is in the universe
                assert forall|x: int| 0 <= x < vp.len() implies
                    universe@.contains(#[trigger] vp[x]) by {
                    if x == 0 {
                        let y = choose|y: int|
                            0 <= y < recs.len()
                                && rec_full(crit, #[trigger] recs[y], name, c as int, vp[0]);
                        assert(rec_mentions(recs[y], name, vp[0]));
                        assert(mentioned(recs, name, vp[0]));
                    } else {
                        assert(delta_edge(crit, recs, name, c as int, vp[x - 1], vp[x]));
                        let y = choose|y: int|
                            0 <= y < recs.len()
                                && rec_delta(crit, #[trigger] recs[y], name, c as int,
                                    vp[x - 1], vp[x]);
                        assert(rec_mentions(recs[y], name, vp[x]));
                        assert(mentioned(recs, name, vp[x]));
                    }
                }
                let q = Seq::new(vp.len() as nat, |x: int|
                    choose|ii: int| 0 <= ii < ui && universe@[ii] == vp[x]);
                assert forall|x: int| 0 <= x < q.len() implies 0 <= #[trigger] q[x] < ui by {
                    assert(universe@.contains(vp[x]));
                    let jw = choose|jw: int| 0 <= jw < universe@.len() && universe@[jw] == vp[x];
                    assert(universe@[jw] == vp[x]);
                }
                assert forall|x: int| 0 <= x < q.len() implies
                    universe@[#[trigger] q[x]] == vp[x] by {
                    assert(universe@.contains(vp[x]));
                    let jw = choose|jw: int| 0 <= jw < universe@.len() && universe@[jw] == vp[x];
                    assert(universe@[jw] == vp[x]);
                }
                assert forall|x: int| 0 <= x < q.len() - 1 implies
                    #[trigger] rel(q[x], q[x + 1]) by {
                    assert(delta_edge(crit, recs, name, c as int, vp[x], vp[x + 1]));
                    assert(universe@[q[x]] == vp[x] && universe@[q[x + 1]] == vp[x + 1]);
                }
                assert(valid_path(ui, rel, q));
                assert(universe@[q[0]] == vp[0]);
                assert(full_certifies(crit, recs, name, c as int, universe@[q[0]]));
                let k = choose|k: int| 0 <= k < srcs@.len() && #[trigger] srcs@[k] as int == q[0];
                assert(reaches(ui, rel, srcs@[k] as int, q[q.len() - 1]));
                assert(universe@[q[q.len() - 1]] == universe@[i0]);
                if q[q.len() - 1] != i0 {
                    assert(universe@[q[q.len() - 1]] != universe@[i0]);
                }
                assert(q[q.len() - 1] == i0);
                assert(reaches_from(ui, rel, srcs@, i0));
                assert(reached@[i0]);
            }
        }
    }
    // extract the witness chain for the installed version
    let evidence: Option<Vec<Version>> = if reached[0] {
        let ip = find_path(Ghost(ui), Ghost(rel), Ghost(srcs@), &reached, &parents, &depths, 0);
        let mut chain: Vec<Version> = Vec::new();
        let mut ci: usize = 0;
        while ci < ip.len()
            invariant
                ci <= ip@.len(),
                chain@.len() == ci,
                ulen == universe@.len(),
                forall|j: int| 0 <= j < ip@.len() ==> (#[trigger] ip@[j] as int) < ulen,
                forall|j: int| 0 <= j < ci ==>
                    #[trigger] chain@[j] == universe@[ip@[j] as int],
            decreases ip@.len() - ci,
        {
            chain.push(universe[ip[ci]]);
            ci = ci + 1;
        }
        proof {
            assert forall|x: int| 0 <= x < chain@.len() - 1 implies
                delta_edge(crit, recs, name, c as int, #[trigger] chain@[x], chain@[x + 1]) by {
                assert(rel(ip@[x] as int, ip@[x + 1] as int));
                assert(chain@[x] == universe@[ip@[x] as int]);
                assert(chain@[x + 1] == universe@[ip@[x + 1] as int]);
            }
            assert(delta_path(crit, recs, name, c as int, chain@));
            let k = choose|k: int| 0 <= k < srcs@.len() && (#[trigger] srcs@[k]) == ip@[0];
            assert(srcs@[k] as int == ip@[0] as int);
            assert(full_certifies(crit, recs, name, c as int, universe@[ip@[0] as int]));
            assert(chain@[0] == universe@[ip@[0] as int]);
            assert(ip@[ip@.len() - 1] == 0);
            assert(chain@[chain@.len() - 1] == universe@[0]);
        }
        Option::Some(chain)
    } else {
        Option::None
    };
    (reached, evidence)
}

/// Builds one adjacency row: the universe indices reachable from
/// `universe[i]` by one delta audit covering `c`.
fn delta_row(
    Ghost(crit): Ghost<Seq<CriteriaEntry>>,
    table: &Vec<CriteriaSet>,
    audits: &AuditsFile,
    imports: &ImportsFile,
    name: usize,
    c: usize,
    universe: &Vec<Version>,
    i: usize,
) -> (row: Vec<usize>)
    requires
        crit == audits.criteria@,
        closure_table_ok(crit, table@),
        c < table@.len(),
        recs_ids_valid(audits.audits@, table@.len() as int),
        recs_ids_valid(imports.audits@, table@.len() as int),
        i < universe@.len(),
        universe@.len() >= 1,
        universe@.no_duplicates(),
        forall|w: Version| universe@.contains(w) <==>
            (w == universe@[0] || mentioned(merged_records(*audits, *imports), name, w)),
    ensures
        forall|x: int| 0 <= x < row@.len() ==> (#[trigger] row@[x] as int) < universe@.len(),
        forall|jj: int| 0 <= jj < universe@.len() ==>
            (#[trigger] row@.contains(jj as usize) <==>
                delta_edge(
                    crit,
                    merged_records(*audits, *imports),
                    name,
                    c as int,
                    universe@[i as int],
                    universe@[jj],
                )),
{
    let ghost recs = merged_records(*audits, *imports);
    let ghost alen = audits.audits@.len() as int;
    let mut row: Vec<usize> = Vec::new();
    let mut x: usize = 0;
    while x < audits.audits.len()
        invariant
            x <= audits.audits@.len(),
            crit == audits.criteria@,
            closure_table_ok(crit, table@),
            c < table@.len(),
            recs_ids_valid(audits.audits@, table@.len() as int),
            recs_ids_valid(imports.audits@, table@.len() as int),
            recs == merged_records(*audits, *imports),
            i < universe@.len(),
            universe@.no_duplicates(),
            forall|w: Version| universe@.contains(w) <==>
                (w == universe@[0] || mentioned(recs, name, w)),
            forall|k: int| 0 <= k < row@.len() ==> (#[trigger] row@[k] as int) < universe@.len(),
            forall|jj: int| 0 <= jj < universe@.len() ==>
                (#[trigger] row@.contains(jj as usize) <==> exists|y: int|
                    0 <= y < x
                        && rec_delta(crit, #[trigger] recs[y], name, c as int,
                            universe@[i as int], universe@[jj])),
        decreases audits.audits@.len() - x,
    {
        let rec = &audits.audits[x];
        proof {
            assert(recs[x as int] == audits.audits@[x as int]);
        }
        delta_row_step(Ghost(crit), table, Ghost(recs), Ghost(x as int), rec, name, c, universe, i,
            &mut row);
        x = x + 1;
    }
    let mut x2: usize = 0;
    while x2 < imports.audits.len()
        invariant
            x2 <= imports.audits@.len(),
            crit == audits.criteria@,
            closure_table_ok(crit, table@),
            c < table@.len(),
            recs_ids_valid(audits.audits@, table@.len() as int),
            recs_ids_valid(imports.audits@, table@.len() as int),
            recs == merged_records(*audits, *imports),
            alen == audits.audits@.len() as int,
            i < universe@.len(),
            universe@.no_duplicates(),
            forall|w: Version| universe@.contains(w) <==>
                (w == universe@[0] || mentioned(recs, name, w)),
            forall|k: int| 0 <= k < row@.len() ==> (#[trigger] row@[k] as int) < universe@.len(),
            forall|jj: int| 0 <= jj < universe@.len() ==>
                (#[trigger] row@.contains(jj as usize) <==> exists|y: int|
                    0 <= y < alen + x2 as int
                        && rec_delta(crit, #[trigger] recs[y], name, c as int,
                            universe@[i as int], universe@[jj])),
        decreases imports.audits@.len() - x2,
    {
        let rec = &imports.audits[x2];
        proof {
            assert(recs[alen + x2 as int] == imports.audits@[x2 as int]);
        }
        delta_row_step(Ghost(crit), table, Ghost(recs), Ghost(alen + x2 as int), rec, name, c,
            universe, i, &mut row);
        x2 = x2 + 1;
    }
    proof {
        assert forall|jj: int| 0 <= jj < universe@.len() implies
            (#[trigger] row@.contains(jj as usize) <==>
                delta_edge(crit, recs, name, c as int, universe@[i as int], universe@[jj])) by {
        }
    }
    row
}

/// Decides whether an exemption lets `(name, v)` pass for criterion `c`.
fn exempted_exec(
    Ghost(crit): Ghost<Seq<CriteriaEntry>>,
    table: &Vec<CriteriaSet>,
    default_list: &Vec<usize>,
    exemptions: &Vec<Exemption>,
    name: usize,
    c: usize,
    v: &Version,
) -> (r: bool)
    requires
        closure_table_ok(crit, table@),
        c < table@.len(),
        exs_ids_valid(exemptions@, table@.len() as int),
        ids_valid(default_list@, table@.len() as int),
        ids_set(default_list@) == default_set(crit),
    ensures
        r == exempted_for(crit, exemptions@, name, c as int, *v),
{
    let mut x: usize = 0;
    while x < exemptions.len()
        invariant
            x <= exemptions@.len(),
            closure_table_ok(crit, table@),
            c < table@.len(),
            exs_ids_valid(exemptions@, table@.len() as int),
            ids_valid(default_list@, table@.len() as int),
            ids_set(default_list@) == default_set(crit),
            forall|y: int| 0 <= y < x ==> !((#[trigger] exemptions@[y]).package == name
                && exemptions@[y].version == *v
                && exemption_covers(crit, exemptions@[y], c as int)),
        decreases exemptions@.len() - x,
    {
        let ex = &exemptions[x];
        if ex.package == name && ex.version == *v {
            let cov = match &ex.criteria {
                Option::Some(ids) => covers_exec(Ghost(crit), table, ids, c),
                Option::None => covers_exec(Ghost(crit), table, default_list, c),
            };
            if cov {
                proof {
                    assert(exemption_covers(crit, exemptions@[x as int], c as int));
                }
                return true;
            }
        }
        x = x + 1;
    }
    proof {
        if exempted_for(crit, exemptions@, name, c as int, *v) {
            let y = choose|y: int|
                0 <= y < exemptions@.len() && (#[trigger] exemptions@[y]).package == name
                    && exemptions@[y].version == *v
                    && exemption_covers(crit, exemptions@[y], c as int);
            assert(false);
        }
    }
    false
}

/// Whether two criteria lists are identical.
fn ids_equal(a: &Vec<usize>, b: &Vec<usize>) -> (r: bool)
    ensures
        r == (a@ == b@),
{
    if a.len() != b.len() {
        proof {
            if a@ == b@ {
                assert(a@.len() == b@.len());
            }
        }
        return false;
    }
    let mut i: usize = 0;
    while i < a.len()
        invariant
            i <= a@.len(),
            a@.len() == b@.len(),
            forall|j: int| 0 <= j < i ==> #[trigger] a@[j] == b@[j],
        decreases a@.len() - i,
    {
        if a[i] != b[i] {
            proof {
                if a@ == b@ {
                    assert(a@[i as int] == b@[i as int]);
                }
            }
            return false;
        }
        i = i + 1;
    }
    proof {
        assert(a@ =~= b@);
    }
    true
}

/// Whether some record other than the one at merged index `x1` fully audits
/// `(name, w)` with exactly the criteria list `cl`.
fn full_same_partner(
    audits: &AuditsFile,
    imports: &ImportsFile,
    in_imports: bool,
    pos: usize,
    name: usize,
    w: &Version,
    cl: &Vec<usize>,
) -> (r: bool)
    requires
        in_imports ==> pos < imports.audits@.len(),
        !in_imports ==> pos < audits.audits@.len(),
    ensures
        r == exists|x2: int|
            0 <= x2 < merged_records(*audits, *imports).len()
                && x2 != (if in_imports {
                    audits.audits@.len() + pos as int
                } else {
                    pos as int
                })
                && rec_full_same(#[trigger] merged_records(*audits, *imports)[x2], name, *w, cl@),
{
    let ghost recs = merged_records(*audits, *imports);
    let alen = audits.audits.len();
    let ghost x1 = if in_imports { audits.audits@.len() + pos as int } else { pos as int };
    let mut x: usize = 0;
    while x < alen
        invariant
            x <= audits.audits@.len(),
            alen == audits.audits@.len(),
            recs == merged_records(*audits, *imports),
            x1 == (if in_imports { audits.audits@.len() + pos as int } else { pos as int }),
            in_imports ==> pos < imports.audits@.len(),
            !in_imports ==> pos < audits.audits@.len(),
            forall|y: int| 0 <= y < x && y != x1 ==>
                !rec_full_same(#[trigger] recs[y], name, *w, cl@),
        decreases audits.audits@.len() - x,
    {
        let rec = &audits.audits[x];
        proof {
            assert(recs[x as int] == audits.audits@[x as int]);
        }
        if !(!in_imports && x == pos) && rec.package == name {
            let same = match &rec.kind {
                AuditKind::Full { version } => *version == *w,
                _ => false,
            };
            if same {
                if ids_equal(&rec.criteria, cl) {
                    proof {
                        assert(rec_full_same(recs[x as int], name, *w, cl@));
                        assert((x as int) != x1);
                    }
                    return true;
                }
            }
        }
        x = x + 1;
    }
    let mut x2: usize = 0;
    while x2 < imports.audits.len()
        invariant
            x2 <= imports.audits@.len(),
            alen == audits.audits@.len(),
            recs == merged_records(*audits, *imports),
            x1 == (if in_imports { audits.audits@.len() + pos as int } else { pos as int }),
            in_imports ==> pos < imports.audits@.len(),
            !in_imports ==> pos < audits.audits@.len(),
            forall|y: int| 0 <= y < alen + x2 as int && y != x1 ==>
                !rec_full_same(#[trigger] recs[y], name, *w, cl@),
        decreases imports.audits@.len() - x2,
    {
        let rec = &imports.audits[x2];
        proof {
            assert(recs[alen + x2 as int] == imports.audits@[x2 as int]);
        }
        if !(in_imports && x2 == pos) && rec.package == name {
            let same = match &rec.kind {
                AuditKind::Full { version } => *version == *w,
                _ => false,
            };
            if same {
                if ids_equal(&rec.criteria, cl) {
                    proof {
                        assert(rec_full_same(recs[alen + x2 as int], name, *w, cl@));
                        assert(alen + x2 as int != x1);
                    }
                    return true;
                }
            }
        }
        x2 = x2 + 1;
    }
    proof {
        if exists|y: int|
            0 <= y < recs.len() && y != x1
                && rec_full_same(#[trigger] recs[y], name, *w, cl@) {
            let y = choose|y: int|
                0 <= y < recs.len() && y != x1
                    && rec_full_same(#[trigger] recs[y], name, *w, cl@);
            assert(false);
        }
    }
    false
}

/// Decides whether two distinct records fully audit the same version of
/// `name` for the same criteria list.
fn duplicate_full_exec(audits: &AuditsFile, imports: &ImportsFile, name: usize) -> (r: bool)
    ensures
        r == duplicate_full_audit(merged_records(*audits, *imports), name),
{
    let ghost recs = merged_records(*audits, *imports);
    let alen = audits.audits.len();
    let mut x: usize = 0;
    while x < alen
        invariant
            x <= audits.audits@.len(),
            alen == audits.audits@.len(),
            recs == merged_records(*audits, *imports),
            forall|y: int| 0 <= y < x ==> !((#[trigger] recs[y]).package == name
                && (recs[y].kind matches AuditKind::Full { version }
                    && exists|x2: int|
                        0 <= x2 < recs.len() && x2 != y
                            && rec_full_same(#[trigger] recs[x2], name, version,
                                recs[y].criteria@))),
        decreases audits.audits@.len() - x,
    {
        let rec = &audits.audits[x];
        proof {
            assert(recs[x as int] == audits.audits@[x as int]);
        }
        if rec.package == name {
            let full_version = match &rec.kind {
                AuditKind::Full { version } => Option::Some(*version),
                _ => Option::None,
            };
            if let Option::Some(w) = full_version {
                if full_same_partner(audits, imports, false, x, name, &w, &rec.criteria) {
                    proof {
                        let x2 = choose|x2: int|
                            0 <= x2 < recs.len() && x2 != x as int
                                && rec_full_same(#[trigger] recs[x2], name, w,
                                    rec.criteria@);
                        assert(duplicate_full_audit(recs, name));
                    }
                    return true;
                }
            }
        }
        x = x + 1;
    }
    let mut xb: usize = 0;
    while xb < imports.audits.len()
        invariant
            xb <= imports.audits@.len(),
            alen == audits.audits@.len(),
            recs == merged_records(*audits, *imports),
            forall|y: int| 0 <= y < alen + xb as int ==> !((#[trigger] recs[y]).package == name
                && (recs[y].kind matches AuditKind::Full { version }
                    && exists|x2: int|
                        0 <= x2 < recs.len() && x2 != y
                            && rec_full_same(#[trigger] recs[x2], name, version,
                                recs[y].criteria@))),
        decreases imports.audits@.len() - xb,
    {
        let rec = &imports.audits[xb];
        proof {
            assert(recs[alen + xb as int] == imports.audits@[xb as int]);
        }
        if rec.package == name {
            let full_version = match &rec.kind {
                AuditKind::Full { version } => Option::Some(*version),
                _ => Option::None,
            };
            if let Option::Some(w) = full_version {
                if full_same_partner(audits, imports, true, xb, name, &w, &rec.criteria) {
                    proof {
                        let x2 = choose|x2: int|
                            0 <= x2 < recs.len() && x2 != alen + xb as int
                                && rec_full_same(#[trigger] recs[x2], name, w,
                                    rec.criteria@);
                        assert(duplicate_full_audit(recs, name));
                    }
                    return true;
                }
            }
        }
        xb = xb + 1;
    }
    proof {
        if duplicate_full_audit(recs, name) {
            let (x1, x2) = choose|x1: int, x2: int|
                0 <= x1 < recs.len() && 0 <= x2 < recs.len() && x1 != x2
                    && ((#[trigger] recs[x1]).kind matches AuditKind::Full { version }
                        && recs[x1].package == name
                        && rec_full_same(#[trigger] recs[x2], name, version,
                            recs[x1].criteria@));
            assert(false);
        }
    }
    false
}

/// Decides whether the imported ledger carries records for `name`.
fn imported_present_exec(imports: &ImportsFile, name: usize) -> (r: bool)
    ensures
        r == imported_records_present(*imports, name),
{
    let mut x: usize = 0;
    while x < imports.audits.len()
        invariant
            x <= imports.audits@.len(),
            forall|y: int| 0 <= y < x ==> (#[trigger] imports.audits@[y]).package != name,
        decreases imports.audits@.len() - x,
    {
        if imports.audits[x].package == name {
            return true;
        }
        x = x + 1;
    }
    proof {
        if imported_records_present(*imports, name) {
            let y = choose|y: int|
                0 <= y < imports.audits@.len()
                    && (#[trigger] imports.audits@[y]).package == name;
            assert(false);
        }
    }
    false
}

/// Decides whether any exemption names `(name, v)`.
fn exemption_present_exec(exemptions: &Vec<Exemption>, name: usize, v: &Version) -> (r: bool)
    ensures
        r == exemption_present(exemptions@, name, *v),
{
    let mut x: usize = 0;
    while x < exemptions.len()
        invariant
            x <= exemptions@.len(),
            forall|y: int| 0 <= y < x ==> !((#[trigger] exemptions@[y]).package == name
                && exemptions@[y].version == *v),
        decreases exemptions@.len() - x,
    {
        let ex = &exemptions[x];
        if ex.package == name && ex.version == *v {
            return true;
        }
        x = x + 1;
    }
    proof {
        if exemption_present(exemptions@, name, *v) {
            let y = choose|y: int|
                0 <= y < exemptions@.len() && (#[trigger] exemptions@[y]).package == name
                    && exemptions@[y].version == *v;
            assert(false);
        }
    }
    false
}

/// Decides whether some exemption for `(name, v)` carries the suggest hint.
fn suggest_exec(exemptions: &Vec<Exemption>, name: usize, v: &Version) -> (r: bool)
    ensures
        r == exemption_suggested(exemptions@, name, *v),
{
    let mut x: usize = 0;
    while x < exemptions.len()
        invariant
            x <= exemptions@.len(),
            forall|y: int| 0 <= y < x ==> !((#[trigger] exemptions@[y]).package == name
                && exemptions@[y].version == *v && exemptions@[y].suggest),
        decreases exemptions@.len() - x,
    {
        let ex = &exemptions[x];
        if ex.package == name && ex.version == *v && ex.suggest {
            return true;
        }
        x = x + 1;
    }
    proof {
        if exemption_suggested(exemptions@, name, *v) {
            let y = choose|y: int|
                0 <= y < exemptions@.len() && (#[trigger] exemptions@[y]).package == name
                    && exemptions@[y].version == *v && exemptions@[y].suggest;
            assert(false);
        }
    }
    false
}

/// Decides whether a violation record forbids `(name, v)` under the
/// required criteria.
fn violation_exec(
    Ghost(crit): Ghost<Seq<CriteriaEntry>>,
    table: &Vec<CriteriaSet>,
    audits: &AuditsFile,
    imports: &ImportsFile,
    name: usize,
    v: &Version,
    req: &CriteriaSet,
) -> (r: bool)
    requires
        crit == audits.criteria@,
        closure_table_ok(crit, table@),
        req.width() == table@.len(),
        recs_ids_valid(audits.audits@, table@.len() as int),
        recs_ids_valid(imports.audits@, table@.len() as int),
    ensures
        r == violated(crit, merged_records(*audits, *imports), name, *v, req.sset()),
{
    let ghost recs = merged_records(*audits, *imports);
    let ghost alen = audits.audits@.len() as int;
    let mut x: usize = 0;
    while x < audits.audits.len()
        invariant
            x <= audits.audits@.len(),
            crit == audits.criteria@,
            closure_table_ok(crit, table@),
            req.width() == table@.len(),
            recs_ids_valid(audits.audits@, table@.len() as int),
            recs_ids_valid(imports.audits@, table@.len() as int),
            recs == merged_records(*audits, *imports),
            forall|y: int, d: int| 0 <= y < x ==> !((#[trigger] recs[y]).package == name
                && (recs[y].kind matches AuditKind::Violation { req: vr }
                    && req_matches(vr, *v))
                && #[trigger] req.sset().contains(d) && covers(crit, recs[y].criteria@, d)),
        decreases audits.audits@.len() - x,
    {
        let rec = &audits.audits[x];
        proof {
            assert(recs[x as int] == audits.audits@[x as int]);
        }
        if violation_rec_applies(Ghost(crit), table, Ghost(recs), Ghost(x as int), rec, name, v,
            req) {
            return true;
        }
        x = x + 1;
    }
    let mut x2: usize = 0;
    while x2 < imports.audits.len()
        invariant
            x2 <= imports.audits@.len(),
            crit == audits.criteria@,
            closure_table_ok(crit, table@),
            req.width() == table@.len(),
            recs_ids_valid(audits.audits@, table@.len() as int),
            recs_ids_valid(imports.audits@, table@.len() as int),
            recs == merged_records(*audits, *imports),
            alen == audits.audits@.len() as int,
            forall|y: int, d: int| 0 <= y < alen + x2 as int ==>
                !((#[trigger] recs[y]).package == name
                    && (recs[y].kind matches AuditKind::Violation { req: vr }
                        && req_matches(vr, *v))
                    && #[trigger] req.sset().contains(d) && covers(crit, recs[y].criteria@, d)),
        decreases imports.audits@.len() - x2,
    {
        let rec = &imports.audits[x2];
        proof {
            assert(recs[alen + x2 as int] == imports.audits@[x2 as int]);
        }
        if violation_rec_applies(Ghost(crit), table, Ghost(recs), Ghost(alen + x2 as int), rec,
            name, v, req) {
            return true;
        }
        x2 = x2 + 1;
    }
    proof {
        if violated(crit, recs, name, *v, req.sset()) {
            let (y, d) = choose|y: int, d: int|
                0 <= y < recs.len() && (#[trigger] recs[y]).package == name
                    && (recs[y].kind matches AuditKind::Violation { req: vr }
                        && req_matches(vr, *v))
                    && #[trigger] req.sset().contains(d) && covers(crit, recs[y].criteria@, d);
            assert(false);
        }
    }
    false
}

/// Decides whether one record is a violation of `(name, v)` touching the
/// required criteria.
fn violation_rec_applies(
    Ghost(crit): Ghost<Seq<CriteriaEntry>>,
    table: &Vec<CriteriaSet>,
    Ghost(recs): Ghost<Seq<AuditRecord>>,
    Ghost(y): Ghost<int>,
    rec: &AuditRecord,
    name: usize,
    v: &Version,
    req: &CriteriaSet,
) -> (r: bool)
    requires
        closure_table_ok(crit, table@),
        req.width() == table@.len(),
        ids_valid(rec.criteria@, table@.len() as int),
        0 <= y < recs.len(),
        recs[y] == *rec,
    ensures
        r ==> violated(crit, recs, name, *v, req.sset()),
        !r ==> forall|d: int| !((#[trigger] recs[y]).package == name
            && (recs[y].kind matches AuditKind::Violation { req: vr } && req_matches(vr, *v))
            && #[trigger] req.sset().contains(d) && covers(crit, recs[y].criteria@, d)),
{
    if rec.package != name {
        return false;
    }
    let applies = match &rec.kind {
        AuditKind::Violation { req: vr } => vr.matches(v),
        _ => false,
    };
    if !applies {
        return false;
    }
    let n = table.len();
    let mut d: usize = 0;
    while d < n
        invariant
            d <= n,
            n == table@.len(),
            closure_table_ok(crit, table@),
            req.width() == n,
            ids_valid(rec.criteria@, n as int),
            0 <= y < recs.len(),
            recs[y] == *rec,
            rec.package == name,
            recs[y].kind matches AuditKind::Violation { req: vr } && req_matches(vr, *v),
            forall|d2: int| 0 <= d2 < d ==>
                !(#[trigger] req.sset().contains(d2) && covers(crit, rec.criteria@, d2)),
        decreases n - d,
    {
        if req.has(d) {
            if covers_exec(Ghost(crit), table, &rec.criteria, d) {
                proof {
                    assert((#[trigger] recs[y]).package == name
                        && (recs[y].kind matches AuditKind::Violation { req: vr }
                            && req_matches(vr, *v))
                        && req.sset().contains(d as int)
                        && covers(crit, recs[y].criteria@, d as int));
                }
                return true;
            }
        }
        d = d + 1;
    }
    proof {
        assert forall|d2: int| !((#[trigger] recs[y]).package == name
            && (recs[y].kind matches AuditKind::Violation { req: vr } && req_matches(vr, *v))
            && #[trigger] req.sset().contains(d2) && covers(crit, recs[y].criteria@, d2)) by {
            if req.sset().contains(d2) {
                assert(0 <= d2 < n);
                assert(!(req.sset().contains(d2) && covers(crit, rec.criteria@, d2)));
            }
        }
    }
    false
}

/// Decides whether some delta audit of `name` starts from a version no
/// criterion can certify.
fn unanchored_exec(
    Ghost(crit): Ghost<Seq<CriteriaEntry>>,
    audits: &AuditsFile,
    imports: &ImportsFile,
    name: usize,
    universe: &Vec<Version>,
    cert_any_at: &Vec<bool>,
    Ghost(ncrit): Ghost<int>,
) -> (r: bool)
    requires
        crit == audits.criteria@,
        universe@.len() >= 1,
        universe@.no_duplicates(),
        forall|w: Version| universe@.contains(w) <==>
            (w == universe@[0] || mentioned(merged_records(*audits, *imports), name, w)),
        cert_any_at@.len() == universe@.len(),
        forall|i2: int| 0 <= i2 < universe@.len() ==>
            (#[trigger] cert_any_at@[i2] == exists|c2: int|
                0 <= c2 < ncrit
                    && #[trigger] certified_for(crit, merged_records(*audits, *imports), name,
                        c2, universe@[i2])),
    ensures
        r == unanchored_delta(crit, merged_records(*audits, *imports), name, ncrit),
{
    let ghost recs = merged_records(*audits, *imports);
    let alen = audits.audits.len();
    let mut x: usize = 0;
    while x < alen
        invariant
            x <= audits.audits@.len(),
            alen == audits.audits@.len(),
            crit == audits.criteria@,
            recs == merged_records(*audits, *imports),
            universe@.len() >= 1,
            universe@.no_duplicates(),
            forall|w: Version| universe@.contains(w) <==>
                (w == universe@[0] || mentioned(recs, name, w)),
            cert_any_at@.len() == universe@.len(),
            forall|i2: int| 0 <= i2 < universe@.len() ==>
                (#[trigger] cert_any_at@[i2] == exists|c2: int|
                    0 <= c2 < ncrit
                        && #[trigger] certified_for(crit, recs, name, c2, universe@[i2])),
            forall|y: int| 0 <= y < x ==> !((#[trigger] recs[y]).package == name
                && (recs[y].kind matches AuditKind::Delta { from, .. }
                    && (forall|c: int| 0 <= c < ncrit ==>
                        !certified_for(crit, recs, name, c, from)))),
        decreases audits.audits@.len() - x,
    {
        let rec = &audits.audits[x];
        proof {
            assert(recs[x as int] == audits.audits@[x as int]);
        }
        if unanchored_rec(Ghost(crit), audits, imports, Ghost(x as int), rec, name, universe,
            cert_any_at, Ghost(ncrit)) {
            return true;
        }
        x = x + 1;
    }
    let mut xb: usize = 0;
    while xb < imports.audits.len()
        invariant
            xb <= imports.audits@.len(),
            alen == audits.audits@.len(),
            crit == audits.criteria@,
            recs == merged_records(*audits, *imports),
            universe@.len() >= 1,
            universe@.no_duplicates(),
            forall|w: Version| universe@.contains(w) <==>
                (w == universe@[0] || mentioned(recs, name, w)),
            cert_any_at@.len() == universe@.len(),
            forall|i2: int| 0 <= i2 < universe@.len() ==>
                (#[trigger] cert_any_at@[i2] == exists|c2: int|
                    0 <= c2 < ncrit
                        && #[trigger] certified_for(crit, recs, name, c2, universe@[i2])),
            forall|y: int| 0 <= y < alen + xb as int ==> !((#[trigger] recs[y]).package == name
                && (recs[y].kind matches AuditKind::Delta { from, .. }
                    && (forall|c: int| 0 <= c < ncrit ==>
                        !certified_for(crit, recs, name, c, from)))),
        decreases imports.audits@.len() - xb,
    {
        let rec = &imports.audits[xb];
        proof {
            assert(recs[alen + xb as int] == imports.audits@[xb as int]);
        }
        if unanchored_rec(Ghost(crit), audits, imports, Ghost(alen + xb as int), rec, name,
            universe, cert_any_at, Ghost(ncrit)) {
            return true;
        }
        xb = xb + 1;
    }
    proof {
        if unanchored_delta(crit, recs, name, ncrit) {
            let y = choose|y: int| 0 <= y < recs.len() && (#[trigger] recs[y]).package == name
                && (recs[y].kind matches AuditKind::Delta { from, .. }
                    && (forall|c: int| 0 <= c < ncrit ==>
                        !certified_for(crit, recs, name, c, from)));
            assert(false);
        }
    }
    false
}

/// Checks one record for an unanchored delta source.
fn unanchored_rec(
    Ghost(crit): Ghost<Seq<CriteriaEntry>>,
    audits: &AuditsFile,
    imports: &ImportsFile,
    Ghost(y): Ghost<int>,
    rec: &AuditRecord,
    name: usize,
    universe: &Vec<Version>,
    cert_any_at: &Vec<bool>,
    Ghost(ncrit): Ghost<int>,
) -> (r: bool)
    requires
        crit == audits.criteria@,
        0 <= y < merged_records(*audits, *imports).len(),
        merged_records(*audits, *imports)[y] == *rec,
        universe@.len() >= 1,
        universe@.no_duplicates(),
        forall|w: Version| universe@.contains(w) <==>
            (w == universe@[0] || mentioned(merged_records(*audits, *imports), name, w)),
        cert_any_at@.len() == universe@.len(),
        forall|i2: int| 0 <= i2 < universe@.len() ==>
            (#[trigger] cert_any_at@[i2] == exists|c2: int|
                0 <= c2 < ncrit
                    && #[trigger] certified_for(crit, merged_records(*audits, *imports), name,
                        c2, universe@[i2])),
    ensures
        r == (rec.package == name
            && (rec.kind matches AuditKind::Delta { from, .. }
                && (forall|c: int| 0 <= c < ncrit ==>
                    !certified_for(crit, merged_records(*audits, *imports), name, c, from)))),
{
    let ghost recs = merged_records(*audits, *imports);
    if rec.package != name {
        return false;
    }
    let from = match &rec.kind {
        AuditKind::Delta { from, .. } => Option::Some(*from),
        _ => Option::None,
    };
    match from {
        Option::None => false,
        Option::Some(w) => {
            proof {
                assert(rec_mentions(recs[y], name, w));
                assert(mentioned(recs, name, w));
                assert(universe@.contains(w));
            }
            let j = find_version(universe, &w);
            if cert_any_at[j] {
                proof {
                    let c2 = choose|c2: int|
                        0 <= c2 < ncrit
                            && #[trigger] certified_for(crit, recs, name, c2,
                                universe@[j as int]);
                    assert(certified_for(crit, recs, name, c2, w));
                }
                false
            } else {
                proof {
                    assert forall|c: int| 0 <= c < ncrit implies
                        !certified_for(crit, recs, name, c, w) by {
                        if certified_for(crit, recs, name, c, w) {
                            assert(certified_for(crit, recs, name, c, universe@[j as int]));
                            assert(cert_any_at@[j as int]);
                        }
                    }
                }
                true
            }
        },
    }
}

/// One certified criterion with its witness chain: the first version is
/// fully audited, consecutive pairs are delta audits covering the
/// criterion, and the last version is the installed one.
#[derive(Debug)]
pub struct EvidenceEntry {
    pub criterion: usize,
    pub chain: Vec<Version>,
}

/// Everything the resolver reports about one package version, verdict and
/// evidence both.
pub struct PackageAnalysis {
    /// The adjudicated verdict.
    pub verdict: Verdict,
    /// Whether every required criterion is certified by audit chains alone,
    /// exemptions ignored.
    pub fully_certified: bool,
    /// The required criteria covered only by an exemption.
    pub exempted_criteria: CriteriaSet,
    /// The required criteria neither certified nor exempted.
    pub uncovered_criteria: CriteriaSet,
    /// An exemption for this version is no longer needed: one exists, yet
    /// audit chains alone already certify every required criterion.
    pub exemption_removable: bool,
    /// Some exemption for this version carries the user's `suggest` hint.
    pub exemption_suggest: bool,
    /// For an `Uncertifiable` package: the greatest ledger-mentioned version
    /// below the installed one that audit chains fully certify, if any.
    pub nearest_certified: Option<Version>,
    /// Soft warning: two records fully audit the same version for the same
    /// criteria list.
    pub duplicate_full_audit: bool,
    /// Soft warning: some delta audit starts from a version no criterion
    /// can certify.
    pub unanchored_delta: bool,
    /// The imported ledger carries records for this package: its evidence
    /// is not purely local.
    pub imported_audits: bool,
    /// Per certified required criterion, one witness chain of versions.
    pub evidence: Vec<EvidenceEntry>,
}

/// Criteria below `hi` that are required are certified.
pub open spec fn certified_below(
    crit: Seq<CriteriaEntry>,
    recs: Seq<AuditRecord>,
    name: usize,
    v: Version,
    req: Set<int>,
    hi: int,
) -> bool {
    forall|c: int| 0 <= c < hi && #[trigger] req.contains(c) ==>
        certified_for(crit, recs, name, c, v)
}

/// Criteria below `hi` that are required are certified or exempted.
pub open spec fn covered_below(
    crit: Seq<CriteriaEntry>,
    recs: Seq<AuditRecord>,
    exs: Seq<Exemption>,
    name: usize,
    v: Version,
    req: Set<int>,
    hi: int,
) -> bool {
    forall|c: int| 0 <= c < hi && #[trigger] req.contains(c) ==>
        certified_for(crit, recs, name, c, v) || exempted_for(crit, exs, name, c, v)
}

/// Resolves one package: adjudicates violations first, then runs the
/// per-criterion chain search and exemption lookup, and reports the verdict
/// with its evidence.
pub fn solve_package(
    audits: &AuditsFile,
    imports: &ImportsFile,
    table: &Vec<CriteriaSet>,
    default_list: &Vec<usize>,
    exemptions: &Vec<Exemption>,
    name: usize,
    v: Version,
    req: &CriteriaSet,
    first_party: bool,
) -> (r: PackageAnalysis)
    requires
        closure_table_ok(audits.criteria@, table@),
        req.width() == table@.len(),
        recs_ids_valid(audits.audits@, table@.len() as int),
        recs_ids_valid(imports.audits@, table@.len() as int),
        exs_ids_valid(exemptions@, table@.len() as int),
        ids_valid(default_list@, table@.len() as int),
        ids_set(default_list@) == default_set(audits.criteria@),
    ensures
        r.verdict == adjudicated(audits.criteria@, merged_records(*audits, *imports), exemptions@,
            first_party, name, v, req.sset()),
        r.fully_certified == all_certified(audits.criteria@, merged_records(*audits, *imports),
            name, v, req.sset()),
        r.exemption_removable == (exemption_present(exemptions@, name, v)
            && all_certified(audits.criteria@, merged_records(*audits, *imports), name, v,
                req.sset())),
        r.exemption_suggest == exemption_suggested(exemptions@, name, v),
        r.exempted_criteria.width() == table@.len(),
        r.uncovered_criteria.width() == table@.len(),
        forall|c: int| #[trigger] r.exempted_criteria.sset().contains(c) <==>
            (req.sset().contains(c)
                && !certified_for(audits.criteria@, merged_records(*audits, *imports), name, c, v)
                && exempted_for(audits.criteria@, exemptions@, name, c, v)),
        forall|c: int| #[trigger] r.uncovered_criteria.sset().contains(c) <==>
            (req.sset().contains(c)
                && !certified_for(audits.criteria@, merged_records(*audits, *imports), name, c, v)
                && !exempted_for(audits.criteria@, exemptions@, name, c, v)),
        r.duplicate_full_audit == duplicate_full_audit(merged_records(*audits, *imports), name),
        r.imported_audits == imported_records_present(*imports, name),
        forall|e: int| 0 <= e < r.evidence@.len() ==> {
            let ent = #[trigger] r.evidence@[e];
            &&& req.sset().contains(ent.criterion as int)
            &&& ent.chain@.len() >= 1
            &&& delta_path(audits.criteria@, merged_records(*audits, *imports), name,
                ent.criterion as int, ent.chain@)
            &&& full_certifies(audits.criteria@, merged_records(*audits, *imports), name,
                ent.criterion as int, ent.chain@[0])
            &&& ent.chain@[ent.chain@.len() - 1] == v
        },
        forall|c2: int|
            (#[trigger] req.sset().contains(c2)
                && certified_for(audits.criteria@, merged_records(*audits, *imports), name, c2,
                    v)) <==> exists|e: int|
                0 <= e < r.evidence@.len()
                    && ((#[trigger] r.evidence@[e]).criterion as int) == c2,
        r.unanchored_delta == unanchored_delta(audits.criteria@,
            merged_records(*audits, *imports), name, table@.len() as int),
        match r.nearest_certified {
            Option::Some(w) => r.verdict == Verdict::Uncertifiable
                && chain_candidate(audits.criteria@, merged_records(*audits, *imports), name, v,
                    req.sset(), w)
                && forall|w2: Version|
                    #[trigger] chain_candidate(audits.criteria@, merged_records(*audits,
                        *imports), name, v, req.sset(), w2) ==> version_le(w2, w),
            Option::None => r.verdict != Verdict::Uncertifiable
                || forall|w2: Version|
                    !#[trigger] chain_candidate(audits.criteria@, merged_records(*audits,
                        *imports), name, v, req.sset(), w2),
        },
{
    let ghost crit = audits.criteria@;
    let ghost recs = merged_records(*audits, *imports);
    let n = table.len();
    let universe = build_universe(audits, imports, name, v);
    let ulen = universe.len();
    let mut all_cert_at: Vec<bool> = Vec::new();
    let mut cert_any_at: Vec<bool> = Vec::new();
    let mut ii0: usize = 0;
    while ii0 < ulen
        invariant
            all_cert_at@.len() == ii0,
            cert_any_at@.len() == ii0,
            ii0 <= ulen,
            forall|j: int| 0 <= j < ii0 ==> #[trigger] all_cert_at@[j],
            forall|j: int| 0 <= j < ii0 ==> !(#[trigger] cert_any_at@[j]),
        decreases ulen - ii0,
    {
        all_cert_at.push(true);
        cert_any_at.push(false);
        ii0 = ii0 + 1;
    }
    let mut cert_all = true;
    let mut cov_all = true;
    let mut ex_set = CriteriaSet::empty(n);
    let mut unc_set = CriteriaSet::empty(n);
    let mut evidence: Vec<EvidenceEntry> = Vec::new();
    let mut c: usize = 0;
    while c < n
        invariant
            c <= n,
            n == table@.len(),
            crit == audits.criteria@,
            recs == merged_records(*audits, *imports),
            closure_table_ok(crit, table@),
            req.width() == n,
            recs_ids_valid(audits.audits@, n as int),
            recs_ids_valid(imports.audits@, n as int),
            exs_ids_valid(exemptions@, n as int),
            ids_valid(default_list@, n as int),
            ids_set(default_list@) == default_set(crit),
            universe@.len() >= 1,
            universe@[0] == v,
            universe@.no_duplicates(),
            forall|w: Version| universe@.contains(w) <==>
                (w == v || mentioned(recs, name, w)),
            ex_set.width() == n,
            unc_set.width() == n,
            ulen == universe@.len(),
            all_cert_at@.len() == ulen,
            cert_any_at@.len() == ulen,
            forall|i2: int| 0 <= i2 < universe@.len() ==>
                (#[trigger] all_cert_at@[i2] == certified_below(crit, recs, name,
                    universe@[i2], req.sset(), c as int)),
            forall|i2: int| 0 <= i2 < universe@.len() ==>
                (#[trigger] cert_any_at@[i2] == exists|c2: int|
                    0 <= c2 < c as int
                        && #[trigger] certified_for(crit, recs, name, c2, universe@[i2])),
            cert_all == certified_below(crit, recs, name, v, req.sset(), c as int),
            cov_all == covered_below(crit, recs, exemptions@, name, v, req.sset(), c as int),
            forall|d: int| #[trigger] ex_set.sset().contains(d) <==>
                (0 <= d < c && req.sset().contains(d)
                    && !certified_for(crit, recs, name, d, v)
                    && exempted_for(crit, exemptions@, name, d, v)),
            forall|d: int| #[trigger] unc_set.sset().contains(d) <==>
                (0 <= d < c && req.sset().contains(d)
                    && !certified_for(crit, recs, name, d, v)
                    && !exempted_for(crit, exemptions@, name, d, v)),
            forall|e: int| 0 <= e < evidence@.len() ==> {
                let ent = #[trigger] evidence@[e];
                &&& (ent.criterion as int) < c as int
                &&& req.sset().contains(ent.criterion as int)
                &&& ent.chain@.len() >= 1
                &&& delta_path(crit, recs, name, ent.criterion as int, ent.chain@)
                &&& full_certifies(crit, recs, name, ent.criterion as int, ent.chain@[0])
                &&& ent.chain@[ent.chain@.len() - 1] == v
            },
            forall|c2: int| 0 <= c2 < c as int && #[trigger] req.sset().contains(c2)
                && certified_for(crit, recs, name, c2, v) ==> exists|e: int|
                0 <= e < evidence@.len()
                    && ((#[trigger] evidence@[e]).criterion as int) == c2,
        decreases n - c,
    {
        let cert_pair = certified_exec(Ghost(crit), table, audits, imports, name, c,
            &universe);
        let cert_vec = cert_pair.0;
        let chain_opt = cert_pair.1;
        let ghost pre_any = cert_any_at@;
        let mut ia: usize = 0;
        while ia < ulen
            invariant
                ia <= ulen,
                cert_any_at@.len() == ulen,
                cert_vec@.len() == ulen,
                forall|j: int| 0 <= j < ia ==>
                    #[trigger] cert_any_at@[j] == (pre_any[j] || cert_vec@[j]),
                forall|j: int| ia <= j < ulen ==> #[trigger] cert_any_at@[j] == pre_any[j],
            decreases ulen - ia,
        {
            if cert_vec[ia] {
                cert_any_at.set(ia, true);
            }
            ia = ia + 1;
        }
        proof {
            assert forall|i2: int| 0 <= i2 < universe@.len() implies
                (#[trigger] cert_any_at@[i2] == exists|c2: int|
                    0 <= c2 < c as int + 1
                        && #[trigger] certified_for(crit, recs, name, c2, universe@[i2])) by {
                assert(cert_any_at@[i2] == (pre_any[i2] || cert_vec@[i2]));
                assert(cert_vec@[i2] == certified_for(crit, recs, name, c as int,
                    universe@[i2]));
                if cert_any_at@[i2] {
                    if pre_any[i2] {
                        let c2 = choose|c2: int|
                            0 <= c2 < c as int
                                && #[trigger] certified_for(crit, recs, name, c2,
                                    universe@[i2]);
                        assert(certified_for(crit, recs, name, c2, universe@[i2]));
                    } else {
                        assert(certified_for(crit, recs, name, c as int, universe@[i2]));
                    }
                } else {
                    if exists|c2: int|
                        0 <= c2 < c as int + 1
                            && #[trigger] certified_for(crit, recs, name, c2, universe@[i2]) {
                        let c2 = choose|c2: int|
                            0 <= c2 < c as int + 1
                                && #[trigger] certified_for(crit, recs, name, c2,
                                    universe@[i2]);
                        if c2 < c as int {
                            assert(pre_any[i2]);
                        }
                    }
                }
            }
        }
        if req.has(c) {
            let is_cert = cert_vec[0];
            let ghost pre_aca = all_cert_at@;
            let mut ii: usize = 0;
            while ii < ulen
                invariant
                    ii <= ulen,
                    all_cert_at@.len() == ulen,
                    cert_vec@.len() == ulen,
                    forall|j: int| 0 <= j < ii ==>
                        #[trigger] all_cert_at@[j] == (pre_aca[j] && cert_vec@[j]),
                    forall|j: int| ii <= j < ulen ==> #[trigger] all_cert_at@[j] == pre_aca[j],
                decreases ulen - ii,
            {
                if !cert_vec[ii] {
                    all_cert_at.set(ii, false);
                }
                ii = ii + 1;
            }
            proof {
                assert forall|i2: int| 0 <= i2 < universe@.len() implies
                    (#[trigger] all_cert_at@[i2] == certified_below(crit, recs, name,
                        universe@[i2], req.sset(), c as int + 1)) by {
                    assert(all_cert_at@[i2] == (pre_aca[i2] && cert_vec@[i2]));
                    assert(cert_vec@[i2] == certified_for(crit, recs, name, c as int,
                        universe@[i2]));
                    if all_cert_at@[i2] {
                        assert forall|c2: int|
                            0 <= c2 < c as int + 1 && #[trigger] req.sset().contains(c2) implies
                            certified_for(crit, recs, name, c2, universe@[i2]) by {
                            if c2 == c as int {
                                assert(cert_vec@[i2]);
                            }
                        }
                    } else {
                        if pre_aca[i2] {
                            assert(req.sset().contains(c as int));
                            assert(!certified_for(crit, recs, name, c as int, universe@[i2]));
                        } else {
                            if certified_below(crit, recs, name, universe@[i2], req.sset(),
                                c as int + 1) {
                                assert(certified_below(crit, recs, name, universe@[i2],
                                    req.sset(), c as int));
                            }
                        }
                    }
                }
            }
            if is_cert {
                match chain_opt {
                    Option::Some(chain) => {
                        let ghost pre_ev = evidence@;
                        evidence.push(EvidenceEntry { criterion: c, chain });
                        proof {
                            assert forall|c2: int|
                                0 <= c2 < c as int + 1 && #[trigger] req.sset().contains(c2)
                                    && certified_for(crit, recs, name, c2, v) implies
                                exists|e: int|
                                    0 <= e < evidence@.len()
                                        && ((#[trigger] evidence@[e]).criterion as int) == c2
                                by {
                                if c2 == c as int {
                                    assert((evidence@[evidence@.len() - 1].criterion as int)
                                        == c2);
                                } else {
                                    let e = choose|e: int|
                                        0 <= e < pre_ev.len()
                                            && ((#[trigger] pre_ev[e]).criterion as int) == c2;
                                    assert((evidence@[e].criterion as int) == c2);
                                }
                            }
                        }
                    },
                    Option::None => {
                        proof {
                            assert(false);
                        }
                    },
                }
            } else {
                cert_all = false;
                let is_ex = exempted_exec(Ghost(crit), table, default_list, exemptions, name, c,
                    &v);
                if is_ex {
                    ex_set.insert(c);
                } else {
                    cov_all = false;
                    unc_set.insert(c);
                }
            }
        } else {
            proof {
                assert forall|i2: int| 0 <= i2 < universe@.len() implies
                    (#[trigger] all_cert_at@[i2] == certified_below(crit, recs, name,
                        universe@[i2], req.sset(), c as int + 1)) by {
                    if all_cert_at@[i2] {
                        assert forall|c2: int|
                            0 <= c2 < c as int + 1 && #[trigger] req.sset().contains(c2) implies
                            certified_for(crit, recs, name, c2, universe@[i2]) by {
                            if c2 == c as int {
                                assert(!req.sset().contains(c as int));
                            }
                        }
                    } else {
                        if certified_below(crit, recs, name, universe@[i2], req.sset(),
                            c as int + 1) {
                            assert(certified_below(crit, recs, name, universe@[i2],
                                req.sset(), c as int));
                        }
                    }
                }
            }
        }
        c = c + 1;
    }
    proof {
        // a required criterion is always one of the table's
        assert forall|c2: int| #[trigger] req.sset().contains(c2) implies 0 <= c2 < n by {}
        assert(cert_all == all_certified(crit, recs, name, v, req.sset()));
        if cov_all {
            assert(all_covered(crit, recs, exemptions@, name, v, req.sset()));
        }
        if all_covered(crit, recs, exemptions@, name, v, req.sset()) {
            assert(covered_below(crit, recs, exemptions@, name, v, req.sset(), n as int));
        }
        assert forall|c2: int|
            (exists|e: int| 0 <= e < evidence@.len()
                && ((#[trigger] evidence@[e]).criterion as int) == c2) implies
            (req.sset().contains(c2) && certified_for(crit, recs, name, c2, v)) by {
            let e = choose|e: int|
                0 <= e < evidence@.len()
                    && ((#[trigger] evidence@[e]).criterion as int) == c2;
            let ent = evidence@[e];
            assert(req.sset().contains(ent.criterion as int));
            assert(delta_path(crit, recs, name, ent.criterion as int, ent.chain@)
                && full_certifies(crit, recs, name, ent.criterion as int, ent.chain@[0])
                && ent.chain@[ent.chain@.len() - 1] == v);
            assert(certified_for(crit, recs, name, c2, v));
        }
        assert forall|c2: int|
            (#[trigger] req.sset().contains(c2) && certified_for(crit, recs, name, c2, v))
                implies exists|e: int|
                0 <= e < evidence@.len()
                    && ((#[trigger] evidence@[e]).criterion as int) == c2 by {
            assert(0 <= c2 < n);
        }
        assert forall|i2: int| 0 <= i2 < universe@.len() implies
            (#[trigger] all_cert_at@[i2] == all_certified(crit, recs, name, universe@[i2],
                req.sset())) by {
            if all_cert_at@[i2] {
                assert forall|c2: int| #[trigger] req.sset().contains(c2) implies
                    certified_for(crit, recs, name, c2, universe@[i2]) by {
                    assert(0 <= c2 < n);
                }
            } else {
                if all_certified(crit, recs, name, universe@[i2], req.sset()) {
                    assert(certified_below(crit, recs, name, universe@[i2], req.sset(),
                        n as int));
                }
            }
        }
    }
    // the greatest fully certified version below the installed one
    let mut best: Option<Version> = Option::None;
    let mut bi: usize = 0;
    while bi < ulen
        invariant
            bi <= ulen,
            ulen == universe@.len(),
            universe@.len() >= 1,
            universe@[0] == v,
            universe@.no_duplicates(),
            crit == audits.criteria@,
            recs == merged_records(*audits, *imports),
            forall|w: Version| universe@.contains(w) <==>
                (w == v || mentioned(recs, name, w)),
            all_cert_at@.len() == ulen,
            forall|i2: int| 0 <= i2 < universe@.len() ==>
                (#[trigger] all_cert_at@[i2] == all_certified(crit, recs, name, universe@[i2],
                    req.sset())),
            match best {
                Option::Some(w) => chain_candidate(crit, recs, name, v, req.sset(), w)
                    && forall|j: int|
                        0 <= j < bi && version_lt(#[trigger] universe@[j], v)
                            && all_cert_at@[j] ==> version_le(universe@[j], w),
                Option::None => forall|j: int|
                    0 <= j < bi ==> !(version_lt(#[trigger] universe@[j], v)
                        && all_cert_at@[j]),
            },
        decreases ulen - bi,
    {
        let w_i = universe[bi];
        if w_i.lt(&v) && all_cert_at[bi] {
            proof {
                assert(universe@[bi as int] == w_i);
                assert(universe@.contains(w_i));
                assert(w_i != v);
                assert(mentioned(recs, name, w_i));
                assert(chain_candidate(crit, recs, name, v, req.sset(), w_i));
            }
            match best {
                Option::None => {
                    best = Option::Some(w_i);
                },
                Option::Some(w_old) => {
                    if w_old.lt(&w_i) {
                        proof {
                            assert forall|j: int|
                                0 <= j < bi + 1 && version_lt(#[trigger] universe@[j], v)
                                    && all_cert_at@[j] implies
                                version_le(universe@[j], w_i) by {
                                if j < bi as int {
                                    lemma_version_le_lt_trans(universe@[j], w_old, w_i);
                                }
                            }
                        }
                        best = Option::Some(w_i);
                    } else {
                        proof {
                            lemma_version_total(w_old, w_i);
                            assert(version_le(w_i, w_old));
                        }
                    }
                },
            }
        }
        bi = bi + 1;
    }
    proof {
        match best {
            Option::Some(w) => {
                assert forall|w2: Version|
                    #[trigger] chain_candidate(crit, recs, name, v, req.sset(), w2) implies
                    version_le(w2, w) by {
                    assert(universe@.contains(w2));
                    let j = choose|j: int| 0 <= j < universe@.len() && universe@[j] == w2;
                    assert(all_cert_at@[j]);
                    assert(version_lt(universe@[j], v));
                }
            },
            Option::None => {
                assert forall|w2: Version|
                    !#[trigger] chain_candidate(crit, recs, name, v, req.sset(), w2) by {
                    if chain_candidate(crit, recs, name, v, req.sset(), w2) {
                        assert(universe@.contains(w2));
                        let j = choose|j: int| 0 <= j < universe@.len() && universe@[j] == w2;
                        assert(all_cert_at@[j]);
                        assert(!(version_lt(universe@[j], v) && all_cert_at@[j]));
                    }
                }
            },
        }
    }
    let has_violation = violation_exec(Ghost(crit), table, audits, imports, name, &v, req);
    let suggest = suggest_exec(exemptions, name, &v);
    let verdict = if has_violation {
        Verdict::Forbidden
    } else if first_party {
        Verdict::Certified
    } else if cert_all {
        Verdict::Certified
    } else if cov_all {
        Verdict::Exempted
    } else {
        Verdict::Uncertifiable
    };
    let removable = exemption_present_exec(exemptions, name, &v) && cert_all;
    let nearest_certified = match verdict {
        Verdict::Uncertifiable => best,
        _ => Option::None,
    };
    let dup_full = duplicate_full_exec(audits, imports, name);
    let has_imported = imported_present_exec(imports, name);
    let unanchored = unanchored_exec(Ghost(crit), audits, imports, name, &universe,
        &cert_any_at, Ghost(n as int));
    let result = PackageAnalysis {
        verdict,
        fully_certified: cert_all,
        exempted_criteria: ex_set,
        uncovered_criteria: unc_set,
        exemption_removable: removable,
        exemption_suggest: suggest,
        nearest_certified,
        duplicate_full_audit: dup_full,
        unanchored_delta: unanchored,
        imported_audits: has_imported,
        evidence,
    };
    proof {
        assert forall|c2: int|
            ((#[trigger] req.sset().contains(c2) && certified_for(crit, recs, name, c2, v))
                <==> exists|e: int|
                    0 <= e < result.evidence@.len()
                        && ((#[trigger] result.evidence@[e]).criterion as int) == c2) by {
            if req.sset().contains(c2) && certified_for(crit, recs, name, c2, v) {
                assert(0 <= c2 < n);
                let e = choose|e: int|
                    0 <= e < evidence@.len()
                        && ((#[trigger] evidence@[e]).criterion as int) == c2;
                assert((result.evidence@[e].criterion as int) == c2);
            }
            if exists|e: int|
                0 <= e < result.evidence@.len()
                    && ((#[trigger] result.evidence@[e]).criterion as int) == c2 {
                let e = choose|e: int|
                    0 <= e < result.evidence@.len()
                        && ((#[trigger] result.evidence@[e]).criterion as int) == c2;
                let ent = result.evidence@[e];
                assert(req.sset().contains(ent.criterion as int));
                assert(delta_path(crit, recs, name, ent.criterion as int, ent.chain@)
                    && full_certifies(crit, recs, name, ent.criterion as int, ent.chain@[0])
                    && ent.chain@[ent.chain@.len() - 1] == v);
                assert(certified_for(crit, recs, name, c2, v));
            }
        }
    }
    result
}

/// Processes one record while building an adjacency row.
fn delta_row_step(
    Ghost(crit): Ghost<Seq<CriteriaEntry>>,
    table: &Vec<CriteriaSet>,
    Ghost(recs): Ghost<Seq<AuditRecord>>,
    Ghost(y): Ghost<int>,
    rec: &AuditRecord,
    name: usize,
    c: usize,
    universe: &Vec<Version>,
    i: usize,
    row: &mut Vec<usize>,
)
    requires
        closure_table_ok(crit, table@),
        c < table@.len(),
        ids_valid(rec.criteria@, table@.len() as int),
        0 <= y < recs.len(),
        recs[y] == *rec,
        i < universe@.len(),
        universe@.no_duplicates(),
        forall|w: Version| universe@.contains(w) <==>
            (w == universe@[0] || mentioned(recs, name, w)),
        forall|k: int| 0 <= k < old(row)@.len() ==>
            (#[trigger] old(row)@[k] as int) < universe@.len(),
        forall|jj: int| 0 <= jj < universe@.len() ==>
            (#[trigger] old(row)@.contains(jj as usize) <==> exists|y2: int|
                0 <= y2 < y
                    && rec_delta(crit, #[trigger] recs[y2], name, c as int,
                        universe@[i as int], universe@[jj])),
    ensures
        forall|k: int| 0 <= k < final(row)@.len() ==>
            (#[trigger] final(row)@[k] as int) < universe@.len(),
        forall|jj: int| 0 <= jj < universe@.len() ==>
            (#[trigger] final(row)@.contains(jj as usize) <==> exists|y2: int|
                0 <= y2 < y + 1
                    && rec_delta(crit, #[trigger] recs[y2], name, c as int,
                        universe@[i as int], universe@[jj])),
{
    let ghost pre = row@;
    let un = universe.len();
    let mut pushed = false;
    let ghost mut target: int = 0int;
    if rec.package == name {
        let matches_from = match &rec.kind {
            AuditKind::Delta { from, .. } => *from == universe[i],
            _ => false,
        };
        if matches_from {
            if covers_exec(Ghost(crit), table, &rec.criteria, c) {
                let to = match &rec.kind {
                    AuditKind::Delta { to, .. } => *to,
                    _ => universe[i],
                };
                proof {
                    assert(rec_mentions(recs[y], name, to));
                    assert(mentioned(recs, name, to));
                    assert(universe@.contains(to));
                }
                let j = find_version(universe, &to);
                row.push(j);
                pushed = true;
                proof {
                    target = j as int;
                    assert(rec_delta(crit, recs[y], name, c as int, universe@[i as int],
                        universe@[j as int]));
                }
            }
        }
    }
    proof {
        if pushed {
            assert forall|jj: int| 0 <= jj < universe@.len() implies
                (#[trigger] row@.contains(jj as usize) <==> exists|y2: int|
                    0 <= y2 < y + 1
                        && rec_delta(crit, #[trigger] recs[y2], name, c as int,
                            universe@[i as int], universe@[jj])) by {
                if row@.contains(jj as usize) {
                    let k = choose|k: int| 0 <= k < row@.len() && row@[k] == jj as usize;
                    if k < pre.len() {
                        assert(pre[k] == jj as usize);
                        assert(pre.contains(jj as usize));
                        let y2 = choose|y2: int|
                            0 <= y2 < y && rec_delta(crit, #[trigger] recs[y2], name, c as int,
                                universe@[i as int], universe@[jj]);
                        assert(rec_delta(crit, recs[y2], name, c as int, universe@[i as int],
                            universe@[jj]));
                    } else {
                        assert(row@[k] as int == target);
                        assert(row@[k] == jj as usize);
                        assert(0 <= jj < un as int);
                        assert((jj as usize) as int == jj);
                        assert(jj == target);
                        assert(rec_delta(crit, recs[y], name, c as int, universe@[i as int],
                            universe@[jj]));
                    }
                }
                if exists|y2: int|
                    0 <= y2 < y + 1
                        && rec_delta(crit, #[trigger] recs[y2], name, c as int,
                            universe@[i as int], universe@[jj]) {
                    let y2 = choose|y2: int|
                        0 <= y2 < y + 1
                            && rec_delta(crit, #[trigger] recs[y2], name, c as int,
                                universe@[i as int], universe@[jj]);
                    if y2 < y {
                        assert(pre.contains(jj as usize));
                        let k = choose|k: int| 0 <= k < pre.len() && pre[k] == jj as usize;
                        assert(row@[k] == jj as usize);
                    } else {
                        // the record's target is `universe[jj]`; indices agree
                        // because the universe has no duplicates
                        assert(universe@[target] == universe@[jj]);
                        assert(target == jj);
                        assert(row@[row@.len() - 1] == jj as usize);
                    }
                }
            }
        } else {
            assert(row@ == pre);
            assert forall|jj: int| 0 <= jj < universe@.len() implies
                (#[trigger] row@.contains(jj as usize) <==> exists|y2: int|
                    0 <= y2 < y + 1
                        && rec_delta(crit, #[trigger] recs[y2], name, c as int,
                            universe@[i as int], universe@[jj])) by {
                if exists|y2: int|
                    0 <= y2 < y + 1
                        && rec_delta(crit, #[trigger] recs[y2], name, c as int,
                            universe@[i as int], universe@[jj]) {
                    let y2 = choose|y2: int|
                        0 <= y2 < y + 1
                            && rec_delta(crit, #[trigger] recs[y2], name, c as int,
                                universe@[i as int], universe@[jj]);
                    assert(y2 < y);
                }
            }
        }
    }
}

} // verus!
