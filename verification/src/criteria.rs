//! Trust criteria, criteria sets, and the implication closure engine.
//!
//! Criteria are identified by their index into the table of criteria
//! definitions. Each definition lists the criteria it implies; the closure
//! engine expands that relation transitively, detects cycles among the
//! definitions (a fatal configuration error), and precomputes one closed set
//! per criterion for reuse by every later per-package check.

use vstd::prelude::*;
use crate::reach::{
    adj_represents, has_cycle, lemma_cycle_iff, lemma_reach_refl, lemma_reach_trans, reaches,
    reaches_from, reachable_set, valid_path,
};

verus! {

/// One criteria definition: the criteria it implies, and whether it belongs
/// to the default required set.
pub struct CriteriaEntry {
    pub implies: Vec<usize>,
    pub is_default: bool,
}

/// Every identifier in `ids` names a criterion of a table with `n` entries.
pub open spec fn ids_valid(ids: Seq<usize>, n: int) -> bool {
    forall|k: int| 0 <= k < ids.len() ==> (#[trigger] ids[k] as int) < n
}

/// Every implication in the table stays inside the table.
pub open spec fn entries_valid(entries: Seq<CriteriaEntry>) -> bool {
    forall|i: int|
        0 <= i < entries.len() ==> ids_valid(#[trigger] entries[i].implies@, entries.len() as int)
}

/// The one-step implication relation between criteria indices.
pub open spec fn crit_rel(entries: Seq<CriteriaEntry>) -> spec_fn(int, int) -> bool {
    |a: int, b: int|
        0 <= a < entries.len() && 0 <= b < entries.len()
            && entries[a].implies@.contains(b as usize)
}

/// Criterion `a` transitively implies criterion `b` (reflexively).
pub open spec fn implies_star(entries: Seq<CriteriaEntry>, a: int, b: int) -> bool {
    reaches(entries.len() as int, crit_rel(entries), a, b)
}

/// The set of identifiers a sequence of identifiers denotes.
pub open spec fn ids_set(ids: Seq<usize>) -> Set<int> {
    Set::new(|i: int| exists|k: int| 0 <= k < ids.len() && (#[trigger] ids[k] as int) == i)
}

/// The transitive closure of a set of criteria under implication.
pub open spec fn closure_of(entries: Seq<CriteriaEntry>, s: Set<int>) -> Set<int> {
    Set::new(|d: int| exists|c: int| s.contains(c) && implies_star(entries, c, d))
}

/// The implication graph among the criteria definitions has a cycle.
pub open spec fn crit_cyclic(entries: Seq<CriteriaEntry>) -> bool {
    has_cycle(entries.len() as int, crit_rel(entries))
}

/// The criteria marked as default.
pub open spec fn default_set(entries: Seq<CriteriaEntry>) -> Set<int> {
    Set::new(|i: int| 0 <= i < entries.len() && entries[i].is_default)
}

/// Both endpoints of a transitive implication are criteria of the table.
pub proof fn lemma_star_bounds(entries: Seq<CriteriaEntry>, a: int, b: int)
    requires
        implies_star(entries, a, b),
    ensures
        0 <= a < entries.len(),
        0 <= b < entries.len(),
{
    let n = entries.len() as int;
    let rel = crit_rel(entries);
    let p = choose|p: Seq<int>| valid_path(n, rel, p) && p[0] == a && p[p.len() - 1] == b;
    assert(0 <= p[0] < n);
    assert(0 <= p[p.len() - 1] < n);
}

/// Closing a criteria set twice adds nothing beyond closing it once:
/// `closure(closure(R)) == closure(R)` for any criteria set `R`.
pub proof fn lemma_closure_idempotent(entries: Seq<CriteriaEntry>, s: Set<int>)
    ensures
        closure_of(entries, closure_of(entries, s)) =~= closure_of(entries, s),
{
    let once = closure_of(entries, s);
    let twice = closure_of(entries, once);
    assert forall|d: int| once.contains(d) implies twice.contains(d) by {
        lemma_star_bounds(entries, choose|c: int| s.contains(c) && implies_star(entries, c, d), d);
        lemma_reach_refl(entries.len() as int, crit_rel(entries), d);
        assert(once.contains(d) && implies_star(entries, d, d));
    }
    assert forall|d: int| twice.contains(d) implies once.contains(d) by {
        let c = choose|c: int| once.contains(c) && implies_star(entries, c, d);
        let e = choose|e: int| s.contains(e) && implies_star(entries, e, c);
        lemma_reach_trans(entries.len() as int, crit_rel(entries), e, c, d);
        assert(s.contains(e) && implies_star(entries, e, d));
    }
}

/// A set of criteria, as one membership flag per criterion of the table.
#[derive(Debug)]
pub struct CriteriaSet {
    pub bits: Vec<bool>,
}

impl CriteriaSet {
    /// The number of criteria the set can speak about.
    pub open spec fn width(self) -> int {
        self.bits@.len() as int
    }

    /// The mathematical set of criteria indices the value holds.
    pub open spec fn sset(self) -> Set<int> {
        Set::new(|i: int| 0 <= i < self.bits@.len() && self.bits@[i])
    }

    /// The empty criteria set over a table of `n` criteria.
    pub fn empty(n: usize) -> (r: CriteriaSet)
        ensures
            r.width() == n,
            r.sset() =~= Set::<int>::empty(),
    {
        let mut bits: Vec<bool> = Vec::new();
        let mut i: usize = 0;
        while i < n
            invariant
                bits@.len() == i,
                i <= n,
                forall|j: int| 0 <= j < i ==> !(#[trigger] bits@[j]),
            decreases n - i,
        {
            bits.push(false);
            i = i + 1;
        }
        CriteriaSet { bits }
    }

    /// Whether criterion `c` is in the set.
    pub fn has(&self, c: usize) -> (r: bool)
        requires
            c < self.width(),
        ensures
            r == self.sset().contains(c as int),
    {
        self.bits[c]
    }

    /// Adds criterion `c` to the set.
    pub fn insert(&mut self, c: usize)
        requires
            c < old(self).width(),
        ensures
            final(self).width() == old(self).width(),
            final(self).sset() =~= old(self).sset().insert(c as int),
    {
        self.bits.set(c, true);
    }

    /// Adds every criterion of `other` to the set.
    pub fn union_with(&mut self, other: &CriteriaSet)
        requires
            old(self).width() == other.width(),
        ensures
            final(self).width() == old(self).width(),
            final(self).sset() =~= old(self).sset().union(other.sset()),
    {
        let n = self.bits.len();
        let mut i: usize = 0;
        while i < n
            invariant
                self.bits@.len() == n,
                other.bits@.len() == n,
                i <= n,
                forall|j: int| 0 <= j < i ==>
                    (#[trigger] self.bits@[j] == (old(self).bits@[j] || other.bits@[j])),
                forall|j: int| i <= j < n ==> #[trigger] self.bits@[j] == old(self).bits@[j],
            decreases n - i,
        {
            if other.bits[i] {
                self.bits.set(i, true);
            }
            i = i + 1;
        }
    }

    /// A copy of the set.
    pub fn clone_set(&self) -> (r: CriteriaSet)
        ensures
            r.width() == self.width(),
            r.sset() == self.sset(),
    {
        let n = self.bits.len();
        let mut bits: Vec<bool> = Vec::new();
        let mut i: usize = 0;
        while i < n
            invariant
                bits@.len() == i,
                i <= n,
                n == self.bits@.len(),
                forall|j: int| 0 <= j < i ==> #[trigger] bits@[j] == self.bits@[j],
            decreases n - i,
        {
            bits.push(self.bits[i]);
            i = i + 1;
        }
        let r = CriteriaSet { bits };
        proof {
            assert(r.bits@ =~= self.bits@);
        }
        r
    }
}

/// The table of closed criteria sets: row `c` holds exactly the criteria
/// transitively implied by `c`.
pub open spec fn closure_table_ok(entries: Seq<CriteriaEntry>, table: Seq<CriteriaSet>) -> bool {
    &&& table.len() == entries.len()
    &&& forall|c: int| 0 <= c < table.len() ==> (#[trigger] table[c]).width() == entries.len()
    &&& forall|c: int, d: int|
        0 <= c < table.len() ==>
            ((#[trigger] table[c].sset().contains(d)) <==> implies_star(entries, c, d))
}

/// Builds the closure table by a reachability search per criterion.
pub fn build_closure_table(entries: &Vec<CriteriaEntry>) -> (r: Vec<CriteriaSet>)
    requires
        entries_valid(entries@),
    ensures
        closure_table_ok(entries@, r@),
{
    let n = entries.len();
    let ghost rel = crit_rel(entries@);
    // copy the implication lists into adjacency rows
    let mut adj: Vec<Vec<usize>> = Vec::new();
    let mut i: usize = 0;
    while i < n
        invariant
            adj@.len() == i,
            i <= n,
            entries@.len() == n,
            entries_valid(entries@),
            forall|a: int| 0 <= a < i ==> #[trigger] adj@[a]@ == entries@[a].implies@,
        decreases n - i,
    {
        let row_len = entries[i].implies.len();
        let mut row: Vec<usize> = Vec::new();
        let mut k: usize = 0;
        while k < row_len
            invariant
                row@.len() == k,
                k <= row_len,
                i < n,
                entries@.len() == n,
                row_len == entries@[i as int].implies@.len(),
                forall|j: int| 0 <= j < k ==> #[trigger] row@[j] == entries@[i as int].implies@[j],
            decreases row_len - k,
        {
            let x = entries[i].implies[k];
            row.push(x);
            k = k + 1;
        }
        proof {
            assert(row@ =~= entries@[i as int].implies@);
        }
        adj.push(row);
        i = i + 1;
    }
    proof {
        assert forall|a: int, b: int|
            0 <= a < adj@.len() && 0 <= b < adj@.len() implies
            (#[trigger] rel(a, b) <==> adj@[a]@.contains(b as usize)) by {
            assert(adj@[a]@ == entries@[a].implies@);
        }
        assert forall|a: int, x: int|
            0 <= a < adj@.len() && 0 <= x < adj@[a]@.len() implies
            (#[trigger] adj@[a]@[x] as int) < adj@.len() by {
            assert(adj@[a]@ == entries@[a].implies@);
            assert(ids_valid(entries@[a].implies@, n as int));
            assert((entries@[a].implies@[x] as int) < n);
        }
        assert(adj_represents(adj@, rel));
    }
    let mut table: Vec<CriteriaSet> = Vec::new();
    let mut c: usize = 0;
    while c < n
        invariant
            table@.len() == c,
            c <= n,
            adj@.len() == n,
            entries@.len() == n,
            adj_represents(adj@, rel),
            rel == crit_rel(entries@),
            forall|c2: int| 0 <= c2 < c ==> (#[trigger] table@[c2]).width() == n,
            forall|c2: int, d: int|
                0 <= c2 < c ==>
                    ((#[trigger] table@[c2].sset().contains(d)) <==> implies_star(entries@, c2, d)),
        decreases n - c,
    {
        let mut srcs: Vec<usize> = Vec::new();
        srcs.push(c);
        let bits = reachable_set(&adj, &srcs, Ghost(rel));
        let row = CriteriaSet { bits };
        proof {
            assert forall|d: int| #[trigger] row.sset().contains(d) implies
                implies_star(entries@, c as int, d) by {
                assert(reaches_from(n as int, rel, srcs@, d));
                let j = choose|j: int|
                    0 <= j < srcs@.len() && reaches(n as int, rel, #[trigger] srcs@[j] as int, d);
                assert(srcs@[j] == c);
            }
            assert forall|d: int| implies_star(entries@, c as int, d) implies
                row.sset().contains(d) by {
                assert(srcs@[0] == c);
                assert(reaches_from(n as int, rel, srcs@, d));
                lemma_star_bounds(entries@, c as int, d);
            }
        }
        table.push(row);
        c = c + 1;
    }
    table
}

/// Decides whether the criteria definitions are cyclic, from the closure
/// table.
pub fn criteria_cyclic(entries: &Vec<CriteriaEntry>, table: &Vec<CriteriaSet>) -> (r: bool)
    requires
        entries_valid(entries@),
        closure_table_ok(entries@, table@),
    ensures
        r == crit_cyclic(entries@),
{
    let n = entries.len();
    proof {
        lemma_cycle_iff(n as int, crit_rel(entries@));
    }
    let mut a: usize = 0;
    while a < n
        invariant
            a <= n,
            entries@.len() == n,
            entries_valid(entries@),
            closure_table_ok(entries@, table@),
            forall|a2: int, b2: int|
                0 <= a2 < a && #[trigger] crit_rel(entries@)(a2, b2) ==>
                    !implies_star(entries@, b2, a2),
        decreases n - a,
    {
        let row_len = entries[a].implies.len();
        let mut k: usize = 0;
        while k < row_len
            invariant
                k <= row_len,
                a < n,
                entries@.len() == n,
                entries_valid(entries@),
                closure_table_ok(entries@, table@),
                row_len == entries@[a as int].implies@.len(),
                forall|j: int| 0 <= j < k ==>
                    !implies_star(entries@, #[trigger] entries@[a as int].implies@[j] as int, a as int),
            decreases row_len - k,
        {
            let b = entries[a].implies[k];
            proof {
                assert((b as int) < n);
            }
            if table[b].has(a) {
                proof {
                    assert(implies_star(entries@, b as int, a as int));
                    assert(entries@[a as int].implies@.contains(b));
                    assert(crit_rel(entries@)(a as int, b as int));
                    assert(crit_cyclic(entries@)) by {
                        lemma_cycle_iff(n as int, crit_rel(entries@));
                    }
                }
                return true;
            }
            k = k + 1;
        }
        proof {
            assert forall|a2: int, b2: int|
                0 <= a2 < a + 1 && #[trigger] crit_rel(entries@)(a2, b2) implies
                !implies_star(entries@, b2, a2) by {
                if a2 == a as int {
                    assert(entries@[a2].implies@.contains(b2 as usize));
                    let j = choose|j: int|
                        0 <= j < entries@[a2].implies@.len()
                            && entries@[a2].implies@[j] == b2 as usize;
                    assert(!implies_star(entries@, entries@[a2].implies@[j] as int, a as int));
                }
            }
        }
        a = a + 1;
    }
    proof {
        assert forall|a2: int, b2: int|
            0 <= a2 < n && 0 <= b2 < n && #[trigger] crit_rel(entries@)(a2, b2) implies
            !reaches(n as int, crit_rel(entries@), b2, a2) by {
            assert(!implies_star(entries@, b2, a2));
        }
        assert(!crit_cyclic(entries@));
    }
    false
}

/// Closes an already-collected criteria set, using the closure table.
pub fn close_set(
    Ghost(entries): Ghost<Seq<CriteriaEntry>>,
    table: &Vec<CriteriaSet>,
    s: &CriteriaSet,
) -> (r: CriteriaSet)
    requires
        closure_table_ok(entries, table@),
        s.width() == table@.len(),
    ensures
        r.width() == entries.len(),
        r.sset() =~= closure_of(entries, s.sset()),
{
    let n = table.len();
    let mut acc = CriteriaSet::empty(n);
    let mut c: usize = 0;
    while c < n
        invariant
            c <= n,
            table@.len() == n,
            entries.len() == n,
            closure_table_ok(entries, table@),
            s.width() == n,
            acc.width() == n,
            forall|d: int| #[trigger] acc.sset().contains(d) <==> exists|e: int|
                0 <= e < c && s.sset().contains(e) && #[trigger] implies_star(entries, e, d),
        decreases n - c,
    {
        if s.has(c) {
            let ghost pre = acc;
            acc.union_with(&table[c]);
            proof {
                assert forall|d: int| #[trigger] acc.sset().contains(d) implies exists|e: int|
                    0 <= e < c + 1 && s.sset().contains(e)
                        && #[trigger] implies_star(entries, e, d) by {
                    if pre.sset().contains(d) {
                        let e = choose|e: int|
                            0 <= e < c && s.sset().contains(e)
                                && #[trigger] implies_star(entries, e, d);
                        assert(0 <= e < c + 1 && s.sset().contains(e)
                            && implies_star(entries, e, d));
                    } else {
                        assert(table@[c as int].sset().contains(d));
                        assert(implies_star(entries, c as int, d));
                    }
                }
                assert forall|d: int, e: int|
                    0 <= e < c + 1 && s.sset().contains(e)
                        && #[trigger] implies_star(entries, e, d) implies
                    #[trigger] acc.sset().contains(d) by {
                    if e < c {
                        assert(pre.sset().contains(d));
                    } else {
                        assert(table@[c as int].sset().contains(d));
                    }
                }
            }
        } else {
            proof {
                assert forall|d: int| #[trigger] acc.sset().contains(d) implies exists|e: int|
                    0 <= e < c + 1 && s.sset().contains(e)
                        && #[trigger] implies_star(entries, e, d) by {
                    let e = choose|e: int|
                        0 <= e < c && s.sset().contains(e) && #[trigger] implies_star(entries, e, d);
                    assert(0 <= e < c + 1 && s.sset().contains(e) && implies_star(entries, e, d));
                }
            }
        }
        c = c + 1;
    }
    proof {
        assert forall|d: int| #[trigger] acc.sset().contains(d) implies
            closure_of(entries, s.sset()).contains(d) by {
            let e = choose|e: int|
                0 <= e < n && s.sset().contains(e) && #[trigger] implies_star(entries, e, d);
            assert(s.sset().contains(e) && implies_star(entries, e, d));
        }
        assert forall|d: int| closure_of(entries, s.sset()).contains(d) implies
            acc.sset().contains(d) by {
            let e = choose|e: int| s.sset().contains(e) && implies_star(entries, e, d);
            assert(0 <= e < n);
        }
    }
    acc
}

/// Collects the default-marked criteria as identifier list.
pub fn default_ids(entries: &Vec<CriteriaEntry>) -> (r: Vec<usize>)
    ensures
        ids_valid(r@, entries@.len() as int),
        ids_set(r@) =~= default_set(entries@),
{
    let mut r: Vec<usize> = Vec::new();
    let mut i: usize = 0;
    while i < entries.len()
        invariant
            i <= entries@.len(),
            ids_valid(r@, entries@.len() as int),
            forall|c: int| 0 <= c < i ==>
                (#[trigger] r@.contains(c as usize) <==> entries@[c].is_default),
            forall|j: int| 0 <= j < r@.len() ==> (#[trigger] r@[j] as int) < i,
        decreases entries@.len() - i,
    {
        if entries[i].is_default {
            let ghost pre = r@;
            r.push(i);
            proof {
                assert forall|c: int| 0 <= c < i + 1 implies
                    (#[trigger] r@.contains(c as usize) <==> entries@[c].is_default) by {
                    if c < i {
                        if pre.contains(c as usize) {
                            let j = choose|j: int| 0 <= j < pre.len() && pre[j] == c as usize;
                            assert(r@[j] == c as usize);
                        }
                        if r@.contains(c as usize) {
                            let j = choose|j: int| 0 <= j < r@.len() && r@[j] == c as usize;
                            assert(j < pre.len());
                            assert(pre.contains(c as usize));
                        }
                    } else {
                        assert(r@[r@.len() - 1] == c as usize);
                    }
                }
            }
        } else {
            proof {
                assert forall|c: int| 0 <= c < i + 1 implies
                    (#[trigger] r@.contains(c as usize) <==> entries@[c].is_default) by {
                    if c == i as int && r@.contains(c as usize) {
                        let j = choose|j: int| 0 <= j < r@.len() && r@[j] == c as usize;
                        assert((r@[j] as int) < i);
                    }
                }
            }
        }
        i = i + 1;
    }
    proof {
        assert forall|c: int| #[trigger] ids_set(r@).contains(c) implies
            default_set(entries@).contains(c) by {
            let k = choose|k: int| 0 <= k < r@.len() && (#[trigger] r@[k] as int) == c;
            assert(r@.contains(c as usize));
            assert(0 <= c < entries@.len());
        }
        assert forall|c: int| default_set(entries@).contains(c) implies
            ids_set(r@).contains(c) by {
            assert(r@.contains(c as usize));
            let k = choose|k: int| 0 <= k < r@.len() && r@[k] == c as usize;
            assert((r@[k] as int) == c);
        }
    }
    r
}

} // verus!
