//! Reachability over a finite directed graph, stated against an abstract edge
//! relation on node indices.
//!
//! The criteria implication closure, the dependency-graph walk, and the
//! delta-audit chain search are all instances of one question: which nodes can
//! a set of source nodes reach. This module answers it with a worklist search
//! whose result is proved equal to the path-based definition of reachability,
//! and proves the path lemmas (transitivity, closure under edges, the cycle
//! criterion) the rest of the crate builds on.

use vstd::prelude::*;

verus! {

/// A path through nodes `0..n` under edge relation `rel`: nonempty, in
/// bounds, and stepping only along edges.
pub open spec fn valid_path(n: int, rel: spec_fn(int, int) -> bool, p: Seq<int>) -> bool {
    &&& p.len() >= 1
    &&& forall|i: int| 0 <= i < p.len() ==> 0 <= #[trigger] p[i] < n
    &&& forall|i: int| 0 <= i < p.len() - 1 ==> #[trigger] rel(p[i], p[i + 1])
}

/// Node `b` is reachable from node `a`: some path leads from `a` to `b`.
pub open spec fn reaches(n: int, rel: spec_fn(int, int) -> bool, a: int, b: int) -> bool {
    exists|p: Seq<int>| valid_path(n, rel, p) && p[0] == a && p[p.len() - 1] == b
}

/// Some source in `srcs` reaches `b`.
pub open spec fn reaches_from(
    n: int,
    rel: spec_fn(int, int) -> bool,
    srcs: Seq<usize>,
    b: int,
) -> bool {
    exists|j: int| 0 <= j < srcs.len() && reaches(n, rel, #[trigger] srcs[j] as int, b)
}

/// The edge relation has a cycle: a path of length at least two returns to
/// its starting node.
pub open spec fn has_cycle(n: int, rel: spec_fn(int, int) -> bool) -> bool {
    exists|p: Seq<int>|
        valid_path(n, rel, p) && p.len() >= 2 && p[0] == p[p.len() - 1]
}

/// Instantiates the edge property of a valid path at position `i`.
pub proof fn lemma_path_edge(n: int, rel: spec_fn(int, int) -> bool, p: Seq<int>, i: int)
    requires
        valid_path(n, rel, p),
        0 <= i < p.len() - 1,
    ensures
        rel(p[i], p[i + 1]),
{
    assert(rel(p[i], p[i + 1]));
}

pub proof fn lemma_reach_refl(n: int, rel: spec_fn(int, int) -> bool, a: int)
    requires
        0 <= a < n,
    ensures
        reaches(n, rel, a, a),
{
    let p = seq![a];
    assert(valid_path(n, rel, p) && p[0] == a && p[p.len() - 1] == a);
}

pub proof fn lemma_reach_step(n: int, rel: spec_fn(int, int) -> bool, a: int, b: int, c: int)
    requires
        reaches(n, rel, a, b),
        rel(b, c),
        0 <= c < n,
    ensures
        reaches(n, rel, a, c),
{
    let p = choose|p: Seq<int>| valid_path(n, rel, p) && p[0] == a && p[p.len() - 1] == b;
    let q = p.push(c);
    assert forall|i: int| 0 <= i < q.len() - 1 implies #[trigger] rel(q[i], q[i + 1]) by {
        if i < p.len() - 1 {
            assert(rel(p[i], p[i + 1]));
            assert(q[i] == p[i] && q[i + 1] == p[i + 1]);
        } else {
            assert(q[i] == p[p.len() - 1] && q[i + 1] == c);
        }
    }
    assert(valid_path(n, rel, q) && q[0] == a && q[q.len() - 1] == c);
}

pub proof fn lemma_reach_trans(n: int, rel: spec_fn(int, int) -> bool, a: int, b: int, c: int)
    requires
        reaches(n, rel, a, b),
        reaches(n, rel, b, c),
    ensures
        reaches(n, rel, a, c),
{
    let p = choose|p: Seq<int>| valid_path(n, rel, p) && p[0] == a && p[p.len() - 1] == b;
    let q = choose|q: Seq<int>| valid_path(n, rel, q) && q[0] == b && q[q.len() - 1] == c;
    let r = p + q.subrange(1, q.len() as int);
    assert(r.len() == p.len() + q.len() - 1);
    assert forall|i: int| 0 <= i < r.len() implies 0 <= #[trigger] r[i] < n by {
        if i < p.len() {
            assert(r[i] == p[i]);
        } else {
            assert(r[i] == q[i - p.len() + 1]);
        }
    }
    assert forall|i: int| 0 <= i < r.len() - 1 implies #[trigger] rel(r[i], r[i + 1]) by {
        if i < p.len() - 1 {
            assert(r[i] == p[i] && r[i + 1] == p[i + 1]);
            assert(rel(p[i], p[i + 1]));
        } else if i == p.len() - 1 {
            assert(r[i] == p[p.len() - 1]);
            assert(p[p.len() - 1] == b && q[0] == b);
            assert(r[i + 1] == q[1]);
            assert(rel(q[0], q[1]));
        } else {
            let j = i - p.len() + 1;
            assert(r[i] == q[j] && r[i + 1] == q[j + 1]);
            assert(rel(q[j], q[j + 1]));
        }
    }
    assert(r[0] == p[0]);
    if q.len() == 1 {
        assert(r[r.len() - 1] == p[p.len() - 1]);
        assert(b == c);
    } else {
        assert(r[r.len() - 1] == q[q.len() - 1]);
    }
    assert(valid_path(n, rel, r) && r[0] == a && r[r.len() - 1] == c);
}

/// Every node of a valid path whose start lies in an edge-closed set lies in
/// that set too.
pub proof fn lemma_path_in_closed(
    n: int,
    rel: spec_fn(int, int) -> bool,
    s: Set<int>,
    p: Seq<int>,
)
    requires
        valid_path(n, rel, p),
        s.contains(p[0]),
        forall|a: int, b: int|
            s.contains(a) && 0 <= b < n && #[trigger] rel(a, b) ==> s.contains(b),
    ensures
        s.contains(p[p.len() - 1]),
    decreases p.len(),
{
    if p.len() > 1 {
        let q = p.subrange(0, p.len() - 1);
        assert forall|i: int| 0 <= i < q.len() implies 0 <= #[trigger] q[i] < n by {
            assert(q[i] == p[i]);
        }
        assert forall|i: int| 0 <= i < q.len() - 1 implies #[trigger] rel(q[i], q[i + 1]) by {
            assert(q[i] == p[i] && q[i + 1] == p[i + 1]);
            assert(rel(p[i], p[i + 1]));
        }
        assert(q[0] == p[0]);
        lemma_path_in_closed(n, rel, s, q);
        assert(s.contains(p[p.len() - 2]));
        lemma_path_edge(n, rel, p, p.len() - 2);
    }
}

/// The cycle criterion: a cycle exists exactly when some edge closes a path
/// back to its own source.
pub proof fn lemma_cycle_iff(n: int, rel: spec_fn(int, int) -> bool)
    ensures
        has_cycle(n, rel) <==> exists|a: int, b: int|
            0 <= a < n && 0 <= b < n && #[trigger] rel(a, b) && reaches(n, rel, b, a),
{
    if has_cycle(n, rel) {
        let p = choose|p: Seq<int>|
            valid_path(n, rel, p) && p.len() >= 2 && p[0] == p[p.len() - 1];
        let a = p[0];
        let b = p[1];
        lemma_path_edge(n, rel, p, 0);
        let q = p.subrange(1, p.len() as int);
        assert forall|i: int| 0 <= i < q.len() implies 0 <= #[trigger] q[i] < n by {
            assert(q[i] == p[i + 1]);
        }
        assert forall|i: int| 0 <= i < q.len() - 1 implies #[trigger] rel(q[i], q[i + 1]) by {
            assert(q[i] == p[i + 1] && q[i + 1] == p[i + 2]);
            lemma_path_edge(n, rel, p, i + 1);
        }
        assert(q[0] == b && q[q.len() - 1] == a);
        assert(valid_path(n, rel, q));
        assert(0 <= a < n && 0 <= b < n && rel(a, b) && reaches(n, rel, b, a));
    }
    if exists|a: int, b: int|
        0 <= a < n && 0 <= b < n && #[trigger] rel(a, b) && reaches(n, rel, b, a) {
        let (a, b) = choose|a: int, b: int|
            0 <= a < n && 0 <= b < n && #[trigger] rel(a, b) && reaches(n, rel, b, a);
        let p = choose|p: Seq<int>| valid_path(n, rel, p) && p[0] == b && p[p.len() - 1] == a;
        let q = seq![a] + p;
        assert forall|i: int| 0 <= i < q.len() implies 0 <= #[trigger] q[i] < n by {
            if i > 0 {
                assert(q[i] == p[i - 1]);
            }
        }
        assert forall|i: int| 0 <= i < q.len() - 1 implies #[trigger] rel(q[i], q[i + 1]) by {
            if i == 0 {
                assert(q[0] == a && q[1] == p[0]);
            } else {
                assert(q[i] == p[i - 1] && q[i + 1] == p[i]);
                lemma_path_edge(n, rel, p, i - 1);
            }
        }
        assert(q[0] == a && q[q.len() - 1] == p[p.len() - 1]);
        assert(valid_path(n, rel, q) && q.len() >= 2 && q[0] == q[q.len() - 1]);
    }
}

/// The number of `true` entries of a boolean sequence.
pub open spec fn count_true(s: Seq<bool>) -> int
    decreases s.len(),
{
    if s.len() == 0 {
        0
    } else {
        count_true(s.drop_last()) + if s.last() { 1int } else { 0int }
    }
}

pub proof fn lemma_count_true_bounds(s: Seq<bool>)
    ensures
        0 <= count_true(s) <= s.len(),
    decreases s.len(),
{
    if s.len() > 0 {
        lemma_count_true_bounds(s.drop_last());
    }
}

pub proof fn lemma_count_true_update(s: Seq<bool>, i: int)
    requires
        0 <= i < s.len(),
        !s[i],
    ensures
        count_true(s.update(i, true)) == count_true(s) + 1,
    decreases s.len(),
{
    let t = s.update(i, true);
    if i == s.len() - 1 {
        assert(t.drop_last() =~= s.drop_last());
        assert(t.last());
    } else {
        assert(t.drop_last() =~= s.drop_last().update(i, true));
        assert(t.last() == s.last());
        lemma_count_true_update(s.drop_last(), i);
    }
}

pub proof fn lemma_count_true_mono(a: Seq<bool>, b: Seq<bool>)
    requires
        a.len() == b.len(),
        forall|i: int| 0 <= i < a.len() ==> (a[i] ==> #[trigger] b[i]),
    ensures
        count_true(a) <= count_true(b),
    decreases a.len(),
{
    if a.len() > 0 {
        assert forall|i: int| 0 <= i < a.len() - 1 implies
            (a.drop_last()[i] ==> #[trigger] b.drop_last()[i]) by {
            assert(a[i] ==> b[i]);
        }
        lemma_count_true_mono(a.drop_last(), b.drop_last());
        assert(a.last() ==> b[a.len() - 1]);
    }
}

/// Pointwise domination with one strict difference makes the count strictly
/// larger.
pub proof fn lemma_count_true_strict(a: Seq<bool>, b: Seq<bool>, j: int)
    requires
        a.len() == b.len(),
        forall|i: int| 0 <= i < a.len() ==> (a[i] ==> #[trigger] b[i]),
        0 <= j < a.len(),
        !a[j],
        b[j],
    ensures
        count_true(a) < count_true(b),
    decreases a.len(),
{
    assert forall|i: int| 0 <= i < a.len() - 1 implies
        (a.drop_last()[i] ==> #[trigger] b.drop_last()[i]) by {
        assert(a[i] ==> b[i]);
    }
    if j == a.len() - 1 {
        lemma_count_true_mono(a.drop_last(), b.drop_last());
        assert(!a.last() && b.last());
    } else {
        lemma_count_true_strict(a.drop_last(), b.drop_last(), j);
        assert(a.last() ==> b[a.len() - 1]);
    }
}

/// Counts the `true` entries of a boolean vector.
pub fn count_true_vec(v: &Vec<bool>) -> (r: usize)
    ensures
        r == count_true(v@),
{
    let mut r: usize = 0;
    let mut i: usize = 0;
    while i < v.len()
        invariant
            0 <= i <= v@.len(),
            r == count_true(v@.take(i as int)),
            r <= i,
        decreases v@.len() - i,
    {
        proof {
            assert(v@.take(i + 1).drop_last() =~= v@.take(i as int));
            assert(v@.take(i + 1).last() == v@[i as int]);
            lemma_count_true_bounds(v@.take(i as int));
        }
        if v[i] {
            r = r + 1;
        }
        i = i + 1;
    }
    proof {
        assert(v@.take(v@.len() as int) =~= v@);
    }
    r
}

/// The node `a` sits in the pending part of the worklist.
spec fn pending(queue: Seq<usize>, head: int, a: int) -> bool {
    exists|q: int| head <= q < queue.len() && #[trigger] queue[q] as int == a
}

/// Every successor of `a` is already visited.
spec fn closed_at(n: int, rel: spec_fn(int, int) -> bool, visited: Seq<bool>, a: int) -> bool {
    forall|b: int| 0 <= b < n && #[trigger] rel(a, b) ==> visited[b]
}

/// The adjacency lists `adj` represent the edge relation `rel` on `0..n`.
pub open spec fn adj_represents(adj: Seq<Vec<usize>>, rel: spec_fn(int, int) -> bool) -> bool {
    &&& forall|a: int, b: int|
        0 <= a < adj.len() && 0 <= b < adj.len() ==>
            (#[trigger] rel(a, b) <==> adj[a]@.contains(b as usize))
    &&& forall|a: int, x: int|
        0 <= a < adj.len() && 0 <= x < adj[a]@.len() ==>
            (#[trigger] adj[a]@[x] as int) < adj.len()
}

/// The parent forest a search builds: every visited node is a source at
/// depth zero, or was adopted from a visited parent one edge away and one
/// step closer to the sources.
pub open spec fn forest_ok(
    n: int,
    rel: spec_fn(int, int) -> bool,
    srcs: Seq<usize>,
    visited: Seq<bool>,
    parent: Seq<usize>,
    depth: Seq<usize>,
) -> bool {
    forall|b: int| 0 <= b < n && #[trigger] visited[b] ==>
        if depth[b] == 0 {
            exists|k: int| 0 <= k < srcs.len() && (#[trigger] srcs[k] as int) == b
        } else {
            &&& (parent[b] as int) < n
            &&& visited[parent[b] as int]
            &&& rel(parent[b] as int, b)
            &&& (depth[parent[b] as int] as int) == depth[b] - 1
        }
}

/// Computes the set of nodes reachable from `srcs` in the graph whose
/// adjacency lists are `adj`, which must represent the edge relation `rel`;
/// also returns the parent forest of the search, for extracting witness
/// paths.
#[verifier::rlimit(80)]
pub fn search_forest(
    adj: &Vec<Vec<usize>>,
    srcs: &Vec<usize>,
    Ghost(rel): Ghost<spec_fn(int, int) -> bool>,
) -> (r: (Vec<bool>, Vec<usize>, Vec<usize>))
    requires
        forall|k: int| 0 <= k < srcs@.len() ==> (#[trigger] srcs@[k] as int) < adj@.len(),
        adj_represents(adj@, rel),
    ensures
        r.0@.len() == adj@.len(),
        r.1@.len() == adj@.len(),
        r.2@.len() == adj@.len(),
        forall|b: int| 0 <= b < adj@.len() ==>
            (#[trigger] r.0@[b] <==> reaches_from(adj@.len() as int, rel, srcs@, b)),
        forest_ok(adj@.len() as int, rel, srcs@, r.0@, r.1@, r.2@),
{
    let n = adj.len();
    let ghost ni = n as int;
    let mut visited: Vec<bool> = Vec::new();
    let mut parent: Vec<usize> = Vec::new();
    let mut depth: Vec<usize> = Vec::new();
    let mut i: usize = 0;
    while i < n
        invariant
            visited@.len() == i,
            parent@.len() == i,
            depth@.len() == i,
            i <= n,
            forall|b: int| 0 <= b < i ==> !(#[trigger] visited@[b]),
            forall|b: int| 0 <= b < i ==> #[trigger] depth@[b] == 0,
        decreases n - i,
    {
        visited.push(false);
        parent.push(0);
        depth.push(0);
        i = i + 1;
    }
    let mut queue: Vec<usize> = Vec::new();
    let mut k: usize = 0;
    while k < srcs.len()
        invariant
            k <= srcs@.len(),
            visited@.len() == n,
            parent@.len() == n,
            depth@.len() == n,
            adj@.len() == n,
            ni == n as int,
            forall|j: int| 0 <= j < srcs@.len() ==> (#[trigger] srcs@[j] as int) < n,
            forall|q: int| 0 <= q < queue@.len() ==> (#[trigger] queue@[q] as int) < n,
            forall|q: int| 0 <= q < queue@.len() ==> visited@[#[trigger] queue@[q] as int],
            forall|b: int| 0 <= b < n && #[trigger] visited@[b] ==> exists|j: int|
                0 <= j < srcs@.len() && #[trigger] srcs@[j] as int == b,
            forall|j: int| 0 <= j < k ==> visited@[#[trigger] srcs@[j] as int],
            forall|b: int| 0 <= b < n && #[trigger] visited@[b] ==> pending(queue@, 0, b),
            forall|b: int| 0 <= b < n ==> #[trigger] depth@[b] == 0,
            forall|b: int| 0 <= b < n && #[trigger] visited@[b] ==>
                (depth@[b] as int) < count_true(visited@),
        decreases srcs@.len() - k,
    {
        let s = srcs[k];
        if !visited[s] {
            let ghost pre_queue = queue@;
            proof {
                lemma_count_true_bounds(visited@);
                lemma_count_true_update(visited@, s as int);
            }
            visited.set(s, true);
            queue.push(s);
            assert forall|b: int| 0 <= b < n && #[trigger] visited@[b] implies
                pending(queue@, 0, b) by {
                if b == s as int {
                    assert(queue@[queue@.len() - 1] as int == b);
                } else {
                    let w = choose|w: int| 0 <= w < pre_queue.len()
                        && #[trigger] pre_queue[w] as int == b;
                    assert(queue@[w] as int == b);
                }
            }
        }
        k = k + 1;
    }
    proof {
        lemma_count_true_bounds(visited@);
        assert forall|b: int| 0 <= b < ni && #[trigger] visited@[b] implies
            reaches_from(ni, rel, srcs@, b) by {
            let j = choose|j: int| 0 <= j < srcs@.len() && #[trigger] srcs@[j] as int == b;
            lemma_reach_refl(ni, rel, b);
        }
        assert(forest_ok(ni, rel, srcs@, visited@, parent@, depth@));
    }
    // Worklist: `queue[head..]` holds the visited nodes whose successors may
    // not all be visited yet.
    let mut head: usize = 0;
    loop
        invariant
            ni == n as int,
            adj@.len() == n,
            visited@.len() == n,
            parent@.len() == n,
            depth@.len() == n,
            head <= queue@.len(),
            adj_represents(adj@, rel),
            forall|q: int| 0 <= q < queue@.len() ==> (#[trigger] queue@[q] as int) < n,
            forall|q: int| 0 <= q < queue@.len() ==> visited@[#[trigger] queue@[q] as int],
            forall|k2: int| 0 <= k2 < srcs@.len() ==> (#[trigger] srcs@[k2] as int) < n,
            forall|k2: int| 0 <= k2 < srcs@.len() ==> visited@[#[trigger] srcs@[k2] as int],
            forall|b: int| 0 <= b < n && #[trigger] visited@[b] ==>
                reaches_from(ni, rel, srcs@, b),
            forall|a: int| 0 <= a < n && #[trigger] visited@[a] ==>
                pending(queue@, head as int, a) || closed_at(ni, rel, visited@, a),
            count_true(visited@) <= ni,
            forest_ok(ni, rel, srcs@, visited@, parent@, depth@),
            forall|b: int| 0 <= b < n && #[trigger] visited@[b] ==>
                (depth@[b] as int) < count_true(visited@),
        ensures
            visited@.len() == n,
            parent@.len() == n,
            depth@.len() == n,
            head >= queue@.len(),
            forall|b: int| 0 <= b < n && #[trigger] visited@[b] ==>
                reaches_from(ni, rel, srcs@, b),
            forall|a: int| 0 <= a < n && #[trigger] visited@[a] ==>
                pending(queue@, head as int, a) || closed_at(ni, rel, visited@, a),
            forall|k2: int| 0 <= k2 < srcs@.len() ==> visited@[#[trigger] srcs@[k2] as int],
            forest_ok(ni, rel, srcs@, visited@, parent@, depth@),
        decreases ni - count_true(visited@), queue@.len() - head,
    {
        if head >= queue.len() {
            break;
        }
        let a = queue[head];
        let ghost head_old = head as int;
        head = head + 1;
        let ghost pre_visited = visited@;
        let ghost pre_queue = queue@;
        proof {
            // any other visited node pending at `head_old` is still pending
            assert(queue@[head_old] == a);
            assert forall|a2: int|
                0 <= a2 < ni && #[trigger] pre_visited[a2] && a2 != a as int implies
                pending(pre_queue, head as int, a2) || closed_at(ni, rel, pre_visited, a2) by {
                assert(visited@[a2]);
                assert(pending(queue@, head_old, a2) || closed_at(ni, rel, visited@, a2));
                if pending(queue@, head_old, a2) {
                    let q = choose|q: int| head_old <= q < queue@.len()
                        && #[trigger] queue@[q] as int == a2;
                    assert(q != head_old);
                    assert(pre_queue[q] as int == a2 && head as int <= q);
                    assert(pending(pre_queue, head as int, a2));
                }
            }
        }
        let row_len = adj[a].len();
        let mut x: usize = 0;
        while x < row_len
            invariant
                ni == n as int,
                a < n,
                adj@.len() == n,
                visited@.len() == n,
                parent@.len() == n,
                depth@.len() == n,
                row_len == adj@[a as int]@.len(),
                head <= queue@.len(),
                x <= row_len,
                visited@[a as int],
                adj_represents(adj@, rel),
                forall|q: int| 0 <= q < queue@.len() ==> (#[trigger] queue@[q] as int) < n,
                forall|q: int| 0 <= q < queue@.len() ==> visited@[#[trigger] queue@[q] as int],
                forall|k2: int| 0 <= k2 < srcs@.len() ==> (#[trigger] srcs@[k2] as int) < n,
                forall|k2: int| 0 <= k2 < srcs@.len() ==> visited@[#[trigger] srcs@[k2] as int],
                forall|b: int| 0 <= b < n && #[trigger] visited@[b] ==>
                    reaches_from(ni, rel, srcs@, b),
                forall|x2: int| 0 <= x2 < x ==> visited@[#[trigger] adj@[a as int]@[x2] as int],
                forall|a2: int|
                    0 <= a2 < ni && #[trigger] pre_visited[a2] && a2 != a as int ==>
                        pending(pre_queue, head as int, a2)
                        || closed_at(ni, rel, pre_visited, a2),
                forall|b: int| 0 <= b < ni ==> (#[trigger] pre_visited[b] ==> visited@[b]),
                forall|b: int| 0 <= b < ni && #[trigger] visited@[b] && !pre_visited[b] ==>
                    pending(queue@, head as int, b),
                queue@.len() >= pre_queue.len(),
                forall|q: int| 0 <= q < pre_queue.len() ==> queue@[q] == #[trigger] pre_queue[q],
                count_true(visited@) >= count_true(pre_visited),
                count_true(visited@) <= ni,
                count_true(visited@) > count_true(pre_visited)
                    || queue@.len() == pre_queue.len(),
                forest_ok(ni, rel, srcs@, visited@, parent@, depth@),
                forall|b: int| 0 <= b < n && #[trigger] visited@[b] ==>
                    (depth@[b] as int) < count_true(visited@),
            decreases row_len - x,
        {
            let b = adj[a][x];
            proof {
                assert((adj@[a as int]@[x as int] as int) < ni);
            }
            if !visited[b] {
                proof {
                    lemma_count_true_update(visited@, b as int);
                    lemma_count_true_bounds(visited@.update(b as int, true));
                    let j = choose|j: int|
                        0 <= j < srcs@.len()
                            && reaches(ni, rel, #[trigger] srcs@[j] as int, a as int);
                    assert(adj@[a as int]@.contains(b));
                    assert(rel(a as int, b as int));
                    lemma_reach_step(ni, rel, srcs@[j] as int, a as int, b as int);
                    assert(reaches_from(ni, rel, srcs@, b as int));
                    assert((depth@[a as int] as int) < count_true(visited@));
                }
                let ghost mid_visited = visited@;
                let ghost mid_queue = queue@;
                let ghost mid_parent = parent@;
                let ghost mid_depth = depth@;
                let d = depth[a] + 1;
                visited.set(b, true);
                parent.set(b, a);
                depth.set(b, d);
                queue.push(b);
                proof {
                    assert forall|b2: int|
                        0 <= b2 < ni && #[trigger] visited@[b2] && !pre_visited[b2] implies
                        pending(queue@, head as int, b2) by {
                        if b2 == b as int {
                            assert(queue@[queue@.len() - 1] as int == b2);
                            assert(pending(queue@, head as int, b2));
                        } else {
                            assert(mid_visited[b2]);
                            assert(pending(mid_queue, head as int, b2));
                            let q = choose|q: int| head as int <= q < mid_queue.len()
                                && #[trigger] mid_queue[q] as int == b2;
                            assert(queue@[q] as int == b2);
                            assert(pending(queue@, head as int, b2));
                        }
                    }
                    // the forest gains `b` as a child of `a`; nothing else
                    // moved, and `b` was nobody's parent since parents are
                    // visited
                    assert forall|b2: int| 0 <= b2 < ni && #[trigger] visited@[b2] implies
                        (if depth@[b2] == 0 {
                            exists|k2: int|
                                0 <= k2 < srcs@.len() && (#[trigger] srcs@[k2] as int) == b2
                        } else {
                            &&& (parent@[b2] as int) < ni
                            &&& visited@[parent@[b2] as int]
                            &&& rel(parent@[b2] as int, b2)
                            &&& (depth@[parent@[b2] as int] as int) == depth@[b2] - 1
                        }) by {
                        if b2 == b as int {
                            assert(parent@[b2] == a);
                            assert(depth@[b2] == d);
                            assert((mid_depth[a as int] as int) == d - 1);
                            assert(depth@[a as int] == mid_depth[a as int]);
                        } else {
                            assert(mid_visited[b2]);
                            if mid_depth[b2] != 0 {
                                assert((mid_parent[b2] as int) < ni);
                                assert(mid_visited[mid_parent[b2] as int]);
                                assert(mid_parent[b2] as int != b as int);
                                assert(depth@[mid_parent[b2] as int]
                                    == mid_depth[mid_parent[b2] as int]);
                            }
                        }
                    }
                    assert forall|b2: int| 0 <= b2 < n && #[trigger] visited@[b2] implies
                        (depth@[b2] as int) < count_true(visited@) by {
                        if b2 == b as int {
                            assert(count_true(visited@) == count_true(mid_visited) + 1);
                        } else {
                            assert(mid_visited[b2]);
                        }
                    }
                }
            }
            x = x + 1;
        }
        proof {
            // after scanning the whole row, `a` is closed; everything else is
            // pending or closed as before
            assert forall|a2: int| 0 <= a2 < ni && #[trigger] visited@[a2] implies
                pending(queue@, head as int, a2) || closed_at(ni, rel, visited@, a2) by {
                if a2 == a as int {
                    assert forall|b: int| 0 <= b < ni && #[trigger] rel(a as int, b) implies
                        visited@[b] by {
                        assert((a as int) < adj@.len() && 0 <= b < adj@.len());
                        assert(rel(a as int, b) <==> adj@[a as int]@.contains(b as usize));
                        assert(adj@[a as int]@.contains(b as usize));
                        let x2 = choose|x2: int|
                            0 <= x2 < adj@[a as int]@.len()
                                && adj@[a as int]@[x2] == b as usize;
                        assert(visited@[adj@[a as int]@[x2] as int]);
                    }
                } else if pre_visited[a2] {
                    if pending(pre_queue, head as int, a2) {
                        let q = choose|q: int| head as int <= q < pre_queue.len()
                            && #[trigger] pre_queue[q] as int == a2;
                        assert(queue@[q] as int == a2);
                        assert(pending(queue@, head as int, a2));
                    } else {
                        assert(closed_at(ni, rel, pre_visited, a2));
                        assert forall|b: int| 0 <= b < ni && #[trigger] rel(a2, b) implies
                            visited@[b] by {
                            assert(pre_visited[b]);
                        }
                    }
                }
            }
        }
    }
    proof {
        // completeness: the visited set is closed under edges and contains
        // every source, so it contains everything reachable.
        let s = Set::new(|i2: int| 0 <= i2 < ni && visited@[i2]);
        assert forall|b: int| 0 <= b < ni && !visited@[b] implies
            !reaches_from(ni, rel, srcs@, b) by {
            if reaches_from(ni, rel, srcs@, b) {
                let j = choose|j: int|
                    0 <= j < srcs@.len() && reaches(ni, rel, #[trigger] srcs@[j] as int, b);
                let p = choose|p: Seq<int>|
                    valid_path(ni, rel, p) && p[0] == srcs@[j] as int && p[p.len() - 1] == b;
                assert forall|a2: int, b2: int|
                    s.contains(a2) && 0 <= b2 < ni && #[trigger] rel(a2, b2) implies
                    s.contains(b2) by {
                    assert(visited@[a2]);
                    assert(head as int >= queue@.len());
                    assert(!pending(queue@, head as int, a2));
                    assert(closed_at(ni, rel, visited@, a2));
                }
                assert(s.contains(p[0]));
                lemma_path_in_closed(ni, rel, s, p);
                assert(s.contains(b));
            }
        }
    }
    (visited, parent, depth)
}

/// Computes the set of nodes reachable from `srcs` in the graph whose
/// adjacency lists are `adj`, which must represent the edge relation `rel`.
pub fn reachable_set(
    adj: &Vec<Vec<usize>>,
    srcs: &Vec<usize>,
    Ghost(rel): Ghost<spec_fn(int, int) -> bool>,
) -> (r: Vec<bool>)
    requires
        forall|k: int| 0 <= k < srcs@.len() ==> (#[trigger] srcs@[k] as int) < adj@.len(),
        adj_represents(adj@, rel),
    ensures
        r@.len() == adj@.len(),
        forall|b: int| 0 <= b < adj@.len() ==>
            (#[trigger] r@[b] <==> reaches_from(adj@.len() as int, rel, srcs@, b)),
{
    let t = search_forest(adj, srcs, Ghost(rel));
    t.0
}

/// Extracts a witness path from some source to `target` out of the parent
/// forest of a search that reached it.
pub fn find_path(
    Ghost(n): Ghost<int>,
    Ghost(rel): Ghost<spec_fn(int, int) -> bool>,
    Ghost(srcs): Ghost<Seq<usize>>,
    visited: &Vec<bool>,
    parent: &Vec<usize>,
    depth: &Vec<usize>,
    target: usize,
) -> (p: Vec<usize>)
    requires
        visited@.len() == n,
        parent@.len() == n,
        depth@.len() == n,
        (target as int) < n,
        visited@[target as int],
        forest_ok(n, rel, srcs, visited@, parent@, depth@),
    ensures
        p@.len() >= 1,
        forall|i: int| 0 <= i < p@.len() ==> (#[trigger] p@[i] as int) < n,
        exists|k: int| 0 <= k < srcs.len() && (#[trigger] srcs[k]) == p@[0],
        forall|i: int| 0 <= i < p@.len() - 1 ==> rel(#[trigger] p@[i] as int, p@[i + 1] as int),
        p@[p@.len() - 1] == target,
{
    // walk the parents back to a source
    let mut rev: Vec<usize> = Vec::new();
    let mut cur: usize = target;
    rev.push(cur);
    while depth[cur] > 0
        invariant
            visited@.len() == n,
            parent@.len() == n,
            depth@.len() == n,
            forest_ok(n, rel, srcs, visited@, parent@, depth@),
            (cur as int) < n,
            visited@[cur as int],
            rev@.len() >= 1,
            forall|i: int| 0 <= i < rev@.len() ==> (#[trigger] rev@[i] as int) < n,
            rev@[0] == target,
            rev@[rev@.len() - 1] == cur,
            forall|i: int| 0 <= i < rev@.len() - 1 ==>
                rel(#[trigger] rev@[i + 1] as int, rev@[i] as int),
        decreases depth@[cur as int],
    {
        let par = parent[cur];
        proof {
            assert(visited@[cur as int] && depth@[cur as int] != 0);
            assert((parent@[cur as int] as int) < n);
            assert(rel(par as int, cur as int));
            assert((depth@[par as int] as int) == depth@[cur as int] - 1);
        }
        let ghost pre_rev = rev@;
        rev.push(par);
        proof {
            assert forall|i: int| 0 <= i < rev@.len() - 1 implies
                rel(#[trigger] rev@[i + 1] as int, rev@[i] as int) by {
                if i < pre_rev.len() - 1 {
                    assert(rel(pre_rev[i + 1] as int, pre_rev[i] as int));
                    assert(rev@[i] == pre_rev[i] && rev@[i + 1] == pre_rev[i + 1]);
                } else {
                    assert(rev@[i] == cur && rev@[i + 1] == par);
                }
            }
        }
        cur = par;
    }
    proof {
        assert(depth@[cur as int] == 0);
        assert(exists|k: int| 0 <= k < srcs.len() && (#[trigger] srcs[k] as int) == cur as int);
    }
    // reverse into source-to-target order
    let m = rev.len();
    let mut p: Vec<usize> = Vec::new();
    let mut i: usize = 0;
    while i < m
        invariant
            m == rev@.len(),
            p@.len() == i,
            i <= m,
            forall|j: int| 0 <= j < i ==> #[trigger] p@[j] == rev@[m - 1 - j],
        decreases m - i,
    {
        p.push(rev[m - 1 - i]);
        i = i + 1;
    }
    proof {
        assert(p@[0] == rev@[m - 1]);
        let k = choose|k: int| 0 <= k < srcs.len() && (#[trigger] srcs[k] as int) == cur as int;
        assert(srcs[k] == p@[0]);
        assert(p@[p@.len() - 1] == rev@[0]);
        assert forall|j: int| 0 <= j < p@.len() - 1 implies
            rel(#[trigger] p@[j] as int, p@[j + 1] as int) by {
            assert(p@[j] == rev@[m - 1 - j]);
            assert(p@[j + 1] == rev@[m - 2 - j]);
            assert(rel(rev@[(m - 2 - j) + 1] as int, rev@[m - 2 - j] as int));
        }
    }
    p
}

} // verus!
