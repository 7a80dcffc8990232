//! The path finder: breadth-first search over the adjacency graph, with
//! shortest-path reconstruction through a predecessor array.

use vstd::prelude::*;
use crate::graph::Graph;
use crate::graph::edge;
use crate::graph::graph_of;
use crate::graph::word_step;
use crate::dict::Dictionary;
use crate::graph::generate_graph;

verus! {

/// `p` is a walk in `g`: nonempty, every node in bounds, and every
/// consecutive pair joined by an edge.
pub open spec fn is_path(g: Seq<Seq<usize>>, p: Seq<usize>) -> bool {
    &&& p.len() >= 1
    &&& forall|i: int| 0 <= i < p.len() ==> (#[trigger] p[i]) < g.len()
    &&& forall|i: int|
        0 <= i < p.len() - 1 ==> edge(g, (#[trigger] p[i]) as int, p[i + 1] as int)
}

/// `p` is a walk in `g` from `s` to `e`.
pub open spec fn connects(g: Seq<Seq<usize>>, p: Seq<usize>, s: int, e: int) -> bool {
    &&& is_path(g, p)
    &&& p[0] == s
    &&& p[p.len() - 1] == e
}

/// `p` is a word ladder over `dict`: nonempty, every entry a dictionary
/// index, and every consecutive pair of words one letter apart.
pub open spec fn is_word_path(dict: Seq<Seq<u8>>, p: Seq<usize>) -> bool {
    &&& p.len() >= 1
    &&& forall|i: int| 0 <= i < p.len() ==> (#[trigger] p[i]) < dict.len()
    &&& forall|i: int|
        0 <= i < p.len() - 1 ==> word_step(dict, (#[trigger] p[i]) as int, p[i + 1] as int)
}

/// `p` is a word ladder over `dict` from word index `s` to word index `e`.
pub open spec fn word_connects(dict: Seq<Seq<u8>>, p: Seq<usize>, s: int, e: int) -> bool {
    &&& is_word_path(dict, p)
    &&& p[0] == s
    &&& p[p.len() - 1] == e
}

/// In the adjacency graph of a dictionary, the walks are exactly the word
/// ladders.
pub proof fn lemma_graph_paths(dict: Seq<Seq<u8>>, g: Seq<Seq<usize>>, p: Seq<usize>)
    requires
        graph_of(dict, g),
    ensures
        is_path(g, p) <==> is_word_path(dict, p),
{
    if is_path(g, p) {
        assert forall|i: int| 0 <= i < p.len() - 1 implies word_step(
            dict,
            (#[trigger] p[i]) as int,
            p[i + 1] as int,
        ) by {
            assert(edge(g, p[i] as int, p[i + 1] as int));
        }
        assert(is_word_path(dict, p));
    }
    if is_word_path(dict, p) {
        assert forall|i: int| 0 <= i < p.len() - 1 implies edge(
            g,
            (#[trigger] p[i]) as int,
            p[i + 1] as int,
        ) by {
            assert(word_step(dict, p[i] as int, p[i + 1] as int));
        }
        assert(is_path(g, p));
    }
}

/// The node reached from `v` after following the predecessor array `k` times.
pub open spec fn pred_at(pred: Seq<usize>, v: int, k: nat) -> int
    decreases k,
{
    if k == 0 {
        v
    } else {
        pred[pred_at(pred, v, (k - 1) as nat)] as int
    }
}

/// Following predecessors from `e` stays in bounds and arrives at `s` after
/// exactly `k` steps.
pub open spec fn reaches(pred: Seq<usize>, e: int, s: int, k: nat) -> bool {
    &&& pred_at(pred, e, k) == s
    &&& forall|m: nat| m <= k ==> 0 <= #[trigger] pred_at(pred, e, m) < pred.len()
}

/// As `reaches`, and in addition every link of the chain is a graph edge,
/// oriented from predecessor to discovered node.
pub open spec fn chain_ok(
    g: Seq<Seq<usize>>,
    pred: Seq<usize>,
    s: int,
    e: int,
    k: nat,
) -> bool {
    &&& pred_at(pred, e, k) == s
    &&& forall|m: nat| m <= k ==> 0 <= #[trigger] pred_at(pred, e, m) < g.len()
    &&& forall|m: nat|
        m < k ==> edge(g, pred_at(pred, e, (m + 1) as nat), #[trigger] pred_at(pred, e, m))
}

/// If some number of steps reaches `s`, some least number of steps does.
proof fn lemma_least_reach(pred: Seq<usize>, e: int, s: int, k: nat)
    requires
        reaches(pred, e, s, k),
    ensures
        exists|kk: nat|
            {
                &&& kk <= k
                &&& #[trigger] reaches(pred, e, s, kk)
                &&& forall|m: nat| m < kk ==> pred_at(pred, e, m) != s
            },
    decreases k,
{
    if forall|m: nat| m < k ==> pred_at(pred, e, m) != s {
        assert(reaches(pred, e, s, k));
    } else {
        let m = choose|m: nat| m < k && pred_at(pred, e, m) == s;
        assert(reaches(pred, e, s, m));
        lemma_least_reach(pred, e, s, m);
        let kk = choose|kk: nat|
            {
                &&& kk <= m
                &&& #[trigger] reaches(pred, e, s, kk)
                &&& forall|mm: nat| mm < kk ==> pred_at(pred, e, mm) != s
            };
        assert(kk <= k && reaches(pred, e, s, kk));
    }
}

/// Walks the predecessor array backward from `end` until it meets `start`,
/// then reverses the collected indices. The result is the full path from
/// `start` to `end` inclusive; when `start == end` it is the one-element
/// path. The contract pins the result exactly: element `m` from the back is
/// the `m`-th predecessor of `end`, and the walk stops at the first arrival
/// at `start`.
pub fn solve(pred: Vec<usize>, start: usize, end: usize) -> (path: Vec<usize>)
    requires
        start < pred@.len(),
        end < pred@.len(),
        exists|k: nat| reaches(pred@, end as int, start as int, k),
    ensures
        path@.len() >= 1,
        path@[0] == start,
        path@[path@.len() - 1] == end,
        reaches(pred@, end as int, start as int, (path@.len() - 1) as nat),
        forall|m: nat|
            m < path@.len() ==> path@[path@.len() - 1 - m] as int == #[trigger] pred_at(
                pred@,
                end as int,
                m,
            ),
        forall|m: nat| m < path@.len() - 1 ==> pred_at(pred@, end as int, m) != start,
{
    proof {
        let k0 = choose|k: nat| reaches(pred@, end as int, start as int, k);
        lemma_least_reach(pred@, end as int, start as int, k0);
    }
    let ghost kk = choose|kk: nat|
        {
            &&& #[trigger] reaches(pred@, end as int, start as int, kk)
            &&& forall|m: nat| m < kk ==> pred_at(pred@, end as int, m) != start
        };
    let mut rev: Vec<usize> = Vec::new();
    rev.push(end);
    let mut cur: usize = end;
    let ghost mut steps: nat = 0;
    while cur != start
        invariant
            start < pred@.len(),
            end < pred@.len(),
            reaches(pred@, end as int, start as int, kk),
            forall|m: nat| m < kk ==> pred_at(pred@, end as int, m) != start,
            steps <= kk,
            cur as int == pred_at(pred@, end as int, steps),
            rev@.len() == steps + 1,
            forall|m: nat|
                m <= steps ==> rev@[m as int] as int == #[trigger] pred_at(pred@, end as int, m),
        decreases kk - steps,
    {
        proof {
            if steps == kk {
                assert(pred_at(pred@, end as int, kk) == start);
                assert(false);
            }
        }
        assert(cur < pred@.len());
        cur = pred[cur];
        proof {
            steps = steps + 1;
        }
        rev.push(cur);
    }
    proof {
        if steps < kk {
            assert(pred_at(pred@, end as int, steps) != start);
            assert(false);
        }
        assert(steps == kk);
    }
    let n = rev.len();
    let mut path: Vec<usize> = Vec::new();
    let mut idx: usize = 0;
    while idx < n
        invariant
            n == rev@.len(),
            idx <= n,
            path@.len() == idx,
            forall|t: int| 0 <= t < idx ==> path@[t] == rev@[n - 1 - t],
        decreases n - idx,
    {
        path.push(rev[n - 1 - idx]);
        idx = idx + 1;
    }
    proof {
        assert(path@.len() == kk + 1);
        assert forall|m: nat| m < path@.len() implies path@[path@.len() - 1 - m] as int
            == #[trigger] pred_at(pred@, end as int, m) by {
            assert(path@[path@.len() - 1 - m] == rev@[n - 1 - (path@.len() - 1 - m)]);
            assert(rev@[m as int] as int == pred_at(pred@, end as int, m));
        }
        assert(path@[0] as int == pred_at(pred@, end as int, kk));
        assert(path@[path@.len() - 1] as int == pred_at(pred@, end as int, 0));
    }
    path
}

/// Number of true entries; the measure of progress of the search.
spec fn count_true(s: Seq<bool>) -> nat
    decreases s.len(),
{
    if s.len() == 0 {
        0
    } else {
        count_true(s.drop_last()) + if s.last() {
            1nat
        } else {
            0nat
        }
    }
}

proof fn lemma_count_true_le(s: Seq<bool>)
    ensures
        count_true(s) <= s.len(),
    decreases s.len(),
{
    if s.len() > 0 {
        lemma_count_true_le(s.drop_last());
    }
}

proof fn lemma_count_true_all_false(s: Seq<bool>)
    requires
        forall|i: int| 0 <= i < s.len() ==> !(#[trigger] s[i]),
    ensures
        count_true(s) == 0,
    decreases s.len(),
{
    if s.len() > 0 {
        lemma_count_true_all_false(s.drop_last());
    }
}

proof fn lemma_count_true_update(s: Seq<bool>, i: int)
    requires
        0 <= i < s.len(),
        !s[i],
    ensures
        count_true(s.update(i, true)) == count_true(s) + 1,
    decreases s.len(),
{
    let t = s.update(i, true);
    if i == s.len() - 1 {
        assert(t.drop_last() =~= s.drop_last());
        assert(t.last());
        assert(!s.last());
    } else {
        assert(t.drop_last() =~= s.drop_last().update(i, true));
        assert(t.last() == s.last());
        lemma_count_true_update(s.drop_last(), i);
    }
}

/// The search's bookkeeping is consistent: the start is visited at recorded
/// distance 0, and every other visited node has a visited predecessor, one
/// step closer, joined to it by an edge.
spec fn bfs_wf(
    g: Seq<Seq<usize>>,
    visited: Seq<bool>,
    pred: Seq<usize>,
    dist: Seq<nat>,
    start: int,
) -> bool {
    &&& visited.len() == g.len()
    &&& pred.len() == g.len()
    &&& dist.len() == g.len()
    &&& 0 <= start < g.len()
    &&& visited[start]
    &&& dist[start] == 0
    &&& forall|v: int|
        0 <= v < g.len() && #[trigger] visited[v] && v != start ==> {
            &&& 0 <= pred[v] < g.len()
            &&& visited[pred[v] as int]
            &&& edge(g, pred[v] as int, v)
            &&& dist[v] == dist[pred[v] as int] + 1
        }
}

/// Shifting the origin of a predecessor walk by one step.
proof fn lemma_pred_at_shift(pred: Seq<usize>, v: int, m: nat)
    ensures
        pred_at(pred, v, (m + 1) as nat) == pred_at(pred, pred[v] as int, m),
    decreases m,
{
    let u = pred[v] as int;
    if m == 0 {
        assert(pred_at(pred, v, 1nat) == pred[pred_at(pred, v, 0nat)] as int);
        assert(pred_at(pred, v, 0nat) == v);
        assert(pred_at(pred, u, 0nat) == u);
    } else {
        lemma_pred_at_shift(pred, v, (m - 1) as nat);
        assert(pred_at(pred, v, ((m - 1) + 1) as nat) == pred_at(pred, u, (m - 1) as nat));
        assert(pred_at(pred, v, (m + 1) as nat) == pred[pred_at(pred, v, m)] as int);
        assert(pred_at(pred, u, m) == pred[pred_at(pred, u, (m - 1) as nat)] as int);
    }
}

/// From consistent bookkeeping, the predecessor chain of any visited node
/// walks back to the start in exactly its recorded distance, along edges.
proof fn lemma_chain_from_pred(
    g: Seq<Seq<usize>>,
    visited: Seq<bool>,
    pred: Seq<usize>,
    dist: Seq<nat>,
    start: int,
    v: int,
)
    requires
        bfs_wf(g, visited, pred, dist, start),
        0 <= v < g.len(),
        visited[v],
    ensures
        chain_ok(g, pred, start, v, dist[v]),
    decreases dist[v],
{
    if dist[v] == 0 {
        if v != start {
            assert(dist[v] == dist[pred[v] as int] + 1);
            assert(false);
        }
        assert(pred_at(pred, v, 0) == v);
    } else {
        assert(v != start);
        let u = pred[v] as int;
        assert(dist[u] == dist[v] - 1);
        lemma_chain_from_pred(g, visited, pred, dist, start, u);
        let k = dist[v];
        assert forall|m: nat| 0 < m implies #[trigger] pred_at(pred, v, m) == pred_at(
            pred,
            u,
            (m - 1) as nat,
        ) by {
            lemma_pred_at_shift(pred, v, (m - 1) as nat);
        }
        assert(pred_at(pred, v, k) == pred_at(pred, u, (k - 1) as nat));
        assert(pred_at(pred, u, (k - 1) as nat) == start);
        assert forall|m: nat| m <= k implies 0 <= #[trigger] pred_at(pred, v, m) < g.len() by {
            if m > 0 {
                assert(pred_at(pred, v, m) == pred_at(pred, u, (m - 1) as nat));
                assert(0 <= pred_at(pred, u, (m - 1) as nat) < g.len());
            }
        }
        assert forall|m: nat| m < k implies edge(
            g,
            pred_at(pred, v, (m + 1) as nat),
            #[trigger] pred_at(pred, v, m),
        ) by {
            if m == 0 {
                assert(pred_at(pred, v, 1) == pred_at(pred, u, 0));
                assert(edge(g, u, v));
            } else {
                assert(pred_at(pred, v, m) == pred_at(pred, u, (m - 1) as nat));
                assert(pred_at(pred, v, (m + 1) as nat) == pred_at(pred, u, m));
                assert(edge(g, pred_at(pred, u, ((m - 1) + 1) as nat), pred_at(
                    pred,
                    u,
                    (m - 1) as nat,
                )));
            }
        }
    }
}

/// Any walk from the start is at least as long as the recorded distance of
/// its last node, and reaches beyond the explored frontier only at length
/// greater than `d`: recorded distances are true lower bounds.
proof fn lemma_path_lower_bound(
    g: Seq<Seq<usize>>,
    visited: Seq<bool>,
    dist: Seq<nat>,
    start: int,
    d: nat,
    p: Seq<usize>,
)
    requires
        visited.len() == g.len(),
        dist.len() == g.len(),
        0 <= start < g.len(),
        visited[start],
        dist[start] == 0,
        forall|v: int| 0 <= v < g.len() && #[trigger] visited[v] ==> dist[v] <= d + 1,
        forall|u: int, w: int|
            0 <= u < g.len() && visited[u] && dist[u] < d && #[trigger] edge(g, u, w)
                ==> visited[w] && dist[w] <= dist[u] + 1,
        is_path(g, p),
        p[0] == start,
    ensures
        visited[p[p.len() - 1] as int] ==> p.len() > dist[p[p.len() - 1] as int],
        !visited[p[p.len() - 1] as int] ==> p.len() > d,
    decreases p.len(),
{
    let n = p.len() as int;
    let v = p[n - 1] as int;
    if n == 1 {
        assert(v == start);
    } else {
        let q = p.drop_last();
        assert(q.len() == n - 1);
        assert forall|i: int| 0 <= i < q.len() implies (#[trigger] q[i]) < g.len() by {
            assert(q[i] == p[i]);
        }
        assert forall|i: int| 0 <= i < q.len() - 1 implies edge(
            g,
            (#[trigger] q[i]) as int,
            q[i + 1] as int,
        ) by {
            assert(q[i] == p[i]);
            assert(q[i + 1] == p[i + 1]);
            assert(edge(g, p[i] as int, p[i + 1] as int));
        }
        assert(is_path(g, q));
        assert(q[0] == p[0]);
        let x = q[q.len() - 1] as int;
        assert(x == p[n - 2] as int);
        assert(edge(g, p[n - 2] as int, p[n - 1] as int));
        lemma_path_lower_bound(g, visited, dist, start, d, q);
        if visited[x] {
            if dist[x] < d {
                assert(visited[v] && dist[v] <= dist[x] + 1);
                assert(q.len() > dist[x]);
            } else {
                assert(q.len() > dist[x]);
                assert(n > d + 1);
            }
        } else {
            assert(q.len() > d);
            assert(n > d + 1);
        }
    }
}

proof fn lemma_push_keeps_contains(s: Seq<usize>, x: usize, y: usize)
    requires
        s.contains(y),
    ensures
        s.push(x).contains(y),
{
    let k = choose|k: int| 0 <= k < s.len() && s[k] == y;
    assert(s.push(x)[k] == y);
}

/// Breadth-first search from `start` over the graph, layer by layer, with
/// predecessor tracking. Returns `Some` with the predecessor array as soon
/// as `end` is discovered (at once when `start == end`), or `None` once the
/// connected component of `start` is exhausted without meeting `end`.
/// On `Some(pred)`, following `pred` from `end` walks back to `start` along
/// edges in some number of steps `k`, and no walk from `start` to `end` has
/// fewer than `k` edges: the chain is a shortest path. On `None`, no walk
/// connects `start` to `end`.
#[verifier::rlimit(100)]
#[verifier::spinoff_prover]
pub fn breadth_first_search(graph: &Graph, start: usize, end: usize) -> (r: Option<
    Vec<usize>,
>)
    requires
        graph.wf(),
        start < graph@.len(),
        end < graph@.len(),
    ensures
        match r {
            Some(pred) => {
                &&& pred@.len() == graph@.len()
                &&& exists|k: nat|
                    {
                        &&& #[trigger] chain_ok(graph@, pred@, start as int, end as int, k)
                        &&& forall|p: Seq<usize>|
                            connects(graph@, p, start as int, end as int) ==> p.len() >= k + 1
                    }
            },
            None => {
                &&& start != end
                &&& forall|p: Seq<usize>| !connects(graph@, p, start as int, end as int)
            },
        },
{
    let n = graph.node_count();
    let mut visited: Vec<bool> = Vec::new();
    let mut pred: Vec<usize> = Vec::new();
    let mut i: usize = 0;
    while i < n
        invariant
            i <= n,
            visited@.len() == i,
            pred@.len() == i,
            forall|k: int| 0 <= k < i ==> !(#[trigger] visited@[k]),
        decreases n - i,
    {
        visited.push(false);
        pred.push(0);
        i = i + 1;
    }
    if start == end {
        proof {
            assert(pred_at(pred@, end as int, 0nat) == end as int);
            assert(chain_ok(graph@, pred@, start as int, end as int, 0nat));
            assert forall|p: Seq<usize>| connects(graph@, p, start as int, end as int)
                implies p.len() >= 1 by {
                assert(is_path(graph@, p));
            }
            assert(exists|k: nat|
                {
                    &&& #[trigger] chain_ok(graph@, pred@, start as int, end as int, k)
                    &&& forall|p: Seq<usize>|
                        connects(graph@, p, start as int, end as int) ==> p.len() >= k + 1
                });
        }
        return Some(pred);
    }
    proof {
        lemma_count_true_all_false(visited@);
    }
    let ghost v_init = visited@;
    visited[start] = true;
    proof {
        assert(visited@ =~= v_init.update(start as int, true));
        lemma_count_true_update(v_init, start as int);
    }
    let mut current: Vec<usize> = Vec::new();
    current.push(start);
    let ghost mut dist: Seq<nat> = Seq::new(n as nat, |x: int| 0nat);
    let ghost mut d: nat = 0;
    proof {
        assert(current@[0] == start);
        assert forall|v: int| 0 <= v < n && #[trigger] visited@[v] && dist[v] == d implies
            current@.contains(v as usize) by {
            assert(v == start);
            assert(current@[0] == v as usize);
        }
    }
    while current.len() > 0
        invariant
            graph.wf(),
            n == graph@.len(),
            start < n,
            end < n,
            visited@.len() == n,
            pred@.len() == n,
            dist.len() == n,
            bfs_wf(graph@, visited@, pred@, dist, start as int),
            forall|v: int| 0 <= v < n && #[trigger] visited@[v] ==> dist[v] <= d,
            forall|t: int|
                0 <= t < current@.len() ==> (#[trigger] current@[t]) < n && visited@[current@[t] as int]
                    && dist[current@[t] as int] == d,
            forall|v: int|
                0 <= v < n && #[trigger] visited@[v] && dist[v] == d ==> current@.contains(
                    v as usize,
                ),
            forall|u: int, w: int|
                0 <= u < n && visited@[u] && dist[u] < d && #[trigger] edge(graph@, u, w)
                    ==> visited@[w] && dist[w] <= dist[u] + 1,
            !visited@[end as int],
            count_true(visited@) <= n,
        decreases n - count_true(visited@) + current@.len(),
    {
        let ghost c0 = count_true(visited@);
        let mut next: Vec<usize> = Vec::new();
        let mut ci: usize = 0;
        while ci < current.len()
            invariant
                graph.wf(),
                n == graph@.len(),
                start < n,
                end < n,
                ci <= current@.len(),
                visited@.len() == n,
                pred@.len() == n,
                dist.len() == n,
                bfs_wf(graph@, visited@, pred@, dist, start as int),
                forall|v: int| 0 <= v < n && #[trigger] visited@[v] ==> dist[v] <= d + 1,
                forall|t: int|
                    0 <= t < current@.len() ==> (#[trigger] current@[t]) < n
                        && visited@[current@[t] as int] && dist[current@[t] as int] == d,
                forall|v: int|
                    0 <= v < n && #[trigger] visited@[v] && dist[v] == d ==> current@.contains(
                        v as usize,
                    ),
                forall|t: int|
                    0 <= t < next@.len() ==> (#[trigger] next@[t]) < n && visited@[next@[t] as int]
                        && dist[next@[t] as int] == d + 1,
                forall|v: int|
                    0 <= v < n && #[trigger] visited@[v] && dist[v] == d + 1 ==> next@.contains(
                        v as usize,
                    ),
                forall|u: int, w: int|
                    0 <= u < n && visited@[u] && dist[u] < d && #[trigger] edge(graph@, u, w)
                        ==> visited@[w] && dist[w] <= dist[u] + 1,
                forall|t: int, w: int|
                    0 <= t < ci && #[trigger] edge(graph@, current@[t] as int, w) ==> visited@[w]
                        && dist[w] <= d + 1,
                !visited@[end as int],
                count_true(visited@) == c0 + next@.len(),
                count_true(visited@) <= n,
            decreases current@.len() - ci,
        {
            let u = current[ci];
            let deg = graph.degree(u);
            let mut ni: usize = 0;
            while ni < deg
                invariant
                    graph.wf(),
                    n == graph@.len(),
                    start < n,
                    end < n,
                    ni <= deg,
                    ci < current@.len(),
                    u == current@[ci as int],
                    u < n,
                    deg == graph@[u as int].len(),
                    visited@[u as int],
                    dist[u as int] == d,
                    visited@.len() == n,
                    pred@.len() == n,
                    dist.len() == n,
                    bfs_wf(graph@, visited@, pred@, dist, start as int),
                    forall|v: int| 0 <= v < n && #[trigger] visited@[v] ==> dist[v] <= d + 1,
                    forall|t: int|
                        0 <= t < current@.len() ==> (#[trigger] current@[t]) < n
                            && visited@[current@[t] as int] && dist[current@[t] as int] == d,
                    forall|v: int|
                        0 <= v < n && #[trigger] visited@[v] && dist[v] == d ==> current@.contains(
                            v as usize,
                        ),
                    forall|t: int|
                        0 <= t < next@.len() ==> (#[trigger] next@[t]) < n
                            && visited@[next@[t] as int] && dist[next@[t] as int] == d + 1,
                    forall|v: int|
                        0 <= v < n && #[trigger] visited@[v] && dist[v] == d + 1
                            ==> next@.contains(v as usize),
                    forall|u2: int, w: int|
                        0 <= u2 < n && visited@[u2] && dist[u2] < d && #[trigger] edge(
                            graph@,
                            u2,
                            w,
                        ) ==> visited@[w] && dist[w] <= dist[u2] + 1,
                    forall|t: int, w: int|
                        0 <= t < ci && #[trigger] edge(graph@, current@[t] as int, w)
                            ==> visited@[w] && dist[w] <= d + 1,
                    forall|k: int|
                        0 <= k < ni ==> visited@[#[trigger] graph@[u as int][k] as int]
                            && dist[graph@[u as int][k] as int] <= d + 1,
                    !visited@[end as int],
                    count_true(visited@) == c0 + next@.len(),
                    count_true(visited@) <= n,
                decreases deg - ni,
            {
                let w = graph.neighbor(u, ni);
                assert(w < n);
                if !visited[w] {
                    let ghost v0 = visited@;
                    let ghost p0 = pred@;
                    let ghost dist0 = dist;
                    visited[w] = true;
                    pred[w] = u;
                    proof {
                        dist = dist.update(w as int, d + 1);
                        assert(visited@ =~= v0.update(w as int, true));
                        assert(pred@ =~= p0.update(w as int, u));
                        lemma_count_true_update(v0, w as int);
                        lemma_count_true_le(visited@);
                        assert(graph@[u as int][ni as int] == w);
                        assert(graph@[u as int].contains(w));
                        assert(edge(graph@, u as int, w as int));
                        assert forall|v: int|
                            0 <= v < n && #[trigger] visited@[v] && v != start as int implies {
                            &&& 0 <= pred@[v] < n
                            &&& visited@[pred@[v] as int]
                            &&& edge(graph@, pred@[v] as int, v)
                            &&& dist[v] == dist[pred@[v] as int] + 1
                        } by {
                            if v == w as int {
                                assert(pred@[v] == u);
                                assert(visited@[u as int]);
                                assert(dist[u as int] == d);
                            } else {
                                assert(v0[v]);
                                assert(pred@[v] == p0[v]);
                                assert(v0[p0[v] as int]);
                                assert(p0[v] as int != w as int);
                                assert(dist[v] == dist0[v]);
                                assert(dist[p0[v] as int] == dist0[p0[v] as int]);
                            }
                        }
                        assert(bfs_wf(graph@, visited@, pred@, dist, start as int));
                    }
                    let ghost next0 = next@;
                    next.push(w);
                    proof {
                        assert(next@[next0.len() as int] == w);
                        assert forall|v: int|
                            0 <= v < n && #[trigger] visited@[v] && dist[v] == d + 1 implies
                            next@.contains(v as usize) by {
                            if v == w as int {
                                assert(next@[next0.len() as int] == v as usize);
                            } else {
                                assert(v0[v] && dist0[v] == d + 1);
                                assert(next0.contains(v as usize));
                                lemma_push_keeps_contains(next0, w, v as usize);
                            }
                        }
                        assert forall|v: int|
                            0 <= v < n && #[trigger] visited@[v] && dist[v] == d implies
                            current@.contains(v as usize) by {
                            if v != w as int {
                                assert(v0[v] && dist0[v] == d);
                            }
                        }
                        assert forall|u2: int, w2: int|
                            0 <= u2 < n && visited@[u2] && dist[u2] < d && #[trigger] edge(
                                graph@,
                                u2,
                                w2,
                            ) implies visited@[w2] && dist[w2] <= dist[u2] + 1 by {
                            if u2 != w as int {
                                assert(v0[u2] && dist0[u2] < d);
                                assert(v0[w2] && dist0[w2] <= dist0[u2] + 1);
                                assert(w2 != w as int);
                            }
                        }
                        assert forall|t: int, w2: int|
                            0 <= t < ci && #[trigger] edge(graph@, current@[t] as int, w2)
                                implies visited@[w2] && dist[w2] <= d + 1 by {
                            assert(v0[w2] && dist0[w2] <= d + 1);
                            assert(w2 != w as int);
                        }
                        assert forall|k: int|
                            0 <= k < ni + 1 implies visited@[#[trigger] graph@[u as int][k] as int]
                                && dist[graph@[u as int][k] as int] <= d + 1 by {
                            if k < ni {
                                let x = graph@[u as int][k] as int;
                                assert(v0[x] && dist0[x] <= d + 1);
                                assert(x != w as int);
                            } else {
                                assert(graph@[u as int][k] == w);
                            }
                        }
                    }
                    if w == end {
                        proof {
                            lemma_chain_from_pred(
                                graph@,
                                visited@,
                                pred@,
                                dist,
                                start as int,
                                end as int,
                            );
                            assert(dist[end as int] == d + 1);
                            assert(chain_ok(graph@, pred@, start as int, end as int, d + 1));
                            assert forall|p: Seq<usize>|
                                connects(graph@, p, start as int, end as int) implies p.len()
                                >= (d + 1) + 1 by {
                                lemma_path_lower_bound(
                                    graph@,
                                    visited@,
                                    dist,
                                    start as int,
                                    d,
                                    p,
                                );
                            }
                            assert(exists|k: nat|
                                {
                                    &&& #[trigger] chain_ok(
                                        graph@,
                                        pred@,
                                        start as int,
                                        end as int,
                                        k,
                                    )
                                    &&& forall|p: Seq<usize>|
                                        connects(graph@, p, start as int, end as int)
                                            ==> p.len() >= k + 1
                                });
                        }
                        return Some(pred);
                    }
                } else {
                    proof {
                        assert(graph@[u as int][ni as int] == w);
                    }
                }
                ni = ni + 1;
            }
            proof {
                assert forall|t: int, w2: int|
                    0 <= t < ci + 1 && #[trigger] edge(graph@, current@[t] as int, w2) implies
                    visited@[w2] && dist[w2] <= d + 1 by {
                    if t == ci {
                        assert(graph@[u as int].contains(w2 as usize));
                        let k = choose|k: int|
                            0 <= k < graph@[u as int].len() && graph@[u as int][k] == w2 as usize;
                        assert(visited@[graph@[u as int][k] as int]);
                    }
                }
            }
            ci = ci + 1;
        }
        proof {
            assert forall|u2: int, w: int|
                0 <= u2 < n && visited@[u2] && dist[u2] < d + 1 && #[trigger] edge(graph@, u2, w)
                    implies visited@[w] && dist[w] <= dist[u2] + 1 by {
                if dist[u2] == d {
                    assert(current@.contains(u2 as usize));
                    let t = choose|t: int| 0 <= t < current@.len() && current@[t] == u2 as usize;
                    assert(edge(graph@, current@[t] as int, w));
                }
            }
        }
        current = next;
        proof {
            d = d + 1;
        }
    }
    proof {
        assert forall|u2: int, w: int|
            0 <= u2 < n && visited@[u2] && #[trigger] edge(graph@, u2, w) implies visited@[w] by {
            if dist[u2] == d {
                assert(current@.contains(u2 as usize));
                assert(false);
            }
            assert(dist[u2] < d);
        }
        assert forall|p: Seq<usize>| !connects(graph@, p, start as int, end as int) by {
            if connects(graph@, p, start as int, end as int) {
                lemma_closed_no_escape(graph@, visited@, p);
                assert(visited@[end as int]);
                assert(false);
            }
        }
    }
    None
}

/// A set of nodes closed under edges and containing the first node of a walk
/// contains its last node.
proof fn lemma_closed_no_escape(g: Seq<Seq<usize>>, visited: Seq<bool>, p: Seq<usize>)
    requires
        visited.len() == g.len(),
        forall|u: int, w: int|
            0 <= u < g.len() && visited[u] && #[trigger] edge(g, u, w) ==> visited[w],
        is_path(g, p),
        visited[p[0] as int],
    ensures
        visited[p[p.len() - 1] as int],
    decreases p.len(),
{
    let n = p.len() as int;
    if n > 1 {
        let q = p.drop_last();
        assert forall|i: int| 0 <= i < q.len() implies (#[trigger] q[i]) < g.len() by {
            assert(q[i] == p[i]);
        }
        assert forall|i: int| 0 <= i < q.len() - 1 implies edge(
            g,
            (#[trigger] q[i]) as int,
            q[i + 1] as int,
        ) by {
            assert(q[i] == p[i]);
            assert(q[i + 1] == p[i + 1]);
            assert(edge(g, p[i] as int, p[i + 1] as int));
        }
        assert(is_path(g, q));
        assert(q[0] == p[0]);
        lemma_closed_no_escape(g, visited, q);
        assert(edge(g, p[n - 2] as int, p[n - 1] as int));
    }
}

/// Finds a shortest word ladder from `start` to `end` over the dictionary:
/// builds the adjacency graph, searches breadth-first, and reconstructs the
/// path. Returns the full index path, start and end inclusive, which is a
/// word ladder no longer than any other between the two; returns `None`
/// exactly when no ladder connects them. When `start == end` the result is
/// the one-element path.
pub fn find_path(dict: &Dictionary, start: usize, end: usize) -> (r: Option<Vec<usize>>)
    requires
        dict.wf(),
        start < dict@.len(),
        end < dict@.len(),
    ensures
        match r {
            Some(path) => {
                &&& word_connects(dict@, path@, start as int, end as int)
                &&& forall|q: Seq<usize>|
                    word_connects(dict@, q, start as int, end as int) ==> q.len()
                        >= path@.len()
                &&& (start == end ==> path@ =~= seq![start])
            },
            None => {
                &&& start != end
                &&& forall|q: Seq<usize>| !word_connects(dict@, q, start as int, end as int)
            },
        },
{
    let graph = generate_graph(dict);
    let result = breadth_first_search(&graph, start, end);
    match result {
        None => {
            proof {
                assert forall|q: Seq<usize>| !word_connects(
                    dict@,
                    q,
                    start as int,
                    end as int,
                ) by {
                    if word_connects(dict@, q, start as int, end as int) {
                        lemma_graph_paths(dict@, graph@, q);
                        assert(connects(graph@, q, start as int, end as int));
                        assert(false);
                    }
                }
            }
            None
        },
        Some(pred) => {
            let ghost predv = pred@;
            let ghost k0 = choose|k: nat|
                {
                    &&& #[trigger] chain_ok(graph@, predv, start as int, end as int, k)
                    &&& forall|p: Seq<usize>|
                        connects(graph@, p, start as int, end as int) ==> p.len() >= k + 1
                };
            proof {
                assert(reaches(predv, end as int, start as int, k0));
            }
            let path = solve(pred, start, end);
            proof {
                let k1 = (path@.len() - 1) as nat;
                if k0 < k1 {
                    assert(pred_at(predv, end as int, k0) != start);
                    assert(false);
                }
                assert(reaches(predv, end as int, start as int, k1));
                assert forall|i: int| 0 <= i < path@.len() implies (#[trigger] path@[i])
                    < graph@.len() by {
                    let m = (path@.len() - 1 - i) as nat;
                    assert(path@[path@.len() - 1 - m] as int == pred_at(predv, end as int, m));
                    assert(0 <= pred_at(predv, end as int, m) < predv.len());
                }
                assert forall|i: int| 0 <= i < path@.len() - 1 implies edge(
                    graph@,
                    (#[trigger] path@[i]) as int,
                    path@[i + 1] as int,
                ) by {
                    let m = (path@.len() - 1 - i) as nat;
                    assert(path@[path@.len() - 1 - m] as int == pred_at(predv, end as int, m));
                    assert(path@[path@.len() - 1 - (m - 1)] as int == pred_at(
                        predv,
                        end as int,
                        (m - 1) as nat,
                    ));
                    assert(m - 1 < k0);
                    assert(edge(
                        graph@,
                        pred_at(predv, end as int, ((m - 1) + 1) as nat),
                        pred_at(predv, end as int, (m - 1) as nat),
                    ));
                }
                assert(is_path(graph@, path@));
                assert(connects(graph@, path@, start as int, end as int));
                lemma_graph_paths(dict@, graph@, path@);
                assert(word_connects(dict@, path@, start as int, end as int));
                assert forall|q: Seq<usize>| word_connects(
                    dict@,
                    q,
                    start as int,
                    end as int,
                ) implies q.len() >= path@.len() by {
                    lemma_graph_paths(dict@, graph@, q);
                    assert(connects(graph@, q, start as int, end as int));
                    assert(q.len() >= k0 + 1);
                }
                if start == end {
                    let single: Seq<usize> = seq![start];
                    assert(single[0] == start);
                    assert(is_word_path(dict@, single));
                    assert(word_connects(dict@, single, start as int, end as int));
                    assert(single.len() >= path@.len());
                    assert(path@.len() == 1);
                    assert(path@ =~= seq![start]);
                }
            }
            Some(path)
        },
    }
}

} // verus!
