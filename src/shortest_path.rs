use vstd::prelude::*;

use crate::graph::{Edge, Graph};
use crate::priority_queue::MinPriorityQueue;

verus! {

/// A walk given as steps `(node, k)`: leave `node` along its `k`-th edge.
/// It leads from `s` to `t` when each step leaves where the last one arrived.
pub open spec fn is_walk(edges: Seq<Seq<Edge>>, steps: Seq<(usize, usize)>, s: usize, t: usize) -> bool
    decreases steps.len(),
{
    if steps.len() == 0 {
        s == t
    } else {
        let (u, k) = steps.last();
        &&& u < edges.len()
        &&& k < edges[u as int].len()
        &&& edges[u as int][k as int].to == t
        &&& is_walk(edges, steps.drop_last(), s, u)
    }
}

/// The total weight of a walk.
pub open spec fn walk_weight(edges: Seq<Seq<Edge>>, steps: Seq<(usize, usize)>) -> nat
    decreases steps.len(),
{
    if steps.len() == 0 {
        0
    } else {
        let (u, k) = steps.last();
        walk_weight(edges, steps.drop_last()) + edges[u as int][k as int].weight as nat
    }
}

/// Some edge leads from `u` to `v`.
pub open spec fn adjacent(edges: Seq<Seq<Edge>>, u: usize, v: usize) -> bool {
    u < edges.len() && exists|k: int| 0 <= k < edges[u as int].len() && #[trigger] edges[u as int][k].to == v
}

/// Every edge leads to a node of the graph.
pub open spec fn closed_graph(edges: Seq<Seq<Edge>>) -> bool {
    forall|u: int, k: int|
        0 <= u < edges.len() && 0 <= k < edges[u].len() ==> #[trigger] edges[u][k].to < edges.len()
}

/// Walk the predecessor links back from `target` until `source`, a node
/// without predecessor, or as many nodes as there are; the path is returned
/// source end first.
pub fn reconstruct_path(prev: &[Option<usize>], source: usize, target: usize) -> (r: Vec<usize>)
    requires
        target < prev@.len(),
        forall|v: int| 0 <= v < prev@.len() && prev@[v] is Some ==> (#[trigger] prev@[v])->0 < prev@.len(),
    ensures
        r@.len() >= 1,
        r@.last() == target,
        forall|i: int| 0 <= i < r@.len() ==> #[trigger] r@[i] < prev@.len(),
        forall|i: int| 0 <= i < r@.len() - 1 ==> #[trigger] prev@[r@[i + 1] as int] == Some(r@[i]),
        r@[0] == source || prev@[r@[0] as int] is None || r@.len() >= prev@.len(),
{
    let mut back: Vec<usize> = Vec::new();
    let mut current = target;
    let n = prev.len();
    loop
        invariant_except_break
            current < n,
            back@.len() < n + 1,
            back@.len() > 0 ==> prev@[back@.last() as int] == Some(current),
            back@.len() == 0 ==> current == target,
        invariant
            n == prev@.len(),
            target < n,
            forall|v: int| 0 <= v < prev@.len() && prev@[v] is Some ==> (#[trigger] prev@[v])->0 < prev@.len(),
            back@.len() > 0 ==> back@[0] == target,
            forall|i: int| 0 <= i < back@.len() ==> #[trigger] back@[i] < n,
            forall|i: int| 0 <= i < back@.len() - 1 ==> prev@[#[trigger] back@[i] as int] == Some(back@[i + 1]),
        ensures
            back@.len() >= 1,
            back@.last() == source || prev@[back@.last() as int] is None || back@.len() >= n,
        decreases n + 1 - back@.len(),
    {
        back.push(current);
        if current == source || back.len() >= n {
            break;
        }
        match prev[current] {
            Some(p) => {
                current = p;
            },
            None => {
                break;
            },
        }
    }
    let mut path: Vec<usize> = Vec::new();
    let mut i: usize = back.len();
    while i > 0
        invariant
            i <= back@.len(),
            path@.len() == back@.len() - i,
            forall|j: int| 0 <= j < path@.len() ==> #[trigger] path@[j] == back@[back@.len() - 1 - j],
        decreases i,
    {
        i = i - 1;
        path.push(back[i]);
    }
    assert(path@[0] == back@.last());
    assert forall|j: int| 0 <= j < path@.len() - 1 implies prev@[#[trigger] path@[j + 1] as int] == Some(path@[j]) by {
        let b = back@.len() - 2 - j;
        assert(path@[j + 1] == back@[b]);
        assert(path@[j] == back@[b + 1]);
    }
    path
}

/// The labels of the nodes of `path`, joined by ` -> `.
pub open spec fn path_text(labels: Seq<Seq<char>>, path: Seq<usize>) -> Seq<char>
    decreases path.len(),
{
    if path.len() == 0 {
        Seq::empty()
    } else if path.len() == 1 {
        labels[path[0] as int]
    } else {
        path_text(labels, path.drop_last()) + " -> "@ + labels[path.last() as int]
    }
}

/// Write a path with the graph's node labels: `A -> B -> D`.
pub fn format_path(graph: &Graph, path: &[usize]) -> (r: String)
    requires
        graph.wf(),
        forall|i: int| 0 <= i < path@.len() ==> #[trigger] path@[i] < graph.edges().len(),
    ensures
        r@ == path_text(graph.labels(), path@),
{
    let mut out = String::new();
    let mut i: usize = 0;
    while i < path.len()
        invariant
            graph.wf(),
            forall|j: int| 0 <= j < path@.len() ==> #[trigger] path@[j] < graph.edges().len(),
            i <= path@.len(),
            out@ == path_text(graph.labels(), path@.take(i as int)),
        decreases path@.len() - i,
    {
        assert(path@.take(i as int + 1).drop_last() == path@.take(i as int));
        let ghost before = out@;
        if i > 0 {
            out.append(" -> ");
        }
        out.append(graph.label(path[i]));
        proof {
            if i == 0 {
                assert(out@ =~= path_text(graph.labels(), path@.take(1)));
            } else {
                assert(out@ =~= before + " -> "@ + graph.labels()[path@[i as int] as int]);
            }
        }
        i += 1;
    }
    assert(path@.take(i as int) == path@);
    out
}

/// The sum of the entries of `s`.
pub open spec fn total(s: Seq<u32>) -> nat
    decreases s.len(),
{
    if s.len() == 0 {
        0
    } else {
        total(s.drop_last()) + s.last() as nat
    }
}

proof fn lemma_total_update(s: Seq<u32>, i: int, x: u32)
    requires
        0 <= i < s.len(),
    ensures
        total(s.update(i, x)) + s[i] as nat == total(s) + x as nat,
    decreases s.len(),
{
    if i < s.len() - 1 {
        assert(s.update(i, x).drop_last() == s.drop_last().update(i, x));
        lemma_total_update(s.drop_last(), i, x);
    } else {
        assert(s.update(i, x).drop_last() == s.drop_last());
    }
}

/// Every edge out of a settled node has been relaxed: its head is no
/// farther than the node's distance plus the weight, unless that sum does
/// not fit below `u32::MAX`.
pub open spec fn relaxed_from(edges: Seq<Seq<Edge>>, dist: Seq<u32>, u: int, upto: int) -> bool {
    forall|k: int|
        0 <= k < upto ==> #[trigger] dist[edges[u][k].to as int] as int <= dist[u] + edges[u][k].weight
            || dist[u] + edges[u][k].weight >= u32::MAX
}

/// Along any walk from `s`, a node is reached either settled and no
/// farther than the walk, or by a walk at least as heavy as `b`, a bound
/// below every queued distance.
proof fn lemma_walk_bound(
    edges: Seq<Seq<Edge>>,
    dist: Seq<u32>,
    visited: Seq<bool>,
    queued: Map<usize, u32>,
    s: usize,
    b: int,
    steps: Seq<(usize, usize)>,
    t: usize,
)
    requires
        dist.len() == edges.len(),
        visited.len() == edges.len(),
        closed_graph(edges),
        s < edges.len(),
        dist[s as int] == 0,
        b <= u32::MAX,
        forall|v: int| 0 <= v < edges.len() && #[trigger] visited[v] ==> relaxed_from(edges, dist, v, edges[v].len() as int),
        forall|v: int| 0 <= v < edges.len() && !#[trigger] visited[v] && dist[v] < u32::MAX ==> queued.contains_key(v as usize),
        forall|x: usize| #[trigger] queued.contains_key(x) ==> x < edges.len() && b <= dist[x as int],
        is_walk(edges, steps, s, t),
    ensures
        t < edges.len(),
        (visited[t as int] && dist[t as int] <= walk_weight(edges, steps)) || b <= walk_weight(edges, steps),
    decreases steps.len(),
{
    if steps.len() > 0 {
        let (p, k) = steps.last();
        let w = edges[p as int][k as int];
        lemma_walk_bound(edges, dist, visited, queued, s, b, steps.drop_last(), p);
        let wp = walk_weight(edges, steps.drop_last());
        assert(walk_weight(edges, steps) == wp + w.weight);
        assert(w.to == t);
        assert(t < edges.len());
        if visited[p as int] && dist[p as int] <= wp {
            assert(relaxed_from(edges, dist, p as int, edges[p as int].len() as int));
            assert(dist[edges[p as int][k as int].to as int] as int <= dist[p as int] + edges[p as int][k as int].weight
                || dist[p as int] + edges[p as int][k as int].weight >= u32::MAX);
            if dist[p as int] + w.weight < u32::MAX {
                if !visited[t as int] {
                    assert(queued.contains_key(t));
                }
            }
        }
    } else {
        if !visited[s as int] {
            assert(queued.contains_key(s));
        }
    }
}

/// The nodes a walk from `s` to `t` passes, `s` first and `t` last.
pub open spec fn walk_nodes(steps: Seq<(usize, usize)>, t: usize) -> Seq<usize> {
    steps.map_values(|st: (usize, usize)| st.0) + seq![t]
}

/// A walk's first step leaves its start.
proof fn lemma_walk_start(edges: Seq<Seq<Edge>>, steps: Seq<(usize, usize)>, s: usize, t: usize)
    requires
        is_walk(edges, steps, s, t),
        steps.len() > 0,
    ensures
        steps[0].0 == s,
    decreases steps.len(),
{
    let (u, k) = steps.last();
    if steps.len() > 1 {
        lemma_walk_start(edges, steps.drop_last(), s, u);
        assert(steps.drop_last()[0] == steps[0]);
    } else {
        assert(steps.drop_last().len() == 0);
        assert(is_walk(edges, steps.drop_last(), s, u));
        assert(s == u) by {
            reveal_with_fuel(is_walk, 2);
        }
        assert(steps[0] == steps.last());
    }
}

/// The links predecessor to node, read back from `target`, trace the walk
/// recorded for `target`: node `i` of the path is where that walk stands
/// after `i` steps.
proof fn lemma_path_back(
    prev: Seq<Option<usize>>,
    walks: Seq<Seq<(usize, usize)>>,
    target: usize,
    path: Seq<usize>,
    i: int,
)
    requires
        walks.len() == prev.len(),
        path.len() >= 1,
        path.last() == target,
        0 <= i < path.len(),
        forall|j: int| 0 <= j < path.len() ==> #[trigger] path[j] < prev.len(),
        forall|j: int| 0 <= j < path.len() - 1 ==> #[trigger] prev[path[j + 1] as int] == Some(path[j]),
        forall|v: int|
            0 <= v < prev.len() && (#[trigger] prev[v]) is Some ==> prev[v]->0 < prev.len() && walks[v].len() > 0
                && walks[v].drop_last() == walks[prev[v]->0 as int] && walks[v].last().0 == prev[v]->0,
    ensures
        walks[path[i] as int].len() + (path.len() - 1 - i) == walks[target as int].len(),
        walks[path[i] as int] == walks[target as int].take(walks[path[i] as int].len() as int),
        i < path.len() - 1 ==> path[i] == walks[target as int][walks[path[i] as int].len() as int].0,
    decreases path.len() - i,
{
    if i < path.len() - 1 {
        lemma_path_back(prev, walks, target, path, i + 1);
        let v = path[i + 1] as int;
        let u = path[i];
        assert(prev[v] == Some(u));
        let wv = walks[v];
        let wt = walks[target as int];
        assert(wv == wt.take(wv.len() as int));
        assert(walks[u as int] == wv.drop_last());
        assert(wv.drop_last() == wt.take(wv.len() - 1));
        assert(wv.last() == wt[wv.len() - 1]);
    }
}

/// A path read back from `target` along the predecessor links is the node
/// sequence of the walk recorded for `target`.
#[verifier::rlimit(100)]
proof fn lemma_path_is_walk(
    prev: Seq<Option<usize>>,
    walks: Seq<Seq<(usize, usize)>>,
    dist: Seq<u32>,
    source: usize,
    target: usize,
    path: Seq<usize>,
)
    requires
        walks.len() == prev.len(),
        dist.len() == prev.len(),
        source < prev.len(),
        target < prev.len(),
        walks[source as int] == Seq::<(usize, usize)>::empty(),
        dist[target as int] < u32::MAX,
        forall|v: int| 0 <= v < prev.len() && v != source && (#[trigger] prev[v]) is None ==> dist[v] == u32::MAX,
        forall|v: int|
            0 <= v < prev.len() && (#[trigger] prev[v]) is Some ==> prev[v]->0 < prev.len() && dist[prev[v]->0 as int]
                < u32::MAX && walks[v].len() > 0 && walks[v].drop_last() == walks[prev[v]->0 as int]
                && walks[v].last().0 == prev[v]->0,
        path.len() >= 1,
        path.last() == target,
        forall|j: int| 0 <= j < path.len() ==> #[trigger] path[j] < prev.len(),
        forall|j: int| 0 <= j < path.len() - 1 ==> #[trigger] prev[path[j + 1] as int] == Some(path[j]),
        path[0] == source || prev[path[0] as int] is None || path.len() >= prev.len(),
    ensures
        path == walk_nodes(walks[target as int], target),
{
    let m = path.len();
    let n = prev.len();
    let wt = walks[target as int];
    assert forall|i: int| 0 <= i < m implies walks[#[trigger] path[i] as int].len() + (m - 1 - i) == wt.len()
        && walks[path[i] as int] == wt.take(walks[path[i] as int].len() as int) && (i < m - 1 ==> path[i]
        == wt[walks[path[i] as int].len() as int].0) by {
        lemma_path_back(prev, walks, target, path, i);
    }
    let p0 = path[0];
    if m > 1 {
        assert(prev[path[0int + 1] as int] == Some(path[0]));
    }
    assert(dist[p0 as int] < u32::MAX);
    if p0 != source {
        assert(prev[p0 as int] is Some);
        assert(m >= n);
        let u = prev[p0 as int]->0;
        let ext = seq![u] + path;
        assert(walks[u as int] == walks[p0 as int].drop_last());
        assert forall|i: int| 0 <= i < ext.len() implies #[trigger] walks[ext[i] as int].len() + 1 + (m - 1 - (i - 1))
            == wt.len() + 1 by {
            if i > 0 {
                assert(ext[i] == path[i - 1]);
            }
        }
        assert(ext.no_duplicates()) by {
            assert forall|a: int, b: int| 0 <= a < ext.len() && 0 <= b < ext.len() && a != b implies ext[a] != ext[b] by {
                if ext[a] == ext[b] {
                    assert(walks[ext[a] as int].len() == walks[ext[b] as int].len());
                }
            }
        }
        assert forall|i: int| 0 <= i < ext.len() implies #[trigger] ext[i] < n by {
            if i > 0 {
                assert(ext[i] == path[i - 1]);
            }
        }
        crate::lru::lemma_distinct_bounded(ext, n as nat);
    }
    assert(walks[p0 as int].len() == 0);
    assert forall|i: int| 0 <= i < m implies #[trigger] path[i] == walk_nodes(wt, target)[i] by {
        if i < m - 1 {
            assert(walks[path[i] as int].len() == i);
        }
    }
    assert(path =~= walk_nodes(wt, target));
}

/// The walk recorded for `target`, its nodes being the path, starts at `source`.
proof fn lemma_path_starts(edges: Seq<Seq<Edge>>, w: Seq<(usize, usize)>, source: usize, target: usize)
    requires
        is_walk(edges, w, source, target),
    ensures
        walk_nodes(w, target)[0] == source,
{
    if w.len() > 0 {
        lemma_walk_start(edges, w, source, target);
    } else {
        reveal_with_fuel(is_walk, 1);
    }
}

/// Dijkstra's algorithm from `source`, stopping as soon as `target` is
/// taken from the queue. Returns the length of a shortest walk to `target`
/// (no walk is lighter) with the nodes of one such walk, from `source` to
/// `target`, whose edge weights sum to that length; or `None` when every walk to
/// `target` weighs at least `u32::MAX`, distances saturating there.
pub fn dijkstra(graph: &Graph, source: usize, target: usize) -> (r: Option<(u32, Vec<usize>)>)
    requires
        graph.wf(),
        closed_graph(graph.edges()),
        source < graph.edges().len(),
        target < graph.edges().len(),
    ensures
        r matches Some((cost, path)) ==> {
            &&& exists|w: Seq<(usize, usize)>|
                is_walk(graph.edges(), w, source, target) && walk_weight(graph.edges(), w) == cost
                    && path@ == walk_nodes(w, target)
            &&& path@[0] == source
            &&& forall|w: Seq<(usize, usize)>|
                is_walk(graph.edges(), w, source, target) ==> cost <= #[trigger] walk_weight(graph.edges(), w)
            &&& path@.len() >= 1
            &&& path@.last() == target
            &&& forall|i: int|
                0 <= i < path@.len() - 1 ==> adjacent(graph.edges(), #[trigger] path@[i], path@[i + 1])
        },
        r is None ==> forall|w: Seq<(usize, usize)>|
            is_walk(graph.edges(), w, source, target) ==> #[trigger] walk_weight(graph.edges(), w) >= u32::MAX,
{
    let ghost edges = graph.edges();
    let n = graph.num_nodes();
    let mut dist: Vec<u32> = Vec::new();
    let mut prev: Vec<Option<usize>> = Vec::new();
    let mut visited: Vec<bool> = Vec::new();
    while dist.len() < n
        invariant
            dist@.len() <= n,
            prev@.len() == dist@.len(),
            visited@.len() == dist@.len(),
            forall|v: int| 0 <= v < dist@.len() ==> #[trigger] dist@[v] == u32::MAX,
            forall|v: int| 0 <= v < prev@.len() ==> #[trigger] prev@[v] is None,
            forall|v: int| 0 <= v < visited@.len() ==> !#[trigger] visited@[v],
        decreases n - dist@.len(),
    {
        dist.push(u32::MAX);
        prev.push(None);
        visited.push(false);
    }
    let mut pq = MinPriorityQueue::new(n);
    dist.set(source, 0);
    pq.insert(source, 0);
    let ghost mut walks: Seq<Seq<(usize, usize)>> = Seq::new(n as nat, |i: int| Seq::<(usize, usize)>::empty());
    let ghost mut last: int = 0;
    loop
        invariant
            dist@[source as int] == 0,
            0 <= last < u32::MAX,
            forall|v: int| 0 <= v < n && #[trigger] visited@[v] ==> dist@[v] <= last,
            forall|v: int| 0 <= v < n && #[trigger] visited@[v] ==> relaxed_from(edges, dist@, v, edges[v].len() as int),
            forall|v: int| 0 <= v < n && !#[trigger] visited@[v] && dist@[v] < u32::MAX ==> pq.contents().contains_key(v as usize),
            forall|x: usize| #[trigger] pq.contents().contains_key(x) ==> !visited@[x as int] && last <= dist@[x as int],
            !visited@[target as int],
            edges == graph.edges(),
            n == edges.len(),
            graph.wf(),
            closed_graph(edges),
            source < n,
            target < n,
            dist@.len() == n,
            prev@.len() == n,
            visited@.len() == n,
            walks.len() == n,
            pq.inv(),
            pq.spec_capacity() == n,
            forall|x: usize| #[trigger] pq.contents().contains_key(x) ==> x < n && pq.contents()[x]
                == dist@[x as int] && pq.contents()[x] < u32::MAX,
            forall|v: int| 0 <= v < n && #[trigger] dist@[v] < u32::MAX ==> is_walk(edges, walks[v], source, v as usize)
                && walk_weight(edges, walks[v]) == dist@[v],
            forall|v: int| 0 <= v < n && (#[trigger] prev@[v]) is Some ==> prev@[v]->0 < n && adjacent(
                edges,
                prev@[v]->0,
                v as usize,
            ),
            walks[source as int] == Seq::<(usize, usize)>::empty(),
            forall|v: int| 0 <= v < n && v != source && (#[trigger] prev@[v]) is None ==> dist@[v] == u32::MAX,
            forall|v: int|
                0 <= v < n && (#[trigger] prev@[v]) is Some ==> visited@[prev@[v]->0 as int] && walks[v].len() > 0
                    && walks[v].drop_last() == walks[prev@[v]->0 as int] && walks[v].last().0 == prev@[v]->0,
        decreases total(dist@), pq.contents().dom().len(),
    {
        let _ = pq.len();
        let ghost sum0 = total(dist@);
        let ghost len0 = pq.contents().dom().len();
        let ghost c0 = pq.contents();
        let entry = match pq.extract_min() {
            Some(e) => e,
            None => {
                proof {
                    assert forall|w: Seq<(usize, usize)>| is_walk(edges, w, source, target) implies #[trigger] walk_weight(
                        edges,
                        w,
                    ) >= u32::MAX by {
                        lemma_walk_bound(edges, dist@, visited@, c0, source, u32::MAX as int, w, target);
                    }
                }
                if dist[target] == u32::MAX {
                    return None;
                }
                let path = reconstruct_path(prev.as_slice(), source, target);
                proof {
                    assert forall|v: int| 0 <= v < n && (#[trigger] prev@[v]) is Some implies dist@[prev@[v]->0 as int] < u32::MAX by {
                        assert(visited@[prev@[v]->0 as int]);
                    }
                    lemma_path_is_walk(prev@, walks, dist@, source, target, path@);
                    lemma_path_starts(edges, walks[target as int], source, target);
                    assert forall|i: int| 0 <= i < path@.len() - 1 implies adjacent(edges, #[trigger] path@[i], path@[i + 1]) by {
                        assert(prev@[path@[i + 1] as int] == Some(path@[i]));
                    }
                }
                return Some((dist[target], path));
            },
        };
        let _ = pq.len();
        assert(pq.contents().dom() == c0.dom().remove(entry.item));
        let u = entry.item;
        let cost_u = entry.priority;
        assert(c0.contains_key(u));
        if u == target {
            let path = reconstruct_path(prev.as_slice(), source, target);
            proof {
                assert forall|v: int| 0 <= v < n && (#[trigger] prev@[v]) is Some implies dist@[prev@[v]->0 as int] < u32::MAX by {
                    assert(visited@[prev@[v]->0 as int]);
                }
                lemma_path_is_walk(prev@, walks, dist@, source, target, path@);
                lemma_path_starts(edges, walks[target as int], source, target);
                assert(is_walk(edges, walks[u as int], source, u));
                assert forall|w: Seq<(usize, usize)>| is_walk(edges, w, source, target) implies cost_u <= #[trigger] walk_weight(
                    edges,
                    w,
                ) by {
                    assert forall|x: usize| #[trigger] c0.contains_key(x) implies x < edges.len() && cost_u <= dist@[x as int] by {}
                    lemma_walk_bound(edges, dist@, visited@, c0, source, cost_u as int, w, target);
                }
                assert forall|i: int| 0 <= i < path@.len() - 1 implies adjacent(edges, #[trigger] path@[i], path@[i + 1]) by {
                    assert(prev@[path@[i + 1] as int] == Some(path@[i]));
                }
            }
            return Some((cost_u, path));
        }
        if visited[u] {
            continue;
        }
        let ghost old_visited = visited@;
        visited.set(u, true);
        proof {
            assert forall|x: usize| #[trigger] c0.contains_key(x) implies cost_u <= dist@[x as int] by {}
            last = cost_u as int;
        }
        if cost_u > dist[u] {
            continue;
        }
        let nbrs = graph.neighbors(u);
        let mut k: usize = 0;
        let ghost mut relaxed = false;
        while k < nbrs.len()
            invariant
                edges == graph.edges(),
                n == edges.len(),
                closed_graph(edges),
                u < n,
                nbrs@ == edges[u as int],
                k <= nbrs@.len(),
                dist@.len() == n,
                prev@.len() == n,
                walks.len() == n,
                dist@[u as int] == cost_u,
                cost_u < u32::MAX,
                is_walk(edges, walks[u as int], source, u),
                walk_weight(edges, walks[u as int]) == cost_u,
                pq.inv(),
                pq.spec_capacity() == n,
                forall|x: usize| #[trigger] pq.contents().contains_key(x) ==> x < n && pq.contents()[x]
                    == dist@[x as int] && pq.contents()[x] < u32::MAX,
                forall|v: int| 0 <= v < n && #[trigger] dist@[v] < u32::MAX ==> is_walk(edges, walks[v], source, v as usize)
                    && walk_weight(edges, walks[v]) == dist@[v],
                forall|v: int| 0 <= v < n && (#[trigger] prev@[v]) is Some ==> prev@[v]->0 < n && adjacent(
                    edges,
                    prev@[v]->0,
                    v as usize,
                ),
                relaxed ==> total(dist@) < sum0,
                !relaxed ==> total(dist@) == sum0 && pq.contents().dom() == c0.dom().remove(u),
                visited@.len() == n,
                source < n,
                target < n,
                dist@[source as int] == 0,
                last == cost_u,
                visited@[u as int],
                forall|v: int| 0 <= v < n && #[trigger] visited@[v] ==> dist@[v] <= last,
                forall|v: int| 0 <= v < n && #[trigger] visited@[v] && v != u ==> relaxed_from(edges, dist@, v, edges[v].len() as int),
                relaxed_from(edges, dist@, u as int, k as int),
                forall|v: int| 0 <= v < n && !#[trigger] visited@[v] && dist@[v] < u32::MAX ==> pq.contents().contains_key(v as usize),
                forall|x: usize| #[trigger] pq.contents().contains_key(x) ==> !visited@[x as int] && last <= dist@[x as int],
                !visited@[target as int],
                walks[source as int] == Seq::<(usize, usize)>::empty(),
                forall|v: int| 0 <= v < n && v != source && (#[trigger] prev@[v]) is None ==> dist@[v] == u32::MAX,
                forall|v: int|
                    0 <= v < n && (#[trigger] prev@[v]) is Some ==> visited@[prev@[v]->0 as int] && walks[v].len() > 0
                        && walks[v].drop_last() == walks[prev@[v]->0 as int] && walks[v].last().0 == prev@[v]->0,
            decreases nbrs@.len() - k,
        {
            let edge = nbrs[k];
            let v = edge.to;
            assert(edges[u as int][k as int] == edge);
            let new_dist = cost_u.saturating_add(edge.weight);
            if new_dist < dist[v] {
                let ghost before = dist@;
                proof { lemma_total_update(dist@, v as int, new_dist); }
                dist.set(v, new_dist);
                prev.set(v, Some(u));
                proof {
                    let w = walks[u as int].push((u, k));
                    assert(w.drop_last() == walks[u as int]);
                    walks = walks.update(v as int, w);
                    assert(adjacent(edges, u, v));
                    relaxed = true;
                }
                if pq.contains(v) {
                    pq.decrease_key(v, new_dist);
                } else {
                    pq.insert(v, new_dist);
                }
            }
            k += 1;
        }
        proof {
            if !relaxed {
                assert(pq.contents().dom() == c0.dom().remove(u));
            }
        }
        let _ = pq.len();
    }
    if dist[target] == u32::MAX {
        None
    } else {
        let path = reconstruct_path(prev.as_slice(), source, target);
        proof {
            assert forall|i: int| 0 <= i < path@.len() - 1 implies adjacent(edges, #[trigger] path@[i], path@[i + 1]) by {
                assert(prev@[path@[i + 1] as int] == Some(path@[i]));
            }
        }
        Some((dist[target], path))
    }
}

} // verus!
