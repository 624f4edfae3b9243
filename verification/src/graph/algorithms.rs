use crate::graph::types::{Edge, Graph, spec_neighbors};
use vstd::prelude::*;

verus! {

broadcast use vstd::seq_lib::group_seq_properties;

/// The edge `e` joins the nodes at indices `u` and `v`, in either direction.
pub open spec fn edge_joins(g: Graph, e: Edge, u: int, v: int) -> bool {
    let idu = g.nodes_seq()[u].id;
    let idv = g.nodes_seq()[v].id;
    (e.source == idu && e.target == idv) || (e.target == idu && e.source == idv)
}

/// Indices `u` and `v` are adjacent: some edge joins their ids.
pub open spec fn adj(g: Graph, u: int, v: int) -> bool {
    &&& 0 <= u < g.nodes_seq().len()
    &&& 0 <= v < g.nodes_seq().len()
    &&& exists|e: int| 0 <= e < g.edges_seq().len() && edge_joins(g, #[trigger] g.edges_seq()[e], u, v)
}

/// `p` walks from `s` to `t` along edges.
pub open spec fn is_path(g: Graph, p: Seq<usize>, s: int, t: int) -> bool {
    &&& p.len() >= 1
    &&& p[0] == s
    &&& p.last() == t
    &&& forall|k: int| 0 <= k < p.len() - 1 ==> adj(g, #[trigger] p[k] as int, p[k + 1] as int)
}

/// Some walk joins `s` to `t`.
pub open spec fn spec_reachable(g: Graph, s: int, t: int) -> bool {
    exists|p: Seq<usize>| is_path(g, p, s, t)
}

/// No two nodes carry the same id (the documented caller responsibility).
pub open spec fn unique_ids(g: Graph) -> bool {
    forall|i: int, j: int|
        0 <= i < j < g.nodes_seq().len() ==> (#[trigger] g.nodes_seq()[i]).id != (
        #[trigger] g.nodes_seq()[j]).id
}

/// An id joined to `idu` by the edge at `e` appears in `idu`'s neighbor list.
proof fn lemma_neighbor_listed(edges: Seq<Edge>, idu: u32, idw: u32, e: int)
    requires
        0 <= e < edges.len(),
        (edges[e].source == idu && edges[e].target == idw) || (edges[e].target == idu
            && edges[e].source == idw),
    ensures
        spec_neighbors(edges, idu).contains(idw),
    decreases edges.len(),
{
    if e == edges.len() - 1 {
        let rest = spec_neighbors(edges.drop_last(), idu);
        if edges.last().source == idu {
            assert(spec_neighbors(edges, idu).last() == edges.last().target);
        } else {
            assert(spec_neighbors(edges, idu).last() == edges.last().source);
        }
    } else {
        lemma_neighbor_listed(edges.drop_last(), idu, idw, e);
        let rest = spec_neighbors(edges.drop_last(), idu);
        let k = choose|k: int| 0 <= k < rest.len() && rest[k] == idw;
        assert(spec_neighbors(edges, idu)[k] == idw);
    }
}

/// Each listed neighbor of `idu` is joined to it by some edge.
proof fn lemma_neighbor_has_edge(edges: Seq<Edge>, idu: u32, k: int)
    requires
        0 <= k < spec_neighbors(edges, idu).len(),
    ensures
        exists|e: int|
            0 <= e < edges.len() && {
                let w = spec_neighbors(edges, idu)[k];
                ((#[trigger] edges[e]).source == idu && edges[e].target == w) || (edges[e].target
                    == idu && edges[e].source == w)
            },
    decreases edges.len(),
{
    let rest = spec_neighbors(edges.drop_last(), idu);
    if k < rest.len() {
        lemma_neighbor_has_edge(edges.drop_last(), idu, k);
        let e = choose|e: int|
            0 <= e < edges.drop_last().len() && {
                let w = rest[k];
                ((#[trigger] edges.drop_last()[e]).source == idu && edges.drop_last()[e].target
                    == w) || (edges.drop_last()[e].target == idu && edges.drop_last()[e].source
                    == w)
            };
        assert(edges[e] == edges.drop_last()[e]);
        assert(spec_neighbors(edges, idu)[k] == rest[k]);
    } else {
        assert(spec_neighbors(edges, idu)[k] == spec_neighbors(edges, idu).last());
        assert(edges[edges.len() - 1] == edges.last());
    }
}

/// Distinct values below `n` cannot number more than `n`.
proof fn lemma_bounded_nodup_len(q: Seq<usize>, n: int)
    requires
        0 <= n,
        forall|k: int| 0 <= k < q.len() ==> (#[trigger] q[k]) < n,
        forall|k1: int, k2: int| 0 <= k1 < k2 < q.len() ==> q[k1] != q[k2],
    ensures
        q.len() <= n,
{
    broadcast use vstd::set::group_set_axioms;

    let qi = q.map_values(|x: usize| x as int);
    assert forall|k1: int, k2: int| 0 <= k1 < k2 < qi.len() implies qi[k1] != qi[k2] by {
        assert(q[k1] != q[k2]);
    }
    qi.unique_seq_to_set();
    vstd::set_lib::lemma_int_range(0, n);
    assert(qi.to_set().subset_of(vstd::set_lib::set_int_range(0, n))) by {
        assert forall|x: int| qi.to_set().contains(x) implies vstd::set_lib::set_int_range(
            0,
            n,
        ).contains(x) by {
            let k = choose|k: int| 0 <= k < qi.len() && qi[k] == x;
            assert(q[k] < n);
        }
    }
    vstd::set_lib::lemma_len_subset(qi.to_set(), vstd::set_lib::set_int_range(0, n));
}

/// Under a distance labeling closed under adjacency, a walk cannot outrun
/// the labels: the target's label exceeds the source's by at most the
/// walk's length (so breadth-first labels are true shortest distances).
proof fn lemma_dist_lower_bound(
    g: Graph,
    visited: Seq<bool>,
    dist: Seq<usize>,
    p: Seq<usize>,
    s: int,
    t: int,
)
    requires
        visited.len() == g.nodes_seq().len(),
        dist.len() == visited.len(),
        0 <= s < visited.len(),
        visited[s],
        forall|u: int, v: int|
            0 <= u < visited.len() && visited[u] && #[trigger] adj(g, u, v) ==> visited[v]
                && dist[v] <= dist[u] + 1,
        is_path(g, p, s, t),
    ensures
        0 <= t < visited.len(),
        visited[t],
        dist[t] <= dist[s] + p.len() - 1,
    decreases p.len(),
{
    if p.len() == 1 {
        assert(p[0] == s && p.last() == t);
    } else {
        assert(adj(g, p[0] as int, p[1] as int));
        let q = p.drop_first();
        assert(q[0] == p[1]);
        assert(q.last() == p.last());
        assert forall|k: int| 0 <= k < q.len() - 1 implies adj(
            g,
            #[trigger] q[k] as int,
            q[k + 1] as int,
        ) by {
            assert(adj(g, p[k + 1] as int, p[k + 2] as int));
        }
        lemma_dist_lower_bound(g, visited, dist, q, p[1] as int, t);
    }
}

/// One unweighted shortest-path search between two node ids. Returns the walk
/// as node indices from source to target inclusive, each index at most once;
/// absent ids and unreachable targets yield `None`, and (for well-formed
/// inputs with unique ids) `None` is returned only when no walk exists.
pub fn shortest_path(graph: &Graph, source_id: u32, target_id: u32) -> (r: Option<Vec<usize>>)
    requires
        graph.wf(),
    ensures
        match r {
            Some(p) => {
                &&& p@.len() >= 1
                &&& graph.spec_index_of(source_id, p@[0] as int)
                &&& graph.spec_index_of(target_id, p@.last() as int)
                &&& forall|k: int|
                    0 <= k < p@.len() - 1 ==> adj(*graph, #[trigger] p@[k] as int, p@[k + 1] as int)
                &&& forall|k1: int, k2: int|
                    0 <= k1 < k2 < p@.len() ==> p@[k1] != p@[k2]
                &&& unique_ids(*graph) ==> forall|q: Seq<usize>|
                    #[trigger] is_path(*graph, q, p@[0] as int, p@.last() as int) ==> p@.len()
                        <= q.len()
            },
            None => {
                unique_ids(*graph) ==> forall|si: int, ti: int|
                    graph.spec_index_of(source_id, si) && graph.spec_index_of(target_id, ti)
                        ==> !spec_reachable(*graph, si, ti)
            },
        },
{
    let n = graph.node_count();
    let si = match graph.node_index(source_id) {
        Some(i) => i,
        None => {
            return None;
        },
    };
    let ti = match graph.node_index(target_id) {
        Some(i) => i,
        None => {
            return None;
        },
    };
    let mut visited: Vec<bool> = vec![false; n];
    let mut pred: Vec<usize> = vec![0; n];
    let mut dist: Vec<usize> = vec![0; n];
    let mut queue: Vec<usize> = Vec::new();
    visited[si] = true;
    queue.push(si);
    proof {
        assert(queue@[0] == si);
        lemma_bounded_nodup_len(queue@, n as int);
    }
    let mut qi: usize = 0;
    while qi < queue.len()
        invariant
            graph.wf(),
            n == graph.nodes_seq().len(),
            si < n,
            ti < n,
            graph.spec_index_of(source_id, si as int),
            graph.spec_index_of(target_id, ti as int),
            visited@.len() == n,
            pred@.len() == n,
            dist@.len() == n,
            visited@[si as int],
            dist@[si as int] == 0,
            qi <= queue@.len(),
            queue@.len() <= n,
            forall|k: int| 0 <= k < queue@.len() ==> (#[trigger] queue@[k]) < n,
            forall|k: int| 0 <= k < queue@.len() ==> visited@[(#[trigger] queue@[k]) as int],
            forall|k1: int, k2: int|
                0 <= k1 < k2 < queue@.len() ==> queue@[k1] != queue@[k2],
            forall|u: int| 0 <= u < n && visited@[u] ==> queue@.contains(u as usize),
            forall|u: int|
                0 <= u < n && visited@[u] ==> (#[trigger] dist@[u]) < queue@.len(),
            forall|u: int|
                0 <= u < n && visited@[u] && u != si ==> {
                    let pu = (#[trigger] pred@[u]) as int;
                    &&& 0 <= pu < n
                    &&& visited@[pu]
                    &&& adj(*graph, pu, u)
                    &&& dist@[pu] + 1 == dist@[u]
                },
            forall|u: int| 0 <= u < n && visited@[u] && dist@[u] == 0 ==> u == si,
            forall|k1: int, k2: int|
                0 <= k1 < k2 < queue@.len() ==> dist@[queue@[k1] as int] <= dist@[queue@[k2] as int],
            forall|k1: int, k2: int|
                qi <= k1 < k2 < queue@.len() ==> dist@[queue@[k2] as int] <= dist@[queue@[k1] as int]
                    + 1,
            unique_ids(*graph) ==> forall|k: int, v: int|
                0 <= k < qi && #[trigger] adj(*graph, queue@[k] as int, v) ==> visited@[v]
                    && dist@[v] <= dist@[queue@[k] as int] + 1,
        decreases n - qi,
    {
        let u = queue[qi];
        let uid = graph.nodes()[u].id;
        let nbrs = graph.neighbors(uid);
        proof {
            assert(uid == graph.nodes_seq()[u as int].id);
        }
        let mut k: usize = 0;
        let du = dist[u];
        while k < nbrs.len()
            invariant
                graph.wf(),
                n == graph.nodes_seq().len(),
                si < n,
                ti < n,
                graph.spec_index_of(source_id, si as int),
                graph.spec_index_of(target_id, ti as int),
                visited@.len() == n,
                pred@.len() == n,
                dist@.len() == n,
                visited@[si as int],
                dist@[si as int] == 0,
                qi < queue@.len(),
                u == queue@[qi as int],
                u < n,
                visited@[u as int],
                du == dist@[u as int],
                nbrs@ == spec_neighbors(graph.edges_seq(), uid),
                uid == graph.nodes_seq()[u as int].id,
                k <= nbrs@.len(),
                queue@.len() <= n,
                forall|j: int| 0 <= j < queue@.len() ==> (#[trigger] queue@[j]) < n,
                forall|j: int| 0 <= j < queue@.len() ==> visited@[(#[trigger] queue@[j]) as int],
                forall|k1: int, k2: int|
                    0 <= k1 < k2 < queue@.len() ==> queue@[k1] != queue@[k2],
                forall|v: int| 0 <= v < n && visited@[v] ==> queue@.contains(v as usize),
                forall|v: int|
                    0 <= v < n && visited@[v] ==> (#[trigger] dist@[v]) < queue@.len(),
                forall|v: int|
                    0 <= v < n && visited@[v] && v != si ==> {
                        let pv = (#[trigger] pred@[v]) as int;
                        &&& 0 <= pv < n
                        &&& visited@[pv]
                        &&& adj(*graph, pv, v)
                        &&& dist@[pv] + 1 == dist@[v]
                    },
                forall|v: int| 0 <= v < n && visited@[v] && dist@[v] == 0 ==> v == si,
                forall|k1: int, k2: int|
                    0 <= k1 < k2 < queue@.len() ==> dist@[queue@[k1] as int] <= dist@[queue@[k2]
                        as int],
                forall|k1: int, k2: int|
                    qi <= k1 < k2 < queue@.len() ==> dist@[queue@[k2] as int] <= dist@[queue@[k1]
                        as int] + 1,
                unique_ids(*graph) ==> forall|j: int, v: int|
                    0 <= j < qi && #[trigger] adj(*graph, queue@[j] as int, v) ==> visited@[v]
                        && dist@[v] <= dist@[queue@[j] as int] + 1,
                unique_ids(*graph) ==> forall|v: int|
                    0 <= v < n && adj(*graph, u as int, v) && (exists|m: int|
                        0 <= m < k && nbrs@[m] == graph.nodes_seq()[v].id) ==> visited@[v]
                        && dist@[v] <= du + 1,
            decreases nbrs@.len() - k,
        {
            let vid = nbrs[k];
            match graph.node_index(vid) {
                Some(v) => {
                    let ghost was_visited = visited@[v as int];
                    if !visited[v] {
                        proof {
                            assert(!queue@.contains(v));
                            lemma_neighbor_has_edge(graph.edges_seq(), uid, k as int);
                            let e = choose|e: int|
                                0 <= e < graph.edges_seq().len() && (((#[trigger] graph.edges_seq()[
                                    e
                                ]).source == uid && graph.edges_seq()[e].target == vid) || (
                                graph.edges_seq()[e].target == uid && graph.edges_seq()[e].source
                                    == vid));
                            assert(graph.nodes_seq()[v as int].id == vid);
                            assert(edge_joins(*graph, graph.edges_seq()[e], u as int, v as int));
                            assert(adj(*graph, u as int, v as int));
                        }
                        queue.push(v);
                        proof {
                            assert(queue@.last() == v);
                            assert forall|k1: int, k2: int|
                                0 <= k1 < k2 < queue@.len() implies queue@[k1] != queue@[k2] by {}
                            lemma_bounded_nodup_len(queue@, n as int);
                        }
                        visited[v] = true;
                        pred[v] = u;
                        dist[v] = du + 1;
                        proof {
                            let q1 = queue@;
                            assert(dist@[v as int] == du + 1);
                            assert forall|k1: int, k2: int|
                                0 <= k1 < k2 < q1.len() implies dist@[q1[k1] as int] <= dist@[
                                q1[k2] as int
                            ] by {
                                if k2 == q1.len() - 1 {
                                    if k1 <= qi {
                                        assert(dist@[q1[k1] as int] <= du);
                                    } else {
                                        assert(dist@[q1[k2] as int] == du + 1);
                                        assert(dist@[q1[k1] as int] <= du + 1);
                                    }
                                }
                            }
                            assert forall|k1: int, k2: int|
                                qi <= k1 < k2 < q1.len() implies dist@[q1[k2] as int] <= dist@[
                                q1[k1] as int
                            ] + 1 by {
                                if k2 == q1.len() - 1 {
                                    assert(dist@[q1[k1] as int] >= du);
                                }
                            }
                        }
                    }
                    proof {
                        assert forall|w: int|
                            unique_ids(*graph) && 0 <= w < n && adj(*graph, u as int, w) && (
                            exists|m: int|
                                0 <= m < k + 1 && nbrs@[m] == graph.nodes_seq()[w].id) implies
                            visited@[w] && dist@[w] <= du + 1 by {
                            let m = choose|m: int|
                                0 <= m < k + 1 && nbrs@[m] == graph.nodes_seq()[w].id;
                            if m == k {
                                assert(graph.spec_index_of(vid, v as int));
                                assert(graph.nodes_seq()[w].id == vid);
                                assert(w == v);
                                if was_visited {
                                    let j = choose|j: int|
                                        0 <= j < queue@.len() && queue@[j] == v;
                                    if j <= qi {
                                        assert(dist@[v as int] <= du);
                                    } else {
                                        assert(dist@[v as int] <= du + 1);
                                    }
                                } else {
                                    assert(dist@[w] == du + 1);
                                }
                            }
                        }
                    }
                },
                None => {
                    proof {
                        assert forall|w: int|
                            unique_ids(*graph) && 0 <= w < n && adj(*graph, u as int, w) && (
                            exists|m: int|
                                0 <= m < k + 1 && nbrs@[m] == graph.nodes_seq()[w].id) implies
                            visited@[w] && dist@[w] <= du + 1 by {
                            let m = choose|m: int|
                                0 <= m < k + 1 && nbrs@[m] == graph.nodes_seq()[w].id;
                            if m == k {
                                assert(graph.spec_has_id(graph.nodes_seq()[w].id));
                                assert(false);
                            }
                        }
                    }
                },
            }
            k += 1;
        }
        proof {
            assert forall|j: int, v: int|
                unique_ids(*graph) && 0 <= j < qi + 1 && #[trigger] adj(
                    *graph,
                    queue@[j] as int,
                    v,
                ) implies visited@[v] && dist@[v] <= dist@[queue@[j] as int] + 1 by {
                if j == qi {
                    let e = choose|e: int|
                        0 <= e < graph.edges_seq().len() && edge_joins(
                            *graph,
                            #[trigger] graph.edges_seq()[e],
                            u as int,
                            v,
                        );
                    lemma_neighbor_listed(
                        graph.edges_seq(),
                        uid,
                        graph.nodes_seq()[v].id,
                        e,
                    );
                    let m = choose|m: int|
                        0 <= m < nbrs@.len() && nbrs@[m] == graph.nodes_seq()[v].id;
                }
            }
        }
        qi += 1;
    }
    if !visited[ti] {
        proof {
            if unique_ids(*graph) && spec_reachable(*graph, si as int, ti as int) {
                let p = choose|p: Seq<usize>| is_path(*graph, p, si as int, ti as int);
                assert forall|uu: int, vv: int|
                    0 <= uu < visited@.len() && visited@[uu] && #[trigger] adj(*graph, uu, vv)
                    implies visited@[vv] && dist@[vv] <= dist@[uu] + 1 by {
                    let j = choose|j: int| 0 <= j < queue@.len() && queue@[j] == uu as usize;
                }
                lemma_dist_lower_bound(*graph, visited@, dist@, p, si as int, ti as int);
            }
            assert forall|sj: int, tj: int|
                unique_ids(*graph) && graph.spec_index_of(source_id, sj) && graph.spec_index_of(
                    target_id,
                    tj,
                ) implies !spec_reachable(*graph, sj, tj) by {
                assert(sj == si as int);
                assert(tj == ti as int);
            }
        }
        return None;
    }
    let mut rev: Vec<usize> = Vec::new();
    rev.push(ti);
    let mut cur = ti;
    while cur != si
        invariant
            graph.wf(),
            n == graph.nodes_seq().len(),
            si < n,
            ti < n,
            visited@.len() == n,
            pred@.len() == n,
            dist@.len() == n,
            visited@[si as int],
            dist@[si as int] == 0,
            cur < n,
            visited@[cur as int],
            rev@.len() >= 1,
            rev@[0] == ti,
            rev@.last() == cur,
            forall|v: int|
                0 <= v < n && visited@[v] && v != si ==> {
                    let pv = (#[trigger] pred@[v]) as int;
                    &&& 0 <= pv < n
                    &&& visited@[pv]
                    &&& adj(*graph, pv, v)
                    &&& dist@[pv] + 1 == dist@[v]
                },
            forall|v: int| 0 <= v < n && visited@[v] && dist@[v] == 0 ==> v == si,
            forall|k: int| 0 <= k < rev@.len() ==> (#[trigger] rev@[k]) < n,
            forall|k: int| 0 <= k < rev@.len() ==> visited@[(#[trigger] rev@[k]) as int],
            forall|k: int|
                0 <= k < rev@.len() - 1 ==> adj(*graph, rev@[k + 1] as int, (#[trigger] rev@[k]) as int),
            forall|k1: int, k2: int|
                0 <= k1 < k2 < rev@.len() ==> dist@[rev@[k2] as int] < dist@[rev@[k1] as int],
            rev@.len() + dist@[cur as int] == dist@[ti as int] + 1,
        decreases dist@[cur as int],
    {
        let p = pred[cur];
        rev.push(p);
        cur = p;
    }
    let mut path: Vec<usize> = Vec::new();
    let m = rev.len();
    let mut k: usize = m;
    while k > 0
        invariant
            m == rev@.len(),
            k <= m,
            path@.len() == m - k,
            forall|j: int| 0 <= j < path@.len() ==> #[trigger] path@[j] == rev@[m - 1 - j],
        decreases k,
    {
        k -= 1;
        path.push(rev[k]);
    }
    proof {
        assert(path@[0] == rev@[m - 1]);
        assert(path@.last() == rev@[0]);
        assert forall|j1: int, j2: int| 0 <= j1 < j2 < path@.len() implies path@[j1] != path@[j2]
        by {
            assert(dist@[rev@[m - 1 - j1] as int] < dist@[rev@[m - 1 - j2] as int]);
        }
        assert(path@[0] == si);
        assert(path@.last() == ti);
        assert(path@.len() == dist@[ti as int] + 1);
        if unique_ids(*graph) {
            assert forall|q: Seq<usize>|
                #[trigger] is_path(*graph, q, path@[0] as int, path@.last() as int) implies path@
                .len() <= q.len() by {
                assert forall|uu: int, vv: int|
                    0 <= uu < visited@.len() && visited@[uu] && #[trigger] adj(*graph, uu, vv)
                    implies visited@[vv] && dist@[vv] <= dist@[uu] + 1 by {
                    let j = choose|j: int| 0 <= j < queue@.len() && queue@[j] == uu as usize;
                }
                lemma_dist_lower_bound(*graph, visited@, dist@, q, si as int, ti as int);
            }
        }
    }
    Some(path)
}

/// `a * b` grows no faster than its factors' bounds.
proof fn lemma_mul_le(a: int, b: int, ca: int, cb: int)
    requires
        0 <= a <= ca,
        0 <= b <= cb,
    ensures
        0 <= a * b <= ca * cb,
{
    assert(0 <= a * b <= ca * cb) by (nonlinear_arith)
        requires
            0 <= a <= ca,
            0 <= b <= cb,
    ;
}

/// The node at `i` touches no edge.
pub open spec fn spec_isolated(g: Graph, i: int) -> bool {
    spec_neighbors(g.edges_seq(), g.nodes_seq()[i].id).len() == 0
}

/// Every isolated node sits alone in the community named after it.
pub open spec fn iso_singletons(g: Graph, comm: Seq<usize>) -> bool {
    &&& forall|ii: int|
        0 <= ii < comm.len() && #[trigger] spec_isolated(g, ii) ==> comm[ii] == ii
    &&& forall|ii: int, j: int| #![trigger spec_isolated(g, ii), comm[j]]
        0 <= ii < comm.len() && spec_isolated(g, ii) && 0 <= j < comm.len() && j != ii
            ==> comm[j] != ii
}

/// A node reaches itself by the one-node walk.
proof fn lemma_reachable_refl(g: Graph, u: usize)
    requires
        (u as int) < g.nodes_seq().len(),
    ensures
        spec_reachable(g, u as int, u as int),
{
    let p = seq![u];
    assert(p[0] == u && p.last() == u);
    assert(is_path(g, p, u as int, u as int));
}

/// Adjacent nodes reach each other by the two-node walk.
proof fn lemma_adj_reachable(g: Graph, u: usize, v: usize)
    requires
        adj(g, u as int, v as int),
    ensures
        spec_reachable(g, u as int, v as int),
{
    let p = seq![u, v];
    assert(p[0] == u && p.last() == v);
    assert forall|k: int| 0 <= k < p.len() - 1 implies adj(g, #[trigger] p[k] as int, p[k + 1] as int)
    by {
        assert(p[0] == u && p[1] == v);
    }
    assert(is_path(g, p, u as int, v as int));
}

/// Walks concatenate: reachability is transitive.
proof fn lemma_reachable_trans(g: Graph, a: int, b: int, c: int)
    requires
        spec_reachable(g, a, b),
        spec_reachable(g, b, c),
    ensures
        spec_reachable(g, a, c),
{
    let p1 = choose|p: Seq<usize>| is_path(g, p, a, b);
    let p2 = choose|p: Seq<usize>| is_path(g, p, b, c);
    if p2.len() == 1 {
        assert(b == c);
        assert(is_path(g, p1, a, c));
    } else {
        let q = p1 + p2.drop_first();
        assert(q.len() == p1.len() + p2.len() - 1);
        assert(q[0] == p1[0]);
        assert(q.last() == p2.drop_first().last());
        assert(p2.drop_first().last() == p2.last());
        assert forall|k: int| 0 <= k < q.len() - 1 implies adj(
            g,
            #[trigger] q[k] as int,
            q[k + 1] as int,
        ) by {
            if k < p1.len() - 1 {
                assert(q[k] == p1[k] && q[k + 1] == p1[k + 1]);
                assert(adj(g, p1[k] as int, p1[k + 1] as int));
            } else if k == p1.len() - 1 {
                assert(q[k] == p1[k]);
                assert(p1[k] == p1.last());
                assert(q[k + 1] == p2.drop_first()[0]);
                assert(p2.drop_first()[0] == p2[1]);
                assert(adj(g, p2[0] as int, p2[1] as int));
                assert(p1.last() == b && p2[0] == b);
            } else {
                assert(q[k] == p2.drop_first()[k - p1.len()]);
                assert(q[k + 1] == p2.drop_first()[k + 1 - p1.len()]);
                assert(p2.drop_first()[k - p1.len()] == p2[k - p1.len() + 1]);
                assert(p2.drop_first()[k + 1 - p1.len()] == p2[k + 2 - p1.len()]);
                assert(adj(g, p2[k - p1.len() + 1] as int, p2[k - p1.len() + 2] as int));
            }
        }
        assert(is_path(g, q, a, c));
    }
}

/// A stored edge makes its two endpoints adjacent, in both orders.
proof fn lemma_resolved_adj(g: Graph, u: int, v: int)
    requires
        resolved_edge(g, u, v),
    ensures
        adj(g, u, v),
        adj(g, v, u),
{
    let k = choose|k: int|
        0 <= k < g.edges_seq().len() && g.nodes_seq()[u].id == (#[trigger] g.edges_seq()[k]).source
            && g.nodes_seq()[v].id == g.edges_seq()[k].target;
    assert(edge_joins(g, g.edges_seq()[k], u, v));
    assert(edge_joins(g, g.edges_seq()[k], v, u));
}

/// Equal community labels only within one connected component: whenever the
/// composed labeling `grp[lab[_]]` gives two nodes the same community, some
/// walk joins them.
pub open spec fn labels_within_components(g: Graph, lab: Seq<usize>, grp: Seq<usize>) -> bool {
    forall|u: int, w: int| #![trigger lab[u], lab[w]]
        0 <= u < lab.len() && 0 <= w < lab.len() && 0 <= lab[u] < grp.len() && 0 <= lab[w]
            < grp.len() && grp[lab[u] as int] == grp[lab[w] as int] && u != w ==> spec_reachable(
            g,
            u,
            w,
        )
}

/// The pair `(u, v)` is the index form of some stored edge.
pub open spec fn resolved_edge(g: Graph, u: int, v: int) -> bool {
    &&& 0 <= u < g.nodes_seq().len()
    &&& 0 <= v < g.nodes_seq().len()
    &&& exists|k: int|
        0 <= k < g.edges_seq().len() && g.nodes_seq()[u].id == (#[trigger] g.edges_seq()[k]).source
            && g.nodes_seq()[v].id == g.edges_seq()[k].target
}

/// A node standing at either end of a stored edge is not isolated.
proof fn lemma_endpoint_not_isolated(g: Graph, u: int, v: int)
    requires
        resolved_edge(g, u, v),
    ensures
        !spec_isolated(g, u),
        !spec_isolated(g, v),
{
    let k = choose|k: int|
        0 <= k < g.edges_seq().len() && g.nodes_seq()[u].id == (#[trigger] g.edges_seq()[k]).source
            && g.nodes_seq()[v].id == g.edges_seq()[k].target;
    lemma_neighbor_listed(g.edges_seq(), g.nodes_seq()[u].id, g.nodes_seq()[v].id, k);
    lemma_neighbor_listed(g.edges_seq(), g.nodes_seq()[v].id, g.nodes_seq()[u].id, k);
}

/// Summed weighted degree of community `c`, leaving group `excl` out.
fn tot_excl(kg: &Vec<u64>, grp: &Vec<usize>, c: usize, excl: usize) -> (r: u64)
    requires
        kg@.len() == grp@.len(),
        kg@.len() <= 0x3fff_ffff,
        forall|j: int| 0 <= j < kg@.len() ==> (#[trigger] kg@[j]) <= 0x8000_0000,
    ensures
        r <= kg@.len() * 0x8000_0000,
{
    let n = kg.len();
    let mut sum: u64 = 0;
    let mut j: usize = 0;
    while j < n
        invariant
            n == kg@.len(),
            kg@.len() == grp@.len(),
            kg@.len() <= 0x3fff_ffff,
            forall|k: int| 0 <= k < kg@.len() ==> (#[trigger] kg@[k]) <= 0x8000_0000,
            j <= n,
            sum <= j * 0x8000_0000,
        decreases n - j,
    {
        if grp[j] == c && j != excl {
            sum = sum + kg[j];
        }
        j += 1;
    }
    sum
}

/// Greedy modularity community detection in the Louvain style: nodes start as
/// singleton groups; each group repeatedly moves to the neighboring community
/// with the best exact modularity gain (compared over integers, scaled by
/// `(2m)^2`, so no floating point enters the decision); when a sweep moves no
/// group, the communities are aggregated into super-node groups and the local
/// moves repeat one level up, until a whole level improves nothing or the
/// level budget runs out. Returns one community id per node, index-aligned;
/// ids are meaningful only up to "same id means same community", and an
/// isolated node always ends in a singleton community of its own.
pub fn louvain(graph: &Graph) -> (r: Vec<usize>)
    requires
        graph.wf(),
        graph.nodes_seq().len() <= 0x3fff_ffff,
        graph.edges_seq().len() <= 0x3fff_ffff,
    ensures
        r@.len() == graph.nodes_seq().len(),
        forall|i: int| 0 <= i < r@.len() ==> (#[trigger] r@[i]) < graph.nodes_seq().len(),
        forall|ii: int, j: int| #![trigger spec_isolated(*graph, ii), r@[j]]
            0 <= ii < r@.len() && spec_isolated(*graph, ii) && 0 <= j < r@.len() && j != ii
                ==> r@[j] != r@[ii],
        forall|i2: int, j2: int| #![trigger r@[i2], r@[j2]]
            0 <= i2 < r@.len() && 0 <= j2 < r@.len() && i2 != j2 && !spec_reachable(
                *graph,
                i2,
                j2,
            ) ==> r@[i2] != r@[j2],
{
    let n = graph.node_count();
    if n == 0 {
        return Vec::new();
    }
    let m = graph.edge_count();
    let two_m: u64 = 2 * (m as u64);
    // resolve the edge endpoints to node indices once; edges naming unknown
    // ids play no part in the optimization
    let mut esrc: Vec<usize> = Vec::new();
    let mut etgt: Vec<usize> = Vec::new();
    let mut k: usize = 0;
    while k < m
        invariant
            graph.wf(),
            n == graph.nodes_seq().len(),
            m == graph.edges_seq().len(),
            k <= m,
            esrc@.len() == etgt@.len(),
            esrc@.len() <= k,
            forall|e: int|
                0 <= e < esrc@.len() ==> resolved_edge(
                    *graph,
                    (#[trigger] esrc@[e]) as int,
                    etgt@[e] as int,
                ),
        decreases m - k,
    {
        let edge = graph.edges()[k];
        let us = graph.node_index(edge.source);
        let vs = graph.node_index(edge.target);
        match (us, vs) {
            (Some(u), Some(v)) => {
                proof {
                    assert(graph.nodes_seq()[u as int].id == graph.edges_seq()[k as int].source);
                    assert(graph.nodes_seq()[v as int].id == graph.edges_seq()[k as int].target);
                }
                esrc.push(u);
                etgt.push(v);
            },
            _ => {},
        }
        k += 1;
    }
    let ecount = esrc.len();
    // lab: node -> group of the current level; grp: group -> community
    let mut lab: Vec<usize> = Vec::new();
    let mut i: usize = 0;
    while i < n
        invariant
            i <= n,
            lab@.len() == i,
            forall|j: int| 0 <= j < i ==> (#[trigger] lab@[j]) == j,
        decreases n - i,
    {
        lab.push(i);
        i += 1;
    }
    let mut grp: Vec<usize> = Vec::new();
    let mut i: usize = 0;
    while i < n
        invariant
            i <= n,
            grp@.len() == i,
            forall|j: int| 0 <= j < i ==> (#[trigger] grp@[j]) == j,
        decreases n - i,
    {
        grp.push(i);
        i += 1;
    }
    proof {
        assert forall|u2: int, w2: int| #![trigger lab@[u2], lab@[w2]]
            0 <= u2 < lab@.len() && 0 <= w2 < lab@.len() && 0 <= lab@[u2] < grp@.len() && 0
                <= lab@[w2] < grp@.len() && grp@[lab@[u2] as int] == grp@[lab@[w2] as int] && u2
                != w2 implies spec_reachable(*graph, u2, w2) by {
            assert(lab@[u2] == u2 && lab@[w2] == w2);
            assert(grp@[u2] == u2 && grp@[w2] == w2);
        }
        assert(labels_within_components(*graph, lab@, grp@));
    }
    let mut lvl: usize = 0;
    let mut level_moved = true;
    while level_moved && lvl < n
        invariant
            graph.wf(),
            n == graph.nodes_seq().len(),
            n >= 1,
            n <= 0x3fff_ffff,
            m == graph.edges_seq().len(),
            m <= 0x3fff_ffff,
            two_m == 2 * m,
            ecount == esrc@.len(),
            esrc@.len() == etgt@.len(),
            ecount <= m,
            forall|e: int|
                0 <= e < ecount ==> resolved_edge(
                    *graph,
                    (#[trigger] esrc@[e]) as int,
                    etgt@[e] as int,
                ),
            lab@.len() == n,
            forall|j: int| 0 <= j < n ==> (#[trigger] lab@[j]) < n,
            grp@.len() == n,
            forall|j: int| 0 <= j < n ==> (#[trigger] grp@[j]) == j,
            iso_singletons(*graph, lab@),
            labels_within_components(*graph, lab@, grp@),
            lvl <= n,
        decreases n - lvl,
    {
        level_moved = false;
        lvl += 1;
        // weighted degree of each group at this level: every edge end counts
        let mut kg: Vec<u64> = vec![0u64; n];
        let mut e: usize = 0;
        while e < ecount
            invariant
                ecount == esrc@.len(),
                esrc@.len() == etgt@.len(),
                ecount <= m,
                m <= 0x3fff_ffff,
                n == graph.nodes_seq().len(),
                forall|e2: int|
                    0 <= e2 < ecount ==> resolved_edge(
                        *graph,
                        (#[trigger] esrc@[e2]) as int,
                        etgt@[e2] as int,
                    ),
                lab@.len() == n,
                forall|j: int| 0 <= j < n ==> (#[trigger] lab@[j]) < n,
                kg@.len() == n,
                e <= ecount,
                forall|c: int| 0 <= c < n ==> (#[trigger] kg@[c]) <= 2 * e,
            decreases ecount - e,
        {
            let a = lab[esrc[e]];
            let b = lab[etgt[e]];
            kg[a] = kg[a] + 1;
            kg[b] = kg[b] + 1;
            e += 1;
        }
        let mut pass: usize = 0;
        let mut moved = true;
        while moved && pass < n
            invariant
                graph.wf(),
                n == graph.nodes_seq().len(),
                n >= 1,
                n <= 0x3fff_ffff,
                m == graph.edges_seq().len(),
                m <= 0x3fff_ffff,
                two_m == 2 * m,
                ecount == esrc@.len(),
                esrc@.len() == etgt@.len(),
                ecount <= m,
                forall|e2: int|
                    0 <= e2 < ecount ==> resolved_edge(
                        *graph,
                        (#[trigger] esrc@[e2]) as int,
                        etgt@[e2] as int,
                    ),
                lab@.len() == n,
                forall|j: int| 0 <= j < n ==> (#[trigger] lab@[j]) < n,
                grp@.len() == n,
                forall|j: int| 0 <= j < n ==> (#[trigger] grp@[j]) < n,
                kg@.len() == n,
                forall|c: int| 0 <= c < n ==> (#[trigger] kg@[c]) <= 0x8000_0000,
                iso_singletons(*graph, lab@),
                iso_singletons(*graph, grp@),
                labels_within_components(*graph, lab@, grp@),
                pass <= n,
            decreases n - pass,
        {
            moved = false;
            pass += 1;
            let mut s: usize = 0;
            while s < n
                invariant
                    graph.wf(),
                    n == graph.nodes_seq().len(),
                    n >= 1,
                    n <= 0x3fff_ffff,
                    m == graph.edges_seq().len(),
                    m <= 0x3fff_ffff,
                    two_m == 2 * m,
                    ecount == esrc@.len(),
                    esrc@.len() == etgt@.len(),
                    ecount <= m,
                    forall|e2: int|
                        0 <= e2 < ecount ==> resolved_edge(
                            *graph,
                            (#[trigger] esrc@[e2]) as int,
                            etgt@[e2] as int,
                        ),
                    lab@.len() == n,
                    forall|j: int| 0 <= j < n ==> (#[trigger] lab@[j]) < n,
                    grp@.len() == n,
                    forall|j: int| 0 <= j < n ==> (#[trigger] grp@[j]) < n,
                    kg@.len() == n,
                    forall|c: int| 0 <= c < n ==> (#[trigger] kg@[c]) <= 0x8000_0000,
                    iso_singletons(*graph, lab@),
                    iso_singletons(*graph, grp@),
                    labels_within_components(*graph, lab@, grp@),
                    s <= n,
                decreases n - s,
            {
                // weight from group s to each neighboring community
                let mut links: Vec<u64> = vec![0u64; n];
                let mut e: usize = 0;
                while e < ecount
                    invariant
                        graph.wf(),
                        n == graph.nodes_seq().len(),
                        ecount == esrc@.len(),
                        esrc@.len() == etgt@.len(),
                        ecount <= m,
                        m <= 0x3fff_ffff,
                        forall|e2: int|
                            0 <= e2 < ecount ==> resolved_edge(
                                *graph,
                                (#[trigger] esrc@[e2]) as int,
                                etgt@[e2] as int,
                            ),
                        lab@.len() == n,
                        forall|j: int| 0 <= j < n ==> (#[trigger] lab@[j]) < n,
                        grp@.len() == n,
                        forall|j: int| 0 <= j < n ==> (#[trigger] grp@[j]) < n,
                        iso_singletons(*graph, lab@),
                        iso_singletons(*graph, grp@),
                        links@.len() == n,
                        e <= ecount,
                        forall|c: int| 0 <= c < n ==> (#[trigger] links@[c]) <= 2 * e,
                        forall|ii: int|
                            0 <= ii < n && #[trigger] spec_isolated(*graph, ii) ==> links@[ii]
                                == 0,
                        spec_isolated(*graph, s as int) ==> forall|c2: int|
                            0 <= c2 < n ==> (#[trigger] links@[c2]) == 0,
                        forall|c2: int|
                            0 <= c2 < n && (#[trigger] links@[c2]) > 0 ==> exists|e2: int|
                                0 <= e2 < ecount && {
                                    let a2 = lab@[(#[trigger] esrc@[e2]) as int] as int;
                                    let b2 = lab@[etgt@[e2] as int] as int;
                                    ||| (a2 == s && b2 != s && grp@[b2] == c2)
                                    ||| (b2 == s && a2 != s && grp@[a2] == c2)
                                },
                    decreases ecount - e,
                {
                    let u = esrc[e];
                    let v = etgt[e];
                    let a = lab[u];
                    let b = lab[v];
                    proof {
                        lemma_endpoint_not_isolated(*graph, u as int, v as int);
                        assert(grp@[lab@[u as int] as int] < n);
                        assert(grp@[lab@[v as int] as int] < n);
                    }
                    if a == s && b != s {
                        let c = grp[b];
                        proof {
                            if spec_isolated(*graph, c as int) {
                                assert(b as int == c as int);
                                assert(v as int == c as int);
                                assert(false);
                            }
                            if spec_isolated(*graph, s as int) {
                                assert(lab@[u as int] == s);
                                assert(u as int == s as int);
                                assert(false);
                            }
                        }
                        links[c] = links[c] + 1;
                        proof {
                            assert(0 <= e < ecount && {
                                let a2 = lab@[esrc@[e as int] as int] as int;
                                let b2 = lab@[etgt@[e as int] as int] as int;
                                ||| (a2 == s && b2 != s && grp@[b2] == c)
                                ||| (b2 == s && a2 != s && grp@[a2] == c)
                            });
                        }
                    }
                    if b == s && a != s {
                        let c = grp[a];
                        proof {
                            if spec_isolated(*graph, c as int) {
                                assert(a as int == c as int);
                                assert(u as int == c as int);
                                assert(false);
                            }
                            if spec_isolated(*graph, s as int) {
                                assert(lab@[v as int] == s);
                                assert(v as int == s as int);
                                assert(false);
                            }
                        }
                        links[c] = links[c] + 1;
                        proof {
                            assert(0 <= e < ecount && {
                                let a2 = lab@[esrc@[e as int] as int] as int;
                                let b2 = lab@[etgt@[e as int] as int] as int;
                                ||| (a2 == s && b2 != s && grp@[b2] == c)
                                ||| (b2 == s && a2 != s && grp@[a2] == c)
                            });
                        }
                    }
                    e += 1;
                }
                let cs = grp[s];
                let ks = kg[s];
                let tot_cs = tot_excl(&kg, &grp, cs, s);
                proof {
                    lemma_mul_le(
                        2 * two_m as int,
                        links@[cs as int] as int,
                        0x1_0000_0000,
                        0x8000_0000,
                    );
                    lemma_mul_le(
                        ks as int,
                        tot_cs as int,
                        0x8000_0000,
                        (0x3fff_ffff as int) * 0x8000_0000,
                    );
                }
                let mut best_score: i128 = 2 * (two_m as i128) * (links[cs] as i128) - (ks
                    as i128) * (tot_cs as i128);
                let mut best_c: usize = cs;
                let mut c: usize = 0;
                while c < n
                    invariant
                        graph.wf(),
                        n == graph.nodes_seq().len(),
                        n <= 0x3fff_ffff,
                        two_m <= 0x8000_0000,
                        kg@.len() == n,
                        forall|j: int| 0 <= j < n ==> (#[trigger] kg@[j]) <= 0x8000_0000,
                        grp@.len() == n,
                        forall|j: int| 0 <= j < n ==> (#[trigger] grp@[j]) < n,
                        links@.len() == n,
                        forall|j: int| 0 <= j < n ==> (#[trigger] links@[j]) <= 0x8000_0000,
                        forall|ii: int|
                            0 <= ii < n && #[trigger] spec_isolated(*graph, ii) ==> links@[ii]
                                == 0,
                        iso_singletons(*graph, grp@),
                        ks <= 0x8000_0000,
                        s < n,
                        cs == grp@[s as int],
                        c <= n,
                        best_c < n,
                        best_c == cs || links@[best_c as int] > 0,
                    decreases n - c,
                {
                    if c != cs && links[c] > 0 {
                        let tot_c = tot_excl(&kg, &grp, c, s);
                        proof {
                            lemma_mul_le(
                                2 * two_m as int,
                                links@[c as int] as int,
                                0x1_0000_0000,
                                0x8000_0000,
                            );
                            lemma_mul_le(
                                ks as int,
                                tot_c as int,
                                0x8000_0000,
                                (0x3fff_ffff as int) * 0x8000_0000,
                            );
                        }
                        let sc: i128 = 2 * (two_m as i128) * (links[c] as i128) - (ks as i128)
                            * (tot_c as i128);
                        if sc > best_score {
                            best_score = sc;
                            best_c = c;
                        }
                    }
                    c += 1;
                }
                if best_c != cs {
                    proof {
                        assert(links@[best_c as int] > 0);
                        assert forall|ii: int|
                            0 <= ii < n && #[trigger] spec_isolated(*graph, ii) implies best_c
                            as int != ii by {
                            if best_c as int == ii {
                                assert(links@[ii] == 0);
                            }
                        }
                        if spec_isolated(*graph, s as int) {
                            // an isolated group has no outgoing weight, so no
                            // candidate beats staying put
                            assert(links@[best_c as int] == 0);
                            assert(false);
                        }
                    }
                    let ghost grp0 = grp@;
                    grp[s] = best_c;
                    proof {
                        assert forall|ii: int|
                            0 <= ii < n && #[trigger] spec_isolated(*graph, ii) implies grp@[ii]
                            == ii && (forall|j: int|
                            0 <= j < n && j != ii ==> #[trigger] grp@[j] != ii) by {
                            assert(ii != s);
                        }
                        assert forall|u2: int, w2: int| #![trigger lab@[u2], lab@[w2]]
                            0 <= u2 < lab@.len() && 0 <= w2 < lab@.len() && 0 <= lab@[u2]
                                < grp@.len() && 0 <= lab@[w2] < grp@.len() && grp@[lab@[u2] as int]
                                == grp@[lab@[w2] as int] && u2 != w2 implies spec_reachable(
                            *graph,
                            u2,
                            w2,
                        ) by {
                            let lu = lab@[u2] as int;
                            let lw = lab@[w2] as int;
                            if lu != s && lw != s {
                                assert(grp0[lu] == grp0[lw]);
                            } else if lu == s && lw == s {
                                assert(grp0[lu] == grp0[lw]);
                            } else {
                                assert(links@[best_c as int] > 0);
                                let e2 = choose|e2: int|
                                    0 <= e2 < ecount && {
                                        let a2 = lab@[(#[trigger] esrc@[e2]) as int] as int;
                                        let b2 = lab@[etgt@[e2] as int] as int;
                                        ||| (a2 == s && b2 != s && grp0[b2] == best_c)
                                        ||| (b2 == s && a2 != s && grp0[a2] == best_c)
                                    };
                                let a2 = lab@[esrc@[e2] as int] as int;
                                let b2 = lab@[etgt@[e2] as int] as int;
                                let pe: usize = if a2 == s && b2 != s {
                                    esrc@[e2]
                                } else {
                                    etgt@[e2]
                                };
                                let qe: usize = if a2 == s && b2 != s {
                                    etgt@[e2]
                                } else {
                                    esrc@[e2]
                                };
                                assert(resolved_edge(*graph, esrc@[e2] as int, etgt@[e2] as int));
                                lemma_resolved_adj(*graph, esrc@[e2] as int, etgt@[e2] as int);
                                lemma_adj_reachable(*graph, pe, qe);
                                lemma_adj_reachable(*graph, qe, pe);
                                assert(lab@[pe as int] == s && lab@[qe as int] != s);
                                assert(grp0[lab@[qe as int] as int] == best_c);
                                if lu == s {
                                    assert(grp0[lw] == best_c);
                                    if u2 != pe as int {
                                        assert(grp0[lab@[u2] as int] == grp0[lab@[pe as int] as int]);
                                        assert(spec_reachable(*graph, u2, pe as int));
                                    } else {
                                        lemma_reachable_refl(*graph, pe);
                                    }
                                    if qe as int != w2 {
                                        assert(grp0[lab@[qe as int] as int] == grp0[lab@[w2] as int]);
                                        assert(spec_reachable(*graph, qe as int, w2));
                                    } else {
                                        lemma_reachable_refl(*graph, qe);
                                    }
                                    lemma_reachable_trans(*graph, u2, pe as int, qe as int);
                                    lemma_reachable_trans(*graph, u2, qe as int, w2);
                                } else {
                                    assert(lw == s);
                                    assert(grp0[lu] == best_c);
                                    if u2 != qe as int {
                                        assert(grp0[lab@[u2] as int] == grp0[lab@[qe as int] as int]);
                                        assert(spec_reachable(*graph, u2, qe as int));
                                    } else {
                                        lemma_reachable_refl(*graph, qe);
                                    }
                                    if pe as int != w2 {
                                        assert(grp0[lab@[pe as int] as int] == grp0[lab@[w2] as int]);
                                        assert(spec_reachable(*graph, pe as int, w2));
                                    } else {
                                        lemma_reachable_refl(*graph, pe);
                                    }
                                    lemma_reachable_trans(*graph, u2, qe as int, pe as int);
                                    lemma_reachable_trans(*graph, u2, pe as int, w2);
                                }
                            }
                        }
                        assert(labels_within_components(*graph, lab@, grp@));
                    }
                    moved = true;
                    level_moved = true;
                }
                s += 1;
            }
        }
        // aggregate: fold the level's communities into the node labels and
        // start the next level from singleton groups again
        let ghost lab0 = lab@;
        proof {
            assert(labels_within_components(*graph, lab0, grp@));
        }
        let mut u: usize = 0;
        while u < n
            invariant
                graph.wf(),
                n == graph.nodes_seq().len(),
                lab@.len() == n,
                lab0.len() == n,
                grp@.len() == n,
                forall|j: int| 0 <= j < n ==> (#[trigger] grp@[j]) < n,
                u <= n,
                forall|j: int| 0 <= j < u ==> (#[trigger] lab@[j]) < n,
                forall|j: int| 0 <= j < u ==> (#[trigger] lab@[j]) == grp@[lab0[j] as int],
                forall|j: int| u <= j < n ==> (#[trigger] lab@[j]) == lab0[j],
                forall|j: int| 0 <= j < n ==> (#[trigger] lab0[j]) < n,
                labels_within_components(*graph, lab0, grp@),
                iso_singletons(*graph, grp@),
                iso_singletons(*graph, lab0),
                forall|ii: int|
                    0 <= ii < n && #[trigger] spec_isolated(*graph, ii) ==> lab@[ii] == ii,
                forall|ii: int, j: int| #![trigger spec_isolated(*graph, ii), lab@[j]]
                    0 <= ii < n && spec_isolated(*graph, ii) && 0 <= j < n && j != ii ==> lab@[j]
                        != ii,
            decreases n - u,
        {
            let g0 = lab[u];
            let g1 = grp[g0];
            proof {
                if spec_isolated(*graph, u as int) {
                    assert(lab@[u as int] == u);
                    assert(grp@[u as int] == u);
                }
                assert forall|ii: int|
                    0 <= ii < n && #[trigger] spec_isolated(*graph, ii) && u as int != ii implies
                    g1 as int != ii by {
                    if g1 as int == ii {
                        assert(g0 as int == ii);
                        assert(u as int == ii);
                    }
                }
            }
            lab[u] = g1;
            u += 1;
        }
        let ghost grp1 = grp@;
        let mut g2: usize = 0;
        while g2 < n
            invariant
                n == grp@.len(),
                grp1.len() == n,
                g2 <= n,
                forall|j: int| 0 <= j < g2 ==> (#[trigger] grp@[j]) == j,
                forall|j: int| g2 <= j < n ==> (#[trigger] grp@[j]) == grp1[j],
                forall|j: int| 0 <= j < n ==> (#[trigger] grp1[j]) < n,
            decreases n - g2,
        {
            grp[g2] = g2;
            g2 += 1;
        }
        proof {
            assert forall|u3: int, w3: int| #![trigger lab@[u3], lab@[w3]]
                0 <= u3 < lab@.len() && 0 <= w3 < lab@.len() && 0 <= lab@[u3] < grp@.len() && 0
                    <= lab@[w3] < grp@.len() && grp@[lab@[u3] as int] == grp@[lab@[w3] as int]
                    && u3 != w3 implies spec_reachable(*graph, u3, w3) by {
                assert(grp@[lab@[u3] as int] == lab@[u3]);
                assert(grp@[lab@[w3] as int] == lab@[w3]);
                assert(lab@[u3] == grp1[lab0[u3] as int]);
                assert(lab@[w3] == grp1[lab0[w3] as int]);
                assert(lab0[u3] < n && lab0[w3] < n);
                assert(grp1[lab0[u3] as int] == grp1[lab0[w3] as int]);
            }
            assert(labels_within_components(*graph, lab@, grp@));
        }
    }
    proof {
        assert forall|i2: int, j2: int| #![trigger lab@[i2], lab@[j2]]
            0 <= i2 < lab@.len() && 0 <= j2 < lab@.len() && i2 != j2 && !spec_reachable(
                *graph,
                i2,
                j2,
            ) implies lab@[i2] != lab@[j2] by {
            if lab@[i2] == lab@[j2] {
                assert(grp@[lab@[i2] as int] == grp@[lab@[j2] as int]);
            }
        }
    }
    lab
}

} // verus!
