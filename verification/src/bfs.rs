//! Breadth-first search for a shortest path between two nodes.
//!
//! `shortest_path` returns a path with the minimum possible number of edges
//! among all paths connecting the two nodes, or `None` exactly when no path
//! exists.

use crate::graph::Graph;
use vstd::prelude::*;

verus! {

broadcast use vstd::seq_lib::lemma_seq_contains_after_push;

/// The identifiers of a sequence of nodes.
pub open spec fn path_view(p: Seq<String>) -> Seq<Seq<char>> {
    p.map_values(|s: String| s@)
}

/// A walk in `g` from `a` to `b`, given as the node identifiers visited in
/// order: consecutive entries are adjacent in `g`.  The single-node walk
/// `[a]` connects `a` to itself whether or not `a` is in the graph.
pub open spec fn is_path(g: &Graph, p: Seq<Seq<char>>, a: Seq<char>, b: Seq<char>) -> bool {
    &&& p.len() >= 1
    &&& p[0] == a
    &&& p[p.len() - 1] == b
    &&& (forall|k: int| 0 <= k < p.len() - 1 ==> g.edge(#[trigger] p[k], p[k + 1]))
}

/// A walk over interned node indices.
spec fn is_ipath(g: &Graph, p: Seq<int>) -> bool {
    &&& p.len() >= 1
    &&& (forall|k: int| 0 <= k < p.len() ==> 0 <= #[trigger] p[k] < g.n())
    &&& (forall|k: int| 0 <= k < p.len() - 1 ==> g.iedge(#[trigger] p[k], p[k + 1]))
}

/// The index walk underlying a name walk.
spec fn ipath_of(g: &Graph, p: Seq<Seq<char>>) -> Seq<int> {
    Seq::new(p.len(), |k: int| g.idx_of(p[k]))
}

/// A name walk of at least one edge passes only through present nodes, and
/// its interned image is an index walk with the same length and endpoints.
proof fn lemma_path_to_ipath(g: &Graph, p: Seq<Seq<char>>, a: Seq<char>, b: Seq<char>)
    requires
        g.wf(),
        is_path(g, p, a, b),
        p.len() >= 2,
    ensures
        is_ipath(g, ipath_of(g, p)),
        ipath_of(g, p).len() == p.len(),
        g.contains_node(a),
        g.contains_node(b),
        ipath_of(g, p)[0] == g.idx_of(a),
        ipath_of(g, p)[p.len() - 1] == g.idx_of(b),
{
    let ip = ipath_of(g, p);
    assert forall|k: int| 0 <= k < p.len() implies g.contains_node(p[k]) by {
        if k < p.len() - 1 {
            assert(g.edge(p[k], p[k + 1]));
        } else {
            assert(g.edge(p[k - 1], p[k]));
        }
    }
    assert forall|k: int| 0 <= k < ip.len() implies 0 <= #[trigger] ip[k] < g.n() by {
        assert(g.contains_node(p[k]));
    }
    assert forall|k: int| 0 <= k < ip.len() - 1 implies g.iedge(#[trigger] ip[k], ip[k + 1]) by {
        assert(g.edge(p[k], p[k + 1]));
    }
}

/// The loop state of the breadth-first search: `q` is the discovery queue,
/// `head` the number of fully processed entries, `disc` the discovery flags,
/// `dist` the discovery depths and `s` the start index.
spec fn bfs_inv(
    g: &Graph,
    q: Seq<usize>,
    head: int,
    disc: Seq<bool>,
    dist: Seq<usize>,
    s: int,
) -> bool {
    &&& g.n() <= usize::MAX
    &&& disc.len() == g.n()
    &&& dist.len() == g.n()
    &&& 0 <= s < g.n()
    &&& disc[s]
    &&& dist[s] == 0
    &&& 0 <= head <= q.len()
    &&& q.no_duplicates()
    &&& (forall|k: int| 0 <= k < q.len() ==> (#[trigger] q[k]) < g.n())
    &&& (forall|v: int|
        0 <= v < g.n() ==> ((#[trigger] disc[v]) <==> q.contains(v as usize)))
    &&& (forall|k1: int, k2: int|
        #![trigger q[k1], q[k2]]
        0 <= k1 <= k2 < q.len() ==> dist[q[k1] as int] <= dist[q[k2] as int])
    &&& (head < q.len() ==> (forall|k: int|
        head <= k < q.len() ==> dist[#[trigger] q[k] as int] <= dist[q[head] as int] + 1))
    &&& (forall|v: int| 0 <= v < g.n() && (#[trigger] disc[v]) ==> dist[v] < q.len())
    &&& (forall|k: int, w: int|
        0 <= k < head && #[trigger] g.iedge(q[k] as int, w) ==> disc[w] && dist[w] <= dist[q[k] as int]
            + 1)
    &&& (forall|p: Seq<int>|
        #[trigger] is_ipath(g, p) && p[0] == s && disc[p[p.len() - 1]] ==> p.len() >= dist[p[p.len()
            - 1]] + 1)
}

/// The predecessor structure: every discovered node but the start was first
/// reached from its discovered parent, one level up.
spec fn parent_inv(
    g: &Graph,
    par: Seq<usize>,
    disc: Seq<bool>,
    dist: Seq<usize>,
    s: int,
) -> bool {
    &&& par.len() == g.n()
    &&& (forall|v: int|
        0 <= v < g.n() && (#[trigger] disc[v]) && v != s ==> 0 <= par[v] < g.n()
            && disc[par[v] as int] && g.iedge(par[v] as int, v) && dist[v] == dist[par[v] as int]
            + 1)
}

/// A duplicate-free queue of indices below `n` holds at most `n` of them.
proof fn lemma_queue_bound(q: Seq<usize>, n: int)
    requires
        q.no_duplicates(),
        forall|k: int| 0 <= k < q.len() ==> (#[trigger] q[k]) < n,
        0 <= n,
    ensures
        q.len() <= n,
{
    let iq = q.map_values(|x: usize| x as int);
    assert(iq.no_duplicates()) by {
        assert forall|m1: int, m2: int|
            0 <= m1 < iq.len() && 0 <= m2 < iq.len() && m1 != m2 implies iq[m1] != iq[m2] by {
            assert(q[m1] != q[m2]);
        }
    }
    iq.unique_seq_to_set();
    assert(iq.to_set().subset_of(vstd::set_lib::set_int_range(0, n))) by {
        assert forall|x: int| iq.to_set().contains(x) implies vstd::set_lib::set_int_range(
            0,
            n,
        ).contains(x) by {
            let m = choose|m: int| 0 <= m < iq.len() && iq[m] == x;
            assert(q[m] < n);
        }
    }
    vstd::set_lib::lemma_int_range(0, n);
    vstd::set_lib::lemma_len_subset(iq.to_set(), vstd::set_lib::set_int_range(0, n));
}

/// The frontier cut: while `q[head]` is being processed, any index walk from
/// the start to a still-undiscovered node is longer than every processed
/// level — it has at least `dist[q[head]] + 1` edges.
proof fn lemma_cut(
    g: &Graph,
    q: Seq<usize>,
    head: int,
    disc: Seq<bool>,
    dist: Seq<usize>,
    s: int,
    p: Seq<int>,
)
    requires
        g.wf(),
        bfs_inv(g, q, head, disc, dist, s),
        head < q.len(),
        is_ipath(g, p),
        p[0] == s,
        !disc[p[p.len() - 1]],
    ensures
        p.len() >= dist[q[head] as int] + 2,
    decreases p.len(),
{
    let du = dist[q[head] as int];
    let last = p[p.len() - 1];
    if p.len() == 1 {
        assert(last == s);
        assert(false);
    } else {
        let x = p[p.len() - 2];
        let p2 = p.drop_last();
        assert(is_ipath(g, p2)) by {
            assert(forall|k: int| 0 <= k < p2.len() ==> p2[k] == p[k]);
        }
        assert(p2[p2.len() - 1] == x);
        assert(g.iedge(x, last));
        if disc[x] {
            assert(q.contains(x as usize));
            let k = choose|k: int| 0 <= k < q.len() && q[k] == x as usize;
            assert(q[k] as int == x);
            if k < head {
                assert(g.iedge(q[k] as int, last));
                assert(disc[last]);
                assert(false);
            }
            assert(dist[q[head] as int] <= dist[q[k] as int]);
            assert(p2.len() >= dist[x] + 1);
        } else {
            lemma_cut(g, q, head, disc, dist, s, p2);
        }
    }
}

/// Once every discovered node is processed, the discovered set is closed
/// under adjacency, so every walk from the start ends discovered.
proof fn lemma_closed_all_discovered(g: &Graph, disc: Seq<bool>, s: int, p: Seq<int>)
    requires
        g.wf(),
        disc.len() == g.n(),
        0 <= s < g.n(),
        disc[s],
        forall|v: int, w: int|
            #![trigger disc[v], g.iedge(v, w)]
            0 <= v < g.n() && disc[v] && g.iedge(v, w) ==> disc[w],
        is_ipath(g, p),
        p[0] == s,
    ensures
        disc[p[p.len() - 1]],
    decreases p.len(),
{
    if p.len() > 1 {
        let p2 = p.drop_last();
        assert(is_ipath(g, p2)) by {
            assert(forall|k: int| 0 <= k < p2.len() ==> p2[k] == p[k]);
        }
        lemma_closed_all_discovered(g, disc, s, p2);
        assert(g.iedge(p[p.len() - 2], p[p.len() - 1]));
    }
}

/// Discovering a new node `w` from the queue front `u` preserves the
/// breadth-first invariants: `w` is appended one level below `u`, with `u`
/// as its parent.
proof fn lemma_discover_order(
    g: &Graph,
    q0: Seq<usize>,
    head: int,
    disc0: Seq<bool>,
    dist0: Seq<usize>,
    s: int,
    u: usize,
    w: usize,
)
    requires
        g.wf(),
        bfs_inv(g, q0, head, disc0, dist0, s),
        head < q0.len(),
        q0[head] == u,
        g.iedge(u as int, w as int),
        !disc0[w as int],
    ensures
        dist0[u as int] + 1 <= usize::MAX,
        q0.push(w).no_duplicates(),
        forall|v: int|
            0 <= v < g.n() ==> ((#[trigger] disc0.update(w as int, true)[v]) <==> q0.push(
                w,
            ).contains(v as usize)),
        forall|k1: int, k2: int|
            #![trigger q0.push(w)[k1], q0.push(w)[k2]]
            0 <= k1 <= k2 < q0.push(w).len() ==> dist0.update(
                w as int,
                (dist0[u as int] + 1) as usize,
            )[q0.push(w)[k1] as int] <= dist0.update(
                w as int,
                (dist0[u as int] + 1) as usize,
            )[q0.push(w)[k2] as int],
        forall|k: int|
            head <= k < q0.push(w).len() ==> dist0.update(
                w as int,
                (dist0[u as int] + 1) as usize,
            )[#[trigger] q0.push(w)[k] as int] <= dist0.update(
                w as int,
                (dist0[u as int] + 1) as usize,
            )[q0.push(w)[head] as int] + 1,
        forall|v: int|
            0 <= v < g.n() && (#[trigger] disc0.update(w as int, true)[v]) ==> dist0.update(
                w as int,
                (dist0[u as int] + 1) as usize,
            )[v] < q0.push(w).len(),
        forall|k: int, w2: int|
            0 <= k < head && #[trigger] g.iedge(q0.push(w)[k] as int, w2) ==> disc0.update(
                w as int,
                true,
            )[w2] && dist0.update(w as int, (dist0[u as int] + 1) as usize)[w2] <= dist0.update(
                w as int,
                (dist0[u as int] + 1) as usize,
            )[q0.push(w)[k] as int] + 1,
        q0.push(w).len() <= g.n(),
{
    assert(q0.contains(u));
    assert(disc0[u as int]);
    lemma_queue_bound(q0, g.n());
    let du = dist0[u as int] as int;
    assert(du < q0.len());
    assert(du + 1 <= usize::MAX);
    let w_int = w as int;
    let q1 = q0.push(w);
    let disc1 = disc0.update(w_int, true);
    let dist1 = dist0.update(w_int, (du + 1) as usize);
    assert(!q0.contains(w));
    assert(q1.no_duplicates());
    assert forall|v: int| 0 <= v < g.n() implies ((#[trigger] disc1[v]) <==> q1.contains(
        v as usize,
    )) by {
        if v == w_int {
            assert(q1[q1.len() - 1] == w);
            assert(q1.contains(w));
        } else {
            assert(v as usize != w);
            assert(disc1[v] == disc0[v]);
        }
    }
    assert forall|k1: int, k2: int|
        #![trigger q1[k1], q1[k2]]
        0 <= k1 <= k2 < q1.len() implies dist1[q1[k1] as int] <= dist1[q1[k2] as int] by {
        if k2 < q0.len() {
            assert(q0[k1] == q1[k1] && q0[k2] == q1[k2]);
        } else {
            assert(q1[k2] == w);
            if k1 < q0.len() {
                if k1 <= head {
                    assert(dist0[q0[k1] as int] <= dist0[q0[head] as int]);
                } else {
                    assert(dist0[q0[k1] as int] <= dist0[q0[head] as int] + 1);
                }
            }
        }
    }
    assert forall|v: int| 0 <= v < g.n() && (#[trigger] disc1[v]) implies dist1[v] < q1.len() by {
        if v != w_int {
            assert(disc0[v] && dist0[v] < q0.len());
        }
    }
    assert forall|k: int, w2: int|
        0 <= k < head && #[trigger] g.iedge(q1[k] as int, w2) implies disc1[w2] && dist1[w2]
            <= dist1[q1[k] as int] + 1 by {
        assert(q1[k] == q0[k]);
        assert(disc0[w2]);
        assert(w2 != w_int);
        assert(q0[k] as int != w_int);
    }
    lemma_queue_bound(q1, g.n());
}

/// Discovering a new node `w` from the queue front `u` preserves the
/// breadth-first invariants: `w` is appended one level below `u`, with `u`
/// as its parent.
proof fn lemma_discover(
    g: &Graph,
    q0: Seq<usize>,
    head: int,
    disc0: Seq<bool>,
    dist0: Seq<usize>,
    par0: Seq<usize>,
    s: int,
    u: usize,
    w: usize,
)
    requires
        g.wf(),
        bfs_inv(g, q0, head, disc0, dist0, s),
        parent_inv(g, par0, disc0, dist0, s),
        head < q0.len(),
        q0[head] == u,
        g.iedge(u as int, w as int),
        !disc0[w as int],
        forall|p: Seq<int>|
            #[trigger] is_ipath(g, p) && p[0] == s && p[p.len() - 1] == w as int ==> p.len()
                >= dist0[u as int] + 2,
    ensures
        dist0[u as int] + 1 <= usize::MAX,
        bfs_inv(
            g,
            q0.push(w),
            head,
            disc0.update(w as int, true),
            dist0.update(w as int, (dist0[u as int] + 1) as usize),
            s,
        ),
        parent_inv(
            g,
            par0.update(w as int, u),
            disc0.update(w as int, true),
            dist0.update(w as int, (dist0[u as int] + 1) as usize),
            s,
        ),
        q0.push(w).len() <= g.n(),
{
    lemma_discover_order(g, q0, head, disc0, dist0, s, u, w);
    assert(q0.contains(u));
    assert(disc0[u as int]);
    let du = dist0[u as int] as int;
    let w_int = w as int;
    let q1 = q0.push(w);
    let disc1 = disc0.update(w_int, true);
    let dist1 = dist0.update(w_int, (du + 1) as usize);
    let par1 = par0.update(w_int, u);
    assert forall|p: Seq<int>|
        #[trigger] is_ipath(g, p) && p[0] == s && disc1[p[p.len() - 1]] implies p.len() >= dist1[p[p.len()
        - 1]] + 1 by {
        let last = p[p.len() - 1];
        if last == w_int {
            assert(p.len() >= du + 2);
        } else {
            assert(disc0[last]);
            assert(p.len() >= dist0[last] + 1);
        }
    }
    assert(bfs_inv(g, q1, head, disc1, dist1, s));
    assert forall|v: int|
        0 <= v < g.n() && (#[trigger] disc1[v]) && v != s implies 0 <= par1[v] < g.n()
            && disc1[par1[v] as int] && g.iedge(par1[v] as int, v) && dist1[v] == dist1[par1[
        v] as int] + 1 by {
        if v == w_int {
            assert(par1[v] == u);
            assert(u as int != w_int);
        } else {
            assert(disc0[v]);
            assert(par1[v] == par0[v]);
            assert(par0[v] as int != w_int);
        }
    }
    assert(parent_inv(g, par1, disc1, dist1, s));
}

/// Turning the predecessor chain around yields a minimum-length path:
/// the emitted names walk the graph from start to goal, visit no node
/// twice, and no connecting walk is shorter.
#[verifier::rlimit(100)]
proof fn lemma_assemble_path(
    g: &Graph,
    rv: Seq<usize>,
    dist: Seq<usize>,
    s: int,
    gi: int,
    start: Seq<char>,
    goal: Seq<char>,
    p: Seq<String>,
)
    requires
        g.wf(),
        dist.len() == g.n(),
        0 <= s < g.n(),
        0 <= gi < g.n(),
        g.names_view()[s] == start,
        g.names_view()[gi] == goal,
        start != goal,
        rv.len() >= 1,
        rv[0] as int == gi,
        rv[rv.len() - 1] as int == s,
        forall|m: int| 0 <= m < rv.len() ==> ((#[trigger] rv[m]) as int) < g.n(),
        forall|m: int| 0 <= m < rv.len() ==> dist[(#[trigger] rv[m]) as int] == dist[gi] - m,
        forall|m: int|
            0 <= m < rv.len() - 1 ==> g.iedge((#[trigger] rv[m + 1]) as int, rv[m] as int),
        rv.len() == dist[gi] + 1,
        p.len() == rv.len(),
        forall|m: int|
            0 <= m < p.len() ==> (#[trigger] p[m])@ == g.names_view()[rv[p.len() - 1 - m] as int],
        forall|p2: Seq<int>|
            #[trigger] is_ipath(g, p2) && p2[0] == s && p2[p2.len() - 1] == gi ==> p2.len()
                >= dist[gi] + 1,
    ensures
        is_path(g, path_view(p), start, goal),
        path_view(p).no_duplicates(),
        forall|q2: Seq<Seq<char>>| is_path(g, q2, start, goal) ==> q2.len() >= p.len(),
{
    let big = dist[gi] + 1;
    let vs = path_view(p);
    let ip = Seq::new(rv.len(), |m: int| rv[rv.len() - 1 - m] as int);
    assert(vs.len() == rv.len() && ip.len() == rv.len());
    assert(ip[0] == s && ip[ip.len() - 1] == gi);
    assert forall|m: int| 0 <= m < vs.len() implies #[trigger] vs[m] == g.names_view()[ip[m]] by {
        assert(p[m]@ == g.names_view()[rv[p.len() - 1 - m] as int]);
    }
    assert forall|m: int| 0 <= m < ip.len() - 1 implies g.iedge(#[trigger] ip[m], ip[m + 1]) by {
        let mm = rv.len() - 2 - m;
        assert(g.iedge(rv[mm + 1] as int, rv[mm] as int));
        assert(g.iedge(rv[mm] as int, rv[mm + 1] as int));
    }
    assert(is_ipath(g, ip));
    // the emitted names form a path from start to goal
    assert(vs[0] == start && vs[vs.len() - 1] == goal);
    assert forall|m: int| 0 <= m < vs.len() - 1 implies g.edge(#[trigger] vs[m], vs[m + 1]) by {
        g.lemma_idx_of(ip[m]);
        g.lemma_idx_of(ip[m + 1]);
    }
    assert(is_path(g, vs, start, goal));
    // distinct depths make the path duplicate-free
    assert forall|m1: int, m2: int|
        0 <= m1 < vs.len() && 0 <= m2 < vs.len() && m1 != m2 implies vs[m1] != vs[m2] by {
        assert(dist[rv[rv.len() - 1 - m1] as int] != dist[rv[rv.len() - 1 - m2] as int]);
        assert(ip[m1] != ip[m2]);
        g.lemma_idx_of(ip[m1]);
        g.lemma_idx_of(ip[m2]);
    }
    // minimality: every connecting walk maps to an index walk caught by
    // the frontier cut
    assert forall|q2: Seq<Seq<char>>| is_path(g, q2, start, goal) implies q2.len() >= big by {
        if q2.len() == 1 {
            assert(q2[0] == start && q2[0] == goal);
        } else {
            lemma_path_to_ipath(g, q2, start, goal);
            let ip2 = ipath_of(g, q2);
            g.lemma_idx_of(s);
            g.lemma_idx_of(gi);
            assert(ip2[0] == s && ip2[ip2.len() - 1] == gi);
        }
    }
    assert(vs.len() == big);
}

/// Finds a shortest path between `start` and `goal` by breadth-first
/// search: `Some` of a minimum-edge-count path when one exists (for equal
/// endpoints the single-node path, present in the graph or not), `None`
/// exactly when no path exists.  Which shortest path is returned follows
/// the adjacency rows' insertion order, so it is deterministic for a given
/// construction history.
#[verifier::rlimit(100)]
pub fn shortest_path(graph: &Graph, start: &str, goal: &str) -> (r: Option<Vec<String>>)
    requires
        graph.wf(),
    ensures
        match r {
            Some(p) => {
                &&& is_path(graph, path_view(p@), start@, goal@)
                &&& path_view(p@).no_duplicates()
                &&& (forall|q2: Seq<Seq<char>>|
                    is_path(graph, q2, start@, goal@) ==> q2.len() >= p@.len())
            },
            None => forall|q2: Seq<Seq<char>>| !is_path(graph, q2, start@, goal@),
        },
        start@ == goal@ ==> r is Some,
{
    let start_key: String = start.to_owned();
    let goal_key: String = goal.to_owned();
    if start_key == goal_key {
        let mut p: Vec<String> = Vec::new();
        p.push(start.to_owned());
        proof {
            assert(path_view(p@) =~= seq![start@]);
        }
        return Some(p);
    }
    let si: usize;
    match graph.find_node(start) {
        None => {
            proof {
                assert forall|q2: Seq<Seq<char>>| !is_path(graph, q2, start@, goal@) by {
                    if is_path(graph, q2, start@, goal@) {
                        if q2.len() == 1 {
                            assert(q2[0] == start@ && q2[0] == goal@);
                        } else {
                            assert(graph.edge(q2[0], q2[1]));
                        }
                    }
                }
            }
            return None;
        },
        Some(x) => {
            si = x;
        },
    }
    let goal_in: bool;
    let gi: usize;
    match graph.find_node(goal) {
        Some(x) => {
            goal_in = true;
            gi = x;
        },
        None => {
            goal_in = false;
            gi = 0;
        },
    }
    let n: usize = graph.names.len();
    let mut disc: Vec<bool> = Vec::new();
    let mut dist: Vec<usize> = Vec::new();
    let mut par: Vec<usize> = Vec::new();
    let mut k0: usize = 0;
    while k0 < n
        invariant
            k0 <= n,
            disc@.len() == k0,
            dist@.len() == k0,
            par@.len() == k0,
            forall|m: int| 0 <= m < k0 ==> !(#[trigger] disc@[m]),
            forall|m: int| 0 <= m < k0 ==> (#[trigger] dist@[m]) == 0,
        decreases n - k0,
    {
        disc.push(false);
        dist.push(0);
        par.push(0);
        k0 += 1;
    }
    disc.set(si, true);
    let mut q: Vec<usize> = Vec::new();
    q.push(si);
    let mut head: usize = 0;
    proof {
        assert(q@ =~= Seq::<usize>::empty().push(si));
        assert forall|v: int| 0 <= v < graph.n() implies ((#[trigger] disc@[v]) <==> q@.contains(
            v as usize,
        )) by {
            if q@.contains(v as usize) {
                let m = choose|m: int| 0 <= m < q@.len() && q@[m] == v as usize;
                assert(m == 0);
            }
            if v == si as int {
                assert(q@[0] == si);
            }
        }
        assert(bfs_inv(graph, q@, head as int, disc@, dist@, si as int));
        assert(gi as int != si as int ==> !disc@[gi as int]);
    }
    while head < q.len()
        invariant
            graph.wf(),
            bfs_inv(graph, q@, head as int, disc@, dist@, si as int),
            parent_inv(graph, par@, disc@, dist@, si as int),
            q@.len() <= graph.n(),
            head <= q@.len(),
            start@ != goal@,
            (si as int) < graph.n(),
            graph.names_view()[si as int] == start@,
            goal_in ==> (gi as int) < graph.n() && graph.names_view()[gi as int] == goal@
                && !disc@[gi as int],
            !goal_in ==> !graph.contains_node(goal@),
        decreases graph.n() - head,
    {
        let u: usize = q[head];
        let du: usize = dist[u];
        let deg: usize = graph.adj[u].len();
        proof {
            assert(graph.rows()[u as int] == graph.adj@[u as int]@);
        }
        let mut t: usize = 0;
        while t < deg
            invariant
                graph.wf(),
                bfs_inv(graph, q@, head as int, disc@, dist@, si as int),
                parent_inv(graph, par@, disc@, dist@, si as int),
                q@.len() <= graph.n(),
                head < q@.len(),
                u == q@[head as int],
                du == dist@[u as int],
                (u as int) < graph.n(),
                deg == graph.rows()[u as int].len(),
                t <= deg,
                start@ != goal@,
                (si as int) < graph.n(),
                graph.names_view()[si as int] == start@,
                goal_in ==> (gi as int) < graph.n() && graph.names_view()[gi as int] == goal@
                    && !disc@[gi as int],
                !goal_in ==> !graph.contains_node(goal@),
                forall|t2: int|
                    0 <= t2 < t ==> disc@[(#[trigger] graph.rows()[u as int][t2]) as int]
                        && dist@[graph.rows()[u as int][t2] as int] <= du + 1,
            decreases deg - t,
        {
            let w: usize = graph.adj[u][t];
            proof {
                assert(graph.rows()[u as int][t as int] == w);
                assert((w as int) < graph.n());
                assert(graph.rows()[u as int].contains(w));
                assert(graph.iedge(u as int, w as int));
            }
            if !disc[w] {
                proof {
                    assert(q@[head as int] == u);
                    assert(q@.contains(u));
                    assert(disc@[u as int]);
                    assert(du < q@.len());
                    // the frontier cut: any walk from the start to the
                    // still-undiscovered w has at least du + 1 edges
                    assert forall|p: Seq<int>|
                        is_ipath(graph, p) && p[0] == si as int && p[p.len() - 1]
                            == w as int implies p.len() >= du + 2 by {
                        lemma_cut(graph, q@, head as int, disc@, dist@, si as int, p);
                    }
                }
                proof {
                    lemma_discover(graph, q@, head as int, disc@, dist@, par@, si as int, u, w);
                }
                let ghost disc0 = disc@;
                let ghost dist0 = dist@;
                let ghost par0 = par@;
                let ghost q0 = q@;
                disc.set(w, true);
                dist.set(w, du + 1);
                par.set(w, u);
                q.push(w);
                proof {
                    assert(disc@ == disc0.update(w as int, true));
                    assert(dist@ == dist0.update(w as int, (du + 1) as usize));
                    assert(par@ == par0.update(w as int, u));
                    assert(q@ == q0.push(w));
                }
                if goal_in && w == gi {
                    // walk the predecessor chain back to the start
                    let mut rev: Vec<usize> = Vec::new();
                    rev.push(w);
                    let mut cur: usize = w;
                    while cur != si
                        invariant
                            graph.wf(),
                            parent_inv(graph, par@, disc@, dist@, si as int),
                            disc@.len() == graph.n(),
                            dist@.len() == graph.n(),
                            par@.len() == graph.n(),
                            (si as int) < graph.n(),
                            disc@[si as int],
                            dist@[si as int] == 0,
                            (cur as int) < graph.n(),
                            disc@[cur as int],
                            (gi as int) < graph.n(),
                            rev@.len() >= 1,
                            rev@[0] == gi,
                            rev@[rev@.len() - 1] == cur,
                            forall|m: int|
                                0 <= m < rev@.len() ==> ((#[trigger] rev@[m]) as int) < graph.n()
                                    && disc@[rev@[m] as int],
                            forall|m: int|
                                0 <= m < rev@.len() ==> dist@[(#[trigger] rev@[m]) as int] == dist@[gi as int]
                                    - m,
                            forall|m: int|
                                0 <= m < rev@.len() - 1 ==> graph.iedge(
                                    (#[trigger] rev@[m + 1]) as int,
                                    rev@[m] as int,
                                ),
                        decreases dist@[cur as int],
                    {
                        let pv: usize = par[cur];
                        proof {
                            assert(disc@[cur as int] && cur as int != si as int);
                            assert(dist@[cur as int] == dist@[pv as int] + 1);
                        }
                        rev.push(pv);
                        cur = pv;
                    }
                    // emit the node names from start to goal
                    let m_total: usize = rev.len();
                    proof {
                        assert(dist@[rev@[m_total - 1] as int] == dist@[gi as int] - (m_total
                            - 1));
                        assert(m_total == dist@[gi as int] + 1);
                    }
                    let mut path: Vec<String> = Vec::new();
                    let mut k2: usize = m_total;
                    while k2 > 0
                        invariant
                            graph.wf(),
                            m_total == rev@.len(),
                            k2 <= m_total,
                            path@.len() == m_total - k2,
                            forall|m: int|
                                0 <= m < rev@.len() ==> ((#[trigger] rev@[m]) as int) < graph.n(),
                            forall|m: int|
                                0 <= m < path@.len() ==> (#[trigger] path@[m])@
                                    == graph.names_view()[rev@[m_total - 1 - m] as int],
                        decreases k2,
                    {
                        k2 -= 1;
                        path.push(graph.names[rev[k2]].clone());
                    }
                    proof {
                        assert(dist@[gi as int] == du + 1);
                        lemma_assemble_path(
                            graph,
                            rev@,
                            dist@,
                            si as int,
                            gi as int,
                            start@,
                            goal@,
                            path@,
                        );
                    }
                    return Some(path);
                }
            } else {
                proof {
                    // an already-discovered neighbor sits in the queue, at
                    // most one level past the node under processing
                    let k = choose|k: int| 0 <= k < q@.len() && q@[k] == w;
                    if k <= head as int {
                        assert(dist@[q@[k] as int] <= dist@[q@[head as int] as int]);
                    }
                }
            }
            t += 1;
        }
        head += 1;
        proof {
            // the processed prefix now includes u, whose whole row was taken
            assert forall|k: int, w2: int|
                0 <= k < head as int && #[trigger] graph.iedge(q@[k] as int, w2) implies disc@[w2]
                    && dist@[w2] <= dist@[q@[k] as int] + 1 by {
                if k == head as int - 1 {
                    assert(q@[k] == u);
                    let row = graph.rows()[u as int];
                    assert(row.contains(w2 as usize));
                    let t2 = choose|t2: int| 0 <= t2 < row.len() && row[t2] == w2 as usize;
                    assert(disc@[row[t2] as int] && dist@[row[t2] as int] <= du + 1);
                    assert(0 <= w2 < graph.n());
                }
            }
            if (head as int) < q@.len() {
                assert forall|k: int| head as int <= k < q@.len() implies dist@[#[trigger] q@[
                k] as int] <= dist@[q@[head as int] as int] + 1 by {
                    assert(dist@[q@[(head - 1) as int] as int] <= dist@[q@[head as int] as int]);
                    assert(dist@[q@[k] as int] <= dist@[q@[(head - 1) as int] as int] + 1);
                }
            }
        }
    }
    proof {
        // the queue is exhausted: the discovered set is closed, so goal
        // was never reachable
        assert forall|v: int, w2: int|
            #![trigger disc@[v], graph.iedge(v, w2)]
            0 <= v < graph.n() && disc@[v] && graph.iedge(v, w2) implies disc@[w2] by {
            let k = choose|k: int| 0 <= k < q@.len() && q@[k] == v as usize;
            assert(k < head as int);
            assert(graph.iedge(q@[k] as int, w2));
        }
        assert forall|q2: Seq<Seq<char>>| !is_path(graph, q2, start@, goal@) by {
            if is_path(graph, q2, start@, goal@) {
                if q2.len() == 1 {
                    assert(q2[0] == start@ && q2[0] == goal@);
                } else {
                    lemma_path_to_ipath(graph, q2, start@, goal@);
                    let ip2 = ipath_of(graph, q2);
                    graph.lemma_idx_of(si as int);
                    assert(graph.contains_node(goal@));
                    assert(goal_in);
                    graph.lemma_idx_of(gi as int);
                    assert(ip2[0] == si as int && ip2[ip2.len() - 1] == gi as int);
                    lemma_closed_all_discovered(graph, disc@, si as int, ip2);
                    assert(disc@[gi as int]);
                }
            }
        }
    }
    None
}

} // verus!
