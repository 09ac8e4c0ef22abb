//! Monte-Carlo estimate of the average shortest-path length: node pairs are
//! drawn at random from a caller-seeded generator and averaged over the
//! pairs that a breadth-first search connects.

use crate::bfs;
use crate::bfs::is_path;
use crate::graph::Graph;
use vstd::prelude::*;

verus! {

/// Declares rand's seedable standard generator so values of it can cross
/// the library's signatures.
#[verifier::external_type_specification]
#[verifier::external_body]
pub struct ExStdRng(rand::rngs::StdRng);

/// Relies on rand's `Rng::gen_range` over `0..n`: returns a value drawn
/// from that range.  The call panics on an empty range, so `n` is required
/// to be positive; nothing more is assumed of a random draw.
#[verifier::external_body]
fn sample_below(rng: &mut rand::rngs::StdRng, n: usize) -> (r: usize)
    requires
        n > 0,
    ensures
        r < n,
{
    rand::Rng::gen_range(rng, 0..n)
}

/// Whether some walk connects `a` to `b` in `g`.
pub open spec fn connects(g: &Graph, a: Seq<char>, b: Seq<char>) -> bool {
    exists|p: Seq<Seq<char>>| is_path(g, p, a, b)
}

/// Whether some walk of exactly `l` nodes connects `a` to `b` in `g`.
pub open spec fn has_path_of(g: &Graph, a: Seq<char>, b: Seq<char>, l: int) -> bool {
    exists|p: Seq<Seq<char>>| is_path(g, p, a, b) && p.len() == l
}

/// Whether `l` is the node count of a shortest walk from `a` to `b`.
pub open spec fn is_min_nodes(g: &Graph, a: Seq<char>, b: Seq<char>, l: int) -> bool {
    &&& has_path_of(g, a, b, l)
    &&& (forall|p: Seq<Seq<char>>| is_path(g, p, a, b) ==> p.len() >= l)
}

/// The node count of a shortest walk from `a` to `b`.
pub open spec fn min_path_nodes(g: &Graph, a: Seq<char>, b: Seq<char>) -> int {
    choose|l: int| is_min_nodes(g, a, b, l)
}

/// A walk of `l` nodes that no walk undercuts pins the minimum down.
proof fn lemma_min_path_nodes(g: &Graph, a: Seq<char>, b: Seq<char>, l: int)
    requires
        exists|p: Seq<Seq<char>>| is_path(g, p, a, b) && p.len() == l,
        forall|p: Seq<Seq<char>>| is_path(g, p, a, b) ==> p.len() >= l,
    ensures
        connects(g, a, b),
        min_path_nodes(g, a, b) == l,
{
    let p0 = choose|p: Seq<Seq<char>>| is_path(g, p, a, b) && p.len() == l;
    assert(is_path(g, p0, a, b));
    assert(is_min_nodes(g, a, b, l));
    let l0 = min_path_nodes(g, a, b);
    assert(is_min_nodes(g, a, b, l0));
    let p1 = choose|p: Seq<Seq<char>>| is_path(g, p, a, b) && p.len() == l0;
    assert(is_path(g, p1, a, b) && p1.len() == l0);
    assert(p1.len() >= l && p0.len() >= l0);
}

/// Running totals over the first `m` drawn pairs: the summed edge count of
/// the shortest walks between connected pairs, and how many pairs counted.
/// A pair of one node twice or of disconnected nodes contributes nothing.
pub open spec fn pair_stats(g: &Graph, pairs: Seq<(Seq<char>, Seq<char>)>, m: int) -> (int, int)
    decreases m,
{
    if m <= 0 {
        (0, 0)
    } else {
        let prev = pair_stats(g, pairs, m - 1);
        let a = pairs[m - 1].0;
        let b = pairs[m - 1].1;
        if a != b && connects(g, a, b) {
            (prev.0 + min_path_nodes(g, a, b) - 1, prev.1 + 1)
        } else {
            prev
        }
    }
}

proof fn lemma_pair_stats_prefix(
    g: &Graph,
    pairs: Seq<(Seq<char>, Seq<char>)>,
    x: (Seq<char>, Seq<char>),
    m: int,
)
    requires
        0 <= m <= pairs.len(),
    ensures
        pair_stats(g, pairs.push(x), m) == pair_stats(g, pairs, m),
    decreases m,
{
    if m > 0 {
        lemma_pair_stats_prefix(g, pairs, x, m - 1);
        assert(pairs.push(x)[m - 1] == pairs[m - 1]);
    }
}

/// What one run of the estimator reports for a drawn pair sequence: at
/// most `sample_size` pairs of present, distinct nodes were kept, and the
/// result is their exact totals, or `None` when no kept pair connects.
pub open spec fn sampled_outcome(
    g: &Graph,
    pairs: Seq<(Seq<char>, Seq<char>)>,
    sample_size: int,
    r: Option<(u128, usize)>,
) -> bool {
    &&& pairs.len() <= sample_size
    &&& (forall|m: int|
        0 <= m < pairs.len() ==> g.contains_node((#[trigger] pairs[m]).0) && g.contains_node(
            pairs[m].1,
        ) && pairs[m].0 != pairs[m].1)
    &&& match r {
        Some(sc) => pair_stats(g, pairs, pairs.len() as int) == (sc.0 as int, sc.1 as int) && sc.1
            > 0,
        None => pair_stats(g, pairs, pairs.len() as int).1 == 0,
    }
}

/// Measures one drawn pair: the edge count of a shortest walk between the
/// two interned nodes, or `None` when they are disconnected.
fn pair_distance(g: &Graph, i1: usize, i2: usize) -> (r: Option<usize>)
    requires
        g.wf(),
        (i1 as int) < g.n(),
        (i2 as int) < g.n(),
        i1 != i2,
    ensures
        ({
            let a = g.names_view()[i1 as int];
            let b = g.names_view()[i2 as int];
            &&& a != b
            &&& match r {
                Some(d) => connects(g, a, b) && d + 1 == min_path_nodes(g, a, b),
                None => !connects(g, a, b),
            }
        }),
{
    let ghost a = g.names_view()[i1 as int];
    let ghost b = g.names_view()[i2 as int];
    proof {
        g.lemma_idx_of(i1 as int);
        g.lemma_idx_of(i2 as int);
    }
    match bfs::shortest_path(g, g.names[i1].as_str(), g.names[i2].as_str()) {
        Some(p) => {
            let pl: usize = p.len();
            proof {
                assert(is_path(g, bfs::path_view(p@), a, b));
                assert(bfs::path_view(p@).len() == pl);
                lemma_min_path_nodes(g, a, b, pl as int);
                assert(pl >= 1);
            }
            Some(pl - 1)
        },
        None => {
            proof {
                assert(!connects(g, a, b)) by {
                    if connects(g, a, b) {
                        let p = choose|p: Seq<Seq<char>>| is_path(g, p, a, b);
                        assert(!is_path(g, p, a, b));
                    }
                }
            }
            None
        },
    }
}

/// Estimates the average shortest-path length over `sample_size` random
/// draws of node pairs from the seeded generator: equal draws are
/// discarded, disconnected pairs are not counted, and the exact totals
/// `(sum of edge counts, pairs counted)` are returned for the caller to
/// divide — or `None` when nothing counted, which a sample size of zero or
/// a graph of fewer than two nodes always produces.
#[verifier::rlimit(100)]
pub fn average_path_length(g: &Graph, rng: &mut rand::rngs::StdRng, sample_size: usize) -> (r:
    Option<(u128, usize)>)
    requires
        g.wf(),
    ensures
        exists|pairs: Seq<(Seq<char>, Seq<char>)>| #[trigger] sampled_outcome(
            g,
            pairs,
            sample_size as int,
            r,
        ),
        sample_size == 0 ==> r is None,
        g.node_count_spec() <= 1 ==> r is None,
{
    let n: usize = g.names.len();
    if n == 0 {
        proof {
            let pairs0 = Seq::<(Seq<char>, Seq<char>)>::empty();
            assert(sampled_outcome(g, pairs0, sample_size as int, None::<(u128, usize)>));
        }
        return None;
    }
    let mut sum: u128 = 0;
    let mut cnt: usize = 0;
    let ghost mut gpairs = Seq::<(Seq<char>, Seq<char>)>::empty();
    let mut s: usize = 0;
    while s < sample_size
        invariant
            g.wf(),
            n as int == g.n(),
            n > 0,
            s <= sample_size,
            cnt <= s,
            gpairs.len() <= s,
            n == 1 ==> gpairs.len() == 0,
            sum as int <= s as int * (usize::MAX as int),
            forall|m: int|
                0 <= m < gpairs.len() ==> g.contains_node((#[trigger] gpairs[m]).0)
                    && g.contains_node(gpairs[m].1) && gpairs[m].0 != gpairs[m].1,
            pair_stats(g, gpairs, gpairs.len() as int) == (sum as int, cnt as int),
        decreases sample_size - s,
    {
        let i1 = sample_below(rng, n);
        let i2 = sample_below(rng, n);
        if i1 != i2 {
            let ghost a = g.names_view()[i1 as int];
            let ghost b = g.names_view()[i2 as int];
            proof {
                g.lemma_idx_of(i1 as int);
                g.lemma_idx_of(i2 as int);
            }
            let found = pair_distance(g, i1, i2);
            let ghost gpairs0 = gpairs;
            proof {
                gpairs = gpairs.push((a, b));
                lemma_pair_stats_prefix(g, gpairs0, (a, b), gpairs0.len() as int);
            }
            match found {
                Some(d) => {
                    proof {
                        assert(sum as int + d <= u128::MAX);
                    }
                    sum = sum + d as u128;
                    cnt = cnt + 1;
                },
                None => {
                },
            }
        }
        s += 1;
    }
    if cnt > 0 {
        proof {
            assert(sampled_outcome(
                g,
                gpairs,
                sample_size as int,
                Some((sum, cnt)),
            ));
        }
        Some((sum, cnt))
    } else {
        proof {
            assert(sampled_outcome(g, gpairs, sample_size as int, None::<(u128, usize)>));
        }
        None
    }
}

} // verus!
