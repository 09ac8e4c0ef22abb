//! Structural statistics over the graph: the degree distribution and the
//! top-k most connected nodes.

use crate::graph::Graph;
use vstd::prelude::*;

verus! {

broadcast use vstd::multiset::group_multiset_axioms;

/// Number of nodes among the first `m` interned whose neighbor set has
/// size `d`.
pub open spec fn degree_count_upto(g: &Graph, d: int, m: int) -> int
    decreases m,
{
    if m <= 0 {
        0
    } else {
        degree_count_upto(g, d, m - 1) + (if g.rows()[m - 1].len() == d {
            1int
        } else {
            0int
        })
    }
}

/// Number of nodes of the graph whose neighbor set has size `d`.
pub open spec fn degree_count(g: &Graph, d: int) -> int {
    degree_count_upto(g, d, g.n())
}

proof fn lemma_degree_count_upto_bound(g: &Graph, d: int, m: int)
    requires
        0 <= m,
    ensures
        0 <= degree_count_upto(g, d, m) <= m,
    decreases m,
{
    if m > 0 {
        lemma_degree_count_upto_bound(g, d, m - 1);
    }
}

/// The identifiers of a sequence of ranked entries.
pub open spec fn entry_names(s: Seq<(String, usize)>) -> Seq<Seq<char>> {
    s.map_values(|e: (String, usize)| e.0@)
}

/// Every entry pairs a present node with its current degree.
pub open spec fn entries_ok(g: &Graph, s: Seq<(String, usize)>) -> bool {
    forall|m: int|
        0 <= m < s.len() ==> g.contains_node((#[trigger] s[m]).0@) && s[m].1 == g.degree(s[m].0@)
}

impl Graph {
    /// Computes the degree distribution: the count of nodes per neighbor-set
    /// size, as pairs in strictly ascending degree order, one pair for each
    /// degree that occurs.
    pub fn degree_distribution(&self) -> (r: Vec<(usize, usize)>)
        requires
            self.wf(),
        ensures
            forall|a: int, b: int| 0 <= a < b < r@.len() ==> (#[trigger] r@[a]).0 < (#[trigger] r@[b]).0,
            forall|m: int|
                0 <= m < r@.len() ==> (#[trigger] r@[m]).1 == degree_count(self, r@[m].0 as int)
                    && r@[m].1 > 0,
            forall|d: int|
                degree_count(self, d) > 0 ==> (exists|m: int|
                    0 <= m < r@.len() && (#[trigger] r@[m]).0 == d),
    {
        let n: usize = self.names.len();
        let mut out: Vec<(usize, usize)> = Vec::new();
        let mut i: usize = 0;
        while i < n
            invariant
                self.wf(),
                n as int == self.n(),
                i <= n,
                forall|a: int, b: int|
                    0 <= a < b < out@.len() ==> (#[trigger] out@[a]).0 < (#[trigger] out@[b]).0,
                forall|m: int|
                    0 <= m < out@.len() ==> (#[trigger] out@[m]).1 == degree_count_upto(
                        self,
                        out@[m].0 as int,
                        i as int,
                    ) && out@[m].1 > 0,
                forall|d: int|
                    degree_count_upto(self, d, i as int) > 0 <==> (exists|m: int|
                        0 <= m < out@.len() && (#[trigger] out@[m]).0 == d),
            decreases n - i,
        {
            let ghost out0 = out@;
            let d: usize = self.adj[i].len();
            proof {
                assert(self.rows()[i as int].len() == d);
                assert(forall|dd: int|
                    degree_count_upto(self, dd, i as int + 1) == degree_count_upto(
                        self,
                        dd,
                        i as int,
                    ) + (if dd == d { 1int } else { 0int }));
            }
            let mut j: usize = 0;
            while j < out.len() && out[j].0 < d
                invariant
                    j <= out@.len(),
                    forall|m: int| 0 <= m < j ==> (#[trigger] out@[m]).0 < d,
                decreases out@.len() - j,
            {
                j += 1;
            }
            if j < out.len() && out[j].0 == d {
                let c: usize = out[j].1;
                proof {
                    lemma_degree_count_upto_bound(self, d as int, i as int);
                }
                out.set(j, (d, c + 1));
            } else {
                proof {
                    if degree_count_upto(self, d as int, i as int) > 0 {
                        let m = choose|m: int| 0 <= m < out0.len() && (#[trigger] out0[m]).0 == d;
                        assert(m < j ==> out0[m].0 < d);
                        assert(m >= j ==> out0[j as int].0 <= out0[m].0);
                        assert(false);
                    }
                }
                out.insert(j, (d, 1));
            }
            proof {
                let j_int = j as int;
                if j < out0.len() && out0[j_int].0 == d {
                    assert(out@ == out0.update(j_int, (d, (out0[j_int].1 + 1) as usize)));
                } else {
                    assert(out@ == out0.insert(j_int, (d, 1usize)));
                    assert(forall|m: int| 0 <= m < j_int ==> out@[m] == out0[m]);
                    assert(forall|m: int|
                        j_int < m < out@.len() ==> (#[trigger] out@[m]) == out0[m - 1]);
                    assert(out@[j_int] == (d, 1usize));
                    if j < out0.len() {
                        assert(out0[j_int].0 > d);
                    }
                }
                assert forall|dd: int|
                    #[trigger] degree_count_upto(self, dd, i as int + 1) > 0 implies (exists|m: int|
                    0 <= m < out@.len() && (#[trigger] out@[m]).0 == dd) by {
                    if dd == d {
                        assert(out@[j_int].0 == d);
                    } else {
                        assert(degree_count_upto(self, dd, i as int) > 0);
                        let m = choose|m: int| 0 <= m < out0.len() && (#[trigger] out0[m]).0 == dd;
                        if j < out0.len() && out0[j_int].0 == d {
                            assert(out@[m].0 == dd);
                        } else {
                            if m < j_int {
                                assert(out@[m].0 == dd);
                            } else {
                                assert(out@[m + 1].0 == dd);
                            }
                        }
                    }
                }
                assert forall|dd: int|
                    (exists|m: int| 0 <= m < out@.len() && (#[trigger] out@[m]).0 == dd) implies #[trigger] degree_count_upto(
                    self,
                    dd,
                    i as int + 1,
                ) > 0 by {
                    lemma_degree_count_upto_bound(self, dd, i as int);
                    if dd != d {
                        let m = choose|m: int| 0 <= m < out@.len() && (#[trigger] out@[m]).0 == dd;
                        if j < out0.len() && out0[j_int].0 == d {
                            assert(out@[m].0 == out0[m].0);
                        } else {
                            if m < j_int {
                                assert(out0[m].0 == dd);
                            } else {
                                assert(m != j_int);
                                assert(out0[m - 1].0 == dd);
                            }
                        }
                        assert(degree_count_upto(self, dd, i as int) > 0);
                    }
                }
            }
            i += 1;
        }
        out
    }

    /// Ranks the nodes by degree, descending, and returns the first
    /// `min(k, node_count)` of them with their degrees.  Every node left
    /// out has a degree no larger than the last entry returned; the order
    /// among equal degrees follows insertion order of the scan.
    pub fn top_k_nodes(&self, k: usize) -> (r: Vec<(String, usize)>)
        requires
            self.wf(),
        ensures
            r@.len() == (if (k as int) <= self.n() {
                k as int
            } else {
                self.n()
            }),
            entries_ok(self, r@),
            forall|a: int, b: int| 0 <= a <= b < r@.len() ==> (#[trigger] r@[a]).1 >= (#[trigger] r@[b]).1,
            entry_names(r@).no_duplicates(),
            forall|x: Seq<char>|
                self.contains_node(x) && !entry_names(r@).contains(x) && r@.len() > 0
                    ==> self.degree(x) <= r@[r@.len() - 1].1,
    {
        let n: usize = self.names.len();
        let mut pool: Vec<(String, usize)> = Vec::new();
        let mut i: usize = 0;
        while i < n
            invariant
                self.wf(),
                n as int == self.n(),
                i <= n,
                pool@.len() == i,
                forall|m: int|
                    0 <= m < i ==> (#[trigger] pool@[m]).0 == self.names@[m] && pool@[m].1
                        == self.rows()[m].len(),
            decreases n - i,
        {
            pool.push((self.names[i].clone(), self.adj[i].len()));
            i += 1;
        }
        proof {
            assert(entry_names(pool@) =~= self.names_view());
            assert forall|m: int| 0 <= m < pool@.len() implies self.contains_node(
                (#[trigger] pool@[m]).0@,
            ) && pool@[m].1 == self.degree(pool@[m].0@) by {
                self.lemma_idx_of(m);
            }
        }
        let mut out: Vec<(String, usize)> = Vec::new();
        proof {
            assert(entry_names(out@) + entry_names(pool@) =~= entry_names(pool@));
        }
        while out.len() < k && pool.len() > 0
            invariant
                self.wf(),
                out@.len() + pool@.len() == self.n(),
                out@.len() <= k,
                entries_ok(self, out@),
                entries_ok(self, pool@),
                forall|a: int, b: int|
                    0 <= a <= b < out@.len() ==> (#[trigger] out@[a]).1 >= (#[trigger] out@[b]).1,
                forall|a: int, m: int|
                    0 <= a < out@.len() && 0 <= m < pool@.len() ==> (#[trigger] out@[a]).1
                        >= (#[trigger] pool@[m]).1,
                (entry_names(out@) + entry_names(pool@)).no_duplicates(),
                forall|x: Seq<char>|
                    self.contains_node(x) ==> (entry_names(out@) + entry_names(pool@)).contains(x),
            decreases pool@.len(),
        {
            let mut best: usize = 0;
            let mut t: usize = 1;
            while t < pool.len()
                invariant
                    pool@.len() > 0,
                    (best as int) < pool@.len(),
                    t <= pool@.len(),
                    forall|m: int| 0 <= m < t ==> (#[trigger] pool@[m]).1 <= pool@[best as int].1,
                decreases pool@.len() - t,
            {
                if pool[t].1 > pool[best].1 {
                    best = t;
                }
                t += 1;
            }
            let ghost out0 = out@;
            let ghost pool0 = pool@;
            let e = pool.remove(best);
            out.push(e);
            proof {
                let b_int = best as int;
                assert(pool@ == pool0.remove(b_int));
                assert(out@ == out0.push(pool0[b_int]));
                pool0.remove_ensures(b_int);
                let co = entry_names(out0) + entry_names(pool0);
                let cn = entry_names(out@) + entry_names(pool@);
                assert(entry_names(out@) =~= entry_names(out0).push(pool0[b_int].0@));
                assert(entry_names(pool@) =~= entry_names(pool0).remove(b_int));
                assert(cn.to_multiset() =~= co.to_multiset()) by {
                    let e0 = pool0[b_int].0@;
                    vstd::seq_lib::lemma_multiset_commutative(
                        entry_names(out0),
                        entry_names(pool0),
                    );
                    vstd::seq_lib::lemma_multiset_commutative(
                        entry_names(out@),
                        entry_names(pool@),
                    );
                    entry_names(out0).to_multiset_ensures();
                    entry_names(pool0).to_multiset_ensures();
                    vstd::seq_lib::to_multiset_remove(entry_names(pool0), b_int);
                    assert(entry_names(out@).to_multiset() =~= entry_names(
                        out0,
                    ).to_multiset().insert(e0));
                    assert(entry_names(pool0)[b_int] == e0);
                    assert(entry_names(pool0).contains(e0));
                    assert(entry_names(pool0).to_multiset().count(e0) > 0);
                    assert forall|x: Seq<char>| cn.to_multiset().count(x)
                        == co.to_multiset().count(x) by {
                        assert(co.to_multiset().count(x) == entry_names(out0).to_multiset().count(
                            x,
                        ) + entry_names(pool0).to_multiset().count(x));
                        assert(cn.to_multiset().count(x) == entry_names(out@).to_multiset().count(
                            x,
                        ) + entry_names(pool@).to_multiset().count(x));
                        assert(entry_names(out@).to_multiset().count(x) == entry_names(
                            out0,
                        ).to_multiset().count(x) + (if x == e0 {
                            1int
                        } else {
                            0int
                        }));
                        assert(entry_names(pool@).to_multiset().count(x) == entry_names(
                            pool0,
                        ).to_multiset().count(x) - (if x == e0 {
                            1int
                        } else {
                            0int
                        }));
                    }
                }
                co.lemma_multiset_has_no_duplicates();
                assert(forall|x: Seq<char>|
                    cn.to_multiset().count(x) == co.to_multiset().count(x));
                cn.lemma_multiset_has_no_duplicates_conv();
                assert forall|x: Seq<char>| self.contains_node(x) implies cn.contains(x) by {
                    assert(co.contains(x));
                    vstd::seq_lib::to_multiset_contains(co, x);
                    vstd::seq_lib::to_multiset_contains(cn, x);
                }
            }
        }
        proof {
            let names_all = entry_names(out@) + entry_names(pool@);
            assert forall|a: int, b: int|
                0 <= a < b < entry_names(out@).len() && entry_names(out@)[a] == entry_names(
                out@,
            )[b] implies false by {
                assert(names_all[a] == names_all[b]);
            }
            assert forall|x: Seq<char>|
                self.contains_node(x) && !entry_names(out@).contains(x) && out@.len()
                    > 0 implies self.degree(x) <= out@[out@.len() - 1].1 by {
                assert(names_all.contains(x));
                let c = choose|c: int| 0 <= c < names_all.len() && names_all[c] == x;
                assert(c >= entry_names(out@).len());
                let m = c - entry_names(out@).len();
                assert(entry_names(pool@)[m] == x);
                assert(pool@[m].0@ == x);
                assert(pool@[m].1 == self.degree(x));
                assert(out@[out@.len() - 1].1 >= pool@[m].1);
            }
        }
        out
    }
}

} // verus!

