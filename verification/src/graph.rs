//! The adjacency-list representation of an undirected, unweighted, simple
//! graph over string-identified nodes.
//!
//! Nodes are interned: `names` lists the distinct node identifiers in
//! insertion order, and `adj[i]` lists the indices of the neighbors of
//! `names[i]`, each index at most once.  The structure is kept symmetric:
//! `j` appears in `adj[i]` exactly when `i` appears in `adj[j]`.

use vstd::prelude::*;

verus! {

broadcast use vstd::seq_lib::lemma_seq_contains_after_push;

/// Total number of adjacency entries: the sum of the row lengths.
pub open spec fn sum_lens(rows: Seq<Seq<usize>>) -> int
    decreases rows.len(),
{
    if rows.len() == 0 {
        0
    } else {
        sum_lens(rows.drop_last()) + rows.last().len()
    }
}

proof fn lemma_sum_lens_push(rows: Seq<Seq<usize>>, r: Seq<usize>)
    ensures
        sum_lens(rows.push(r)) == sum_lens(rows) + r.len(),
{
    assert(rows.push(r).drop_last() =~= rows);
    assert(rows.push(r).last() == r);
}

proof fn lemma_sum_lens_update(rows: Seq<Seq<usize>>, i: int, r: Seq<usize>)
    requires
        0 <= i < rows.len(),
    ensures
        sum_lens(rows.update(i, r)) == sum_lens(rows) - rows[i].len() + r.len(),
    decreases rows.len(),
{
    let u = rows.update(i, r);
    if i == rows.len() - 1 {
        assert(u.drop_last() =~= rows.drop_last());
        assert(u.last() == r);
    } else {
        assert(u.drop_last() =~= rows.drop_last().update(i, r));
        assert(u.last() == rows.last());
        lemma_sum_lens_update(rows.drop_last(), i, r);
    }
}

/// An undirected graph of string-identified nodes, as built from a list of
/// pairwise edges.  `wf()` is the structural invariant; every operation
/// requires and preserves it.
pub struct Graph {
    /// The distinct node identifiers, in first-insertion order.
    pub names: Vec<String>,
    /// `adj[i]` holds the indices into `names` of the neighbors of node `i`.
    pub adj: Vec<Vec<usize>>,
    /// Cached sum of all neighbor-list lengths.
    pub deg_sum: usize,
}

impl Graph {
    /// The node identifiers as mathematical character sequences.
    pub open spec fn names_view(&self) -> Seq<Seq<char>> {
        self.names@.map_values(|s: String| s@)
    }

    /// The adjacency rows as mathematical sequences.
    pub open spec fn rows(&self) -> Seq<Seq<usize>> {
        self.adj@.map_values(|v: Vec<usize>| v@)
    }

    /// Number of nodes.
    pub open spec fn n(&self) -> int {
        self.names@.len() as int
    }

    pub open spec fn node_count_spec(&self) -> nat {
        self.names@.len()
    }

    /// Whether `name` is a node of the graph.
    pub open spec fn contains_node(&self, name: Seq<char>) -> bool {
        self.names_view().contains(name)
    }

    /// The index a present node is interned at.
    pub open spec fn idx_of(&self, name: Seq<char>) -> int {
        self.names_view().index_of(name)
    }

    /// Adjacency between two node indices.
    pub open spec fn iedge(&self, i: int, j: int) -> bool {
        &&& 0 <= i < self.n()
        &&& 0 <= j < self.n()
        &&& self.rows()[i].contains(j as usize)
    }

    /// Adjacency between two node identifiers: both are present and each is
    /// in the other's neighbor set.
    pub open spec fn edge(&self, a: Seq<char>, b: Seq<char>) -> bool {
        &&& self.contains_node(a)
        &&& self.contains_node(b)
        &&& self.iedge(self.idx_of(a), self.idx_of(b))
    }

    /// Size of the neighbor set of `a`; zero for an absent node.
    pub open spec fn degree(&self, a: Seq<char>) -> nat {
        if self.contains_node(a) {
            self.rows()[self.idx_of(a)].len()
        } else {
            0
        }
    }

    /// The sum of all neighbor-set sizes.
    pub open spec fn degree_sum(&self) -> int {
        sum_lens(self.rows())
    }

    /// The indices that carry a self-loop.
    pub open spec fn loop_nodes(&self) -> Set<int> {
        Set::new(|i: int| 0 <= i < self.n() && self.rows()[i].contains(i as usize))
    }

    /// No node is its own neighbor.
    pub open spec fn loop_free(&self) -> bool {
        forall|i: int| 0 <= i < self.n() ==> !(#[trigger] self.rows()[i]).contains(i as usize)
    }

    /// The structural invariant: names are distinct, rows parallel the
    /// names, rows hold distinct in-range indices, adjacency is symmetric,
    /// the cached sum is exact, and its parity matches the self-loop count.
    pub open spec fn wf(&self) -> bool {
        &&& self.adj@.len() == self.names@.len()
        &&& self.names_view().no_duplicates()
        &&& (forall|i: int| 0 <= i < self.n() ==> (#[trigger] self.rows()[i]).no_duplicates())
        &&& (forall|i: int, k: int|
            0 <= i < self.n() && 0 <= k < self.rows()[i].len() ==> (#[trigger] self.rows()[i][k])
                < self.n())
        &&& (forall|i: int, j: int|
            0 <= i < self.n() && 0 <= j < self.n() ==> ((#[trigger] self.rows()[i].contains(
                j as usize,
            )) <==> self.rows()[j].contains(i as usize)))
        &&& self.deg_sum as int == self.degree_sum()
        &&& self.deg_sum as int % 2 == self.loop_nodes().len() as int % 2
    }

    /// A present node's index points back at its name.
    pub proof fn lemma_idx_of(&self, i: int)
        requires
            self.wf(),
            0 <= i < self.n(),
        ensures
            self.contains_node(self.names_view()[i]),
            self.idx_of(self.names_view()[i]) == i,
    {
        let nm = self.names_view()[i];
        assert(self.names_view().contains(nm));
        let j = self.idx_of(nm);
        assert(0 <= j < self.n() && self.names_view()[j] == nm);
    }

    /// Creates the empty graph.
    pub fn new() -> (g: Graph)
        ensures
            g.wf(),
            g.node_count_spec() == 0,
            g.degree_sum() == 0,
            forall|a: Seq<char>| !g.contains_node(a),
            forall|a: Seq<char>, b: Seq<char>| !g.edge(a, b),
            g.names_view() == Seq::<Seq<char>>::empty(),
    {
        let g = Graph { names: Vec::new(), adj: Vec::new(), deg_sum: 0 };
        proof {
            assert(g.names_view() =~= Seq::<Seq<char>>::empty());
            assert(g.rows() =~= Seq::<Seq<usize>>::empty());
            assert(g.loop_nodes() =~= Set::<int>::empty());
        }
        g
    }

    /// Looks a node identifier up in the intern table.
    pub(crate) fn find_node(&self, name: &str) -> (r: Option<usize>)
        requires
            self.wf(),
        ensures
            match r {
                Some(i) => {
                    &&& (i as int) < self.n()
                    &&& self.names_view()[i as int] == name@
                    &&& self.contains_node(name@)
                    &&& self.idx_of(name@) == i as int
                },
                None => !self.contains_node(name@),
            },
    {
        let key: String = name.to_owned();
        let end: usize = self.names.len();
        let mut k: usize = 0;
        while k < end
            invariant
                self.wf(),
                end == self.names.len(),
                k <= end,
                key@ == name@,
                forall|m: int| 0 <= m < k ==> self.names_view()[m] != name@,
            decreases end - k,
        {
            if self.names[k] == key {
                proof {
                    self.lemma_idx_of(k as int);
                }
                return Some(k);
            }
            k += 1;
        }
        proof {
            if self.contains_node(name@) {
                let m = choose|m: int|
                    0 <= m < self.names_view().len() && self.names_view()[m] == name@;
                assert(self.names_view()[m] != name@);
            }
        }
        None
    }

    /// Returns the total number of nodes in the graph.
    pub fn node_count(&self) -> (r: usize)
        requires
            self.wf(),
        ensures
            r == self.node_count_spec(),
    {
        self.names.len()
    }

    /// Returns the total number of distinct undirected edges: half the sum
    /// of all neighbor-set sizes (a self-loop contributes one to the sum).
    pub fn edge_count(&self) -> (r: usize)
        requires
            self.wf(),
        ensures
            r == self.degree_sum() / 2,
            self.loop_free() ==> 2 * r == self.degree_sum(),
    {
        proof {
            if self.loop_free() {
                self.lemma_loop_free_parity();
            }
        }
        self.deg_sum / 2
    }

    /// With no self-loop the sum of neighbor-set sizes is even, so halving
    /// it in `edge_count` loses nothing.
    pub proof fn lemma_loop_free_parity(&self)
        requires
            self.wf(),
            self.loop_free(),
        ensures
            self.degree_sum() % 2 == 0,
    {
        assert(self.loop_nodes() =~= Set::<int>::empty());
    }

    /// Every edge is mutual: `b` is a neighbor of `a` exactly when `a` is a
    /// neighbor of `b`.
    pub proof fn lemma_edge_symmetric(&self, a: Seq<char>, b: Seq<char>)
        requires
            self.wf(),
        ensures
            self.edge(a, b) <==> self.edge(b, a),
    {
    }

    /// The set of self-loop indices is finite (it sits inside `0..n`).
    proof fn lemma_loop_nodes_finite(&self)
        ensures
            self.loop_nodes().finite(),
    {
        vstd::set_lib::lemma_int_range(0, self.n());
        assert(self.loop_nodes().subset_of(vstd::set_lib::set_int_range(0, self.n())));
        vstd::set_lib::lemma_len_subset(
            self.loop_nodes(),
            vstd::set_lib::set_int_range(0, self.n()),
        );
    }

    /// Interns `name`, appending it with an empty neighbor row if new, and
    /// returns its index.  The edge structure is untouched.
    fn ensure_node(&mut self, name: &str) -> (i: usize)
        requires
            old(self).wf(),
        ensures
            final(self).wf(),
            (i as int) < final(self).n(),
            final(self).names_view()[i as int] == name@,
            final(self).idx_of(name@) == i as int,
            final(self).contains_node(name@),
            old(self).contains_node(name@) ==> *final(self) == *old(self),
            !old(self).contains_node(name@) ==> ({
                &&& final(self).names_view() == old(self).names_view().push(name@)
                &&& final(self).rows() == old(self).rows().push(Seq::<usize>::empty())
                &&& final(self).deg_sum == old(self).deg_sum
                &&& (i as int) == old(self).n()
            }),
    {
        match self.find_node(name) {
            Some(i) => i,
            None => {
                let i = self.names.len();
                self.names.push(name.to_owned());
                self.adj.push(Vec::new());
                proof {
                    let g0 = *old(self);
                    let g1 = *self;
                    assert(g1.names_view() =~= g0.names_view().push(name@));
                    assert(g1.rows() =~= g0.rows().push(Seq::<usize>::empty()));
                    lemma_sum_lens_push(g0.rows(), Seq::<usize>::empty());
                    assert(g1.loop_nodes() =~= g0.loop_nodes());
                    // the appended row is empty and no old row reaches index n
                    assert forall|x: int, y: int|
                        0 <= x < g1.n() && 0 <= y < g1.n() implies ((#[trigger] g1.rows()[
                        x].contains(y as usize)) <==> g1.rows()[y].contains(x as usize)) by {
                        if x < g0.n() && y < g0.n() {
                            assert(g1.rows()[x] == g0.rows()[x]);
                            assert(g1.rows()[y] == g0.rows()[y]);
                        } else if x == g0.n() {
                            assert(g1.rows()[x] == Seq::<usize>::empty());
                            if y < g0.n() {
                                if g1.rows()[y].contains(x as usize) {
                                    let k = choose|k: int|
                                        0 <= k < g0.rows()[y].len() && g0.rows()[y][k]
                                            == x as usize;
                                    assert(g0.rows()[y][k] < g0.n());
                                }
                            }
                        } else {
                            assert(g1.rows()[y] == Seq::<usize>::empty());
                            if g1.rows()[x].contains(y as usize) {
                                let k = choose|k: int|
                                    0 <= k < g0.rows()[x].len() && g0.rows()[x][k] == y as usize;
                                assert(g0.rows()[x][k] < g0.n());
                            }
                        }
                    }
                    assert(g1.wf());
                    g1.lemma_idx_of(i as int);
                }
                i
            },
        }
    }

    /// Records the mutual adjacency of the two interned nodes `i` and `j`,
    /// doing nothing when it is already present.
    fn connect(&mut self, i: usize, j: usize)
        requires
            old(self).wf(),
            (i as int) < old(self).n(),
            (j as int) < old(self).n(),
            old(self).deg_sum + 2 <= usize::MAX,
        ensures
            final(self).wf(),
            final(self).names@ == old(self).names@,
            final(self).iedge(i as int, j as int),
            final(self).iedge(j as int, i as int),
            old(self).iedge(i as int, j as int) ==> *final(self) == *old(self),
            forall|x: int, y: int|
                final(self).iedge(x, y) <==> (old(self).iedge(x, y) || (x == i && y == j) || (x
                    == j && y == i)),
            forall|x: int|
                0 <= x < old(self).n() && x != i && x != j ==> final(self).rows()[x] == old(
                    self,
                ).rows()[x],
            !old(self).iedge(i as int, j as int) ==> final(self).rows()[i as int].len() == old(
                self,
            ).rows()[i as int].len() + 1,
            !old(self).iedge(i as int, j as int) && i != j ==> final(self).rows()[j as int].len()
                == old(self).rows()[j as int].len() + 1,
            old(self).iedge(i as int, j as int) ==> final(self).degree_sum() == old(
                self,
            ).degree_sum(),
            !old(self).iedge(i as int, j as int) ==> final(self).degree_sum() == old(
                self,
            ).degree_sum() + (if i == j {
                1int
            } else {
                2int
            }),
    {
        let n_bound: usize = self.names.len();
        proof {
            assert(old(self).n() == n_bound as int);
        }
        let present = row_contains(&self.adj[i], j);
        if present {
            proof {
                let g0 = *old(self);
                assert(g0.iedge(i as int, j as int));
                assert(g0.iedge(j as int, i as int));
            }
            return ;
        }
        let ghost g0 = *old(self);
        self.adj[i].push(j);
        if i != j {
            self.adj[j].push(i);
            self.deg_sum = self.deg_sum + 2;
        } else {
            self.deg_sum = self.deg_sum + 1;
        }
        proof {
            let g1 = *self;
            if i == j {
                assert(g1.rows() =~= g0.rows().update(i as int, g0.rows()[i as int].push(i)));
                lemma_sum_lens_update(
                    g0.rows(),
                    i as int,
                    g0.rows()[i as int].push(i),
                );
                g0.lemma_loop_nodes_finite();
                assert(g1.loop_nodes() =~= g0.loop_nodes().insert(i as int));
                assert(!g0.loop_nodes().contains(i as int));
                assert(g1.loop_nodes().len() == g0.loop_nodes().len() + 1);
            } else {
                let r1 = g0.rows().update(i as int, g0.rows()[i as int].push(j));
                assert(g1.rows() =~= r1.update(j as int, g0.rows()[j as int].push(i)));
                lemma_sum_lens_update(g0.rows(), i as int, g0.rows()[i as int].push(j));
                lemma_sum_lens_update(r1, j as int, g0.rows()[j as int].push(i));
                // symmetry gave absence of the mirror entry as well
                assert(!g0.rows()[j as int].contains(i as usize));
                assert(g1.loop_nodes() =~= g0.loop_nodes());
            }
            // well-formedness of the updated rows
            let gi = i as int;
            let gj = j as int;
            if i == j {
                assert(g1.rows()[gi] == g0.rows()[gi].push(i));
                assert(forall|z: int| 0 <= z < g1.n() && z != gi ==> g1.rows()[z] == g0.rows()[z]);
            } else {
                assert(g1.rows()[gi] == g0.rows()[gi].push(j));
                assert(g1.rows()[gj] == g0.rows()[gj].push(i));
                assert(forall|z: int|
                    0 <= z < g1.n() && z != gi && z != gj ==> g1.rows()[z] == g0.rows()[z]);
            }
            // membership in the new rows, point by point
            assert forall|x: int, y: int|
                0 <= x < g1.n() && 0 <= y < g1.n() implies ((#[trigger] g1.rows()[x].contains(
                y as usize,
            )) <==> (g0.rows()[x].contains(y as usize) || (x == gi && y == gj) || (x == gj && y
                == gi))) by {
                if x == gi && i == j {
                    assert(g1.rows()[x] == g0.rows()[gi].push(i));
                    assert(g0.rows()[gi].push(i).contains(y as usize) <==> (g0.rows()[
                    gi].contains(y as usize) || y as usize == i));
                    assert((y as usize == i) <==> y == gi);
                } else if x == gi {
                    assert(g1.rows()[x] == g0.rows()[gi].push(j));
                    assert(g0.rows()[gi].push(j).contains(y as usize) <==> (g0.rows()[
                    gi].contains(y as usize) || y as usize == j));
                    assert((y as usize == j) <==> y == gj);
                } else if x == gj {
                    assert(g1.rows()[x] == g0.rows()[gj].push(i));
                    assert(g0.rows()[gj].push(i).contains(y as usize) <==> (g0.rows()[
                    gj].contains(y as usize) || y as usize == i));
                    assert((y as usize == i) <==> y == gi);
                } else {
                    assert(g1.rows()[x] == g0.rows()[x]);
                }
            }
            // symmetry transfers from the old rows
            assert forall|x: int, y: int|
                0 <= x < g1.n() && 0 <= y < g1.n() implies ((#[trigger] g1.rows()[x].contains(
                y as usize,
            )) <==> g1.rows()[y].contains(x as usize)) by {
                assert(g0.rows()[x].contains(y as usize) <==> g0.rows()[y].contains(x as usize));
            }
            assert forall|x: int|
                0 <= x < g1.n() implies (#[trigger] g1.rows()[x]).no_duplicates() by {
                if x == i as int || x == j as int {
                    let old_row = g0.rows()[x];
                    assert(old_row.no_duplicates());
                }
            }
            assert(g1.wf());
        }
    }

    /// Adds an undirected edge between two nodes, creating either node's
    /// entry if absent; adding an edge that is already present changes
    /// nothing.  The one precondition is the machine's: the two adjacency
    /// entries the edge may add must still be countable in a `usize`.
    pub fn add_edge(&mut self, node1: &str, node2: &str)
        requires
            old(self).wf(),
            old(self).degree_sum() + 2 <= usize::MAX,
        ensures
            final(self).wf(),
            final(self).edge(node1@, node2@),
            final(self).edge(node2@, node1@),
            forall|x: Seq<char>|
                final(self).contains_node(x) <==> (old(self).contains_node(x) || x == node1@ || x
                    == node2@),
            forall|x: Seq<char>, y: Seq<char>|
                final(self).edge(x, y) <==> (old(self).edge(x, y) || (x == node1@ && y == node2@)
                    || (x == node2@ && y == node1@)),
            forall|x: Seq<char>|
                x != node1@ && x != node2@ ==> final(self).degree(x) == old(self).degree(x),
            old(self).edge(node1@, node2@) ==> ({
                &&& final(self).node_count_spec() == old(self).node_count_spec()
                &&& final(self).degree_sum() == old(self).degree_sum()
                &&& final(self).names_view() == old(self).names_view()
                &&& (forall|x: Seq<char>| final(self).degree(x) == old(self).degree(x))
            }),
            final(self).node_count_spec() == old(self).node_count_spec() + (if old(
                self,
            ).contains_node(node1@) {
                0int
            } else {
                1int
            }) + (if old(self).contains_node(node2@) || node2@ == node1@ {
                0int
            } else {
                1int
            }),
            old(self).names_view().is_prefix_of(final(self).names_view()),
            final(self).degree(node1@) == old(self).degree(node1@) + (if old(self).edge(
                node1@,
                node2@,
            ) {
                0int
            } else {
                1int
            }),
            node2@ != node1@ ==> final(self).degree(node2@) == old(self).degree(node2@) + (if old(
                self,
            ).edge(node1@, node2@) {
                0int
            } else {
                1int
            }),
            final(self).degree_sum() == old(self).degree_sum() + (if old(self).edge(
                node1@,
                node2@,
            ) {
                0int
            } else if node1@ == node2@ {
                1int
            } else {
                2int
            }),
    {
        let ghost g0 = *old(self);
        let i = self.ensure_node(node1);
        let ghost g1 = *self;
        let j = self.ensure_node(node2);
        let ghost g2 = *self;
        proof {
            lemma_extend_preserves(g0, g1);
            lemma_extend_preserves(g1, g2);
            lemma_extend_preserves(g0, g2);
            assert(g2.names_view()[i as int] == node1@);
            g2.lemma_idx_of(i as int);
        }
        self.connect(i, j);
        proof {
            let gf = *self;
            let a = node1@;
            let b = node2@;
            let gi = i as int;
            let gj = j as int;
            assert(gf.names_view() == g2.names_view());
            // a node kept its index through the whole operation
            assert forall|x: Seq<char>| #[trigger] g0.contains_node(x) implies gf.contains_node(x)
                && gf.idx_of(x) == g0.idx_of(x) && g0.idx_of(x) < g0.n() by {
                lemma_extend_preserves(g0, g2);
                assert(g2.contains_node(x) && g2.idx_of(x) == g0.idx_of(x));
                gf.lemma_idx_of(g0.idx_of(x));
            }
            // the edge relation, point by point
            assert forall|x: Seq<char>, y: Seq<char>| #[trigger] gf.edge(x, y) implies (g0.edge(
                x,
                y,
            ) || (x == a && y == b) || (x == b && y == a)) by {
                let ix = gf.idx_of(x);
                let iy = gf.idx_of(y);
                assert(gf.iedge(ix, iy));
                if g2.iedge(ix, iy) {
                    assert(g0.iedge(ix, iy));
                    g0.lemma_idx_of(ix);
                    g0.lemma_idx_of(iy);
                    assert(gf.names_view()[ix] == x);
                    assert(g0.names_view()[ix] == x);
                    assert(g0.edge(x, y));
                } else {
                    assert(gf.names_view()[ix] == x);
                    assert(gf.names_view()[iy] == y);
                    if ix == gi && iy == gj {
                        assert(x == a && y == b);
                    } else {
                        assert(ix == gj && iy == gi);
                        assert(x == b && y == a);
                    }
                }
            }
            assert forall|x: Seq<char>, y: Seq<char>| g0.edge(x, y) implies #[trigger] gf.edge(
                x,
                y,
            ) by {
                let ix = g0.idx_of(x);
                let iy = g0.idx_of(y);
                g0.lemma_idx_of(ix);
                g0.lemma_idx_of(iy);
                assert(g2.iedge(ix, iy));
                assert(gf.iedge(ix, iy));
                assert(gf.idx_of(x) == ix && gf.idx_of(y) == iy);
            }
            assert(gf.edge(a, b) && gf.edge(b, a)) by {
                assert(gf.iedge(gi, gj) && gf.iedge(gj, gi));
                assert(gf.names_view()[gi] == a);
                assert(gf.names_view()[gj] == b);
                gf.lemma_idx_of(gi);
                gf.lemma_idx_of(gj);
            }
            // degrees of bystanders
            assert forall|x: Seq<char>| x != a && x != b implies #[trigger] gf.degree(x) == g0.degree(
                x,
            ) by {
                if gf.contains_node(x) {
                    let ix = gf.idx_of(x);
                    assert(gf.names_view()[ix] == x);
                    assert(ix != gi && ix != gj);
                    assert(g0.contains_node(x));
                    assert(g2.rows()[ix] == g0.rows()[g0.idx_of(x)]);
                    assert(gf.rows()[ix] == g2.rows()[ix]);
                } else {
                    assert(!g0.contains_node(x));
                }
            }
            // degrees at the endpoints
            assert(g2.rows()[gi].len() == g0.degree(a)) by {
                if g0.contains_node(a) {
                    assert(g2.rows()[gi] == g0.rows()[g0.idx_of(a)]);
                }
            }
            assert(g2.rows()[gj].len() == g0.degree(b)) by {
                if g0.contains_node(b) {
                    assert(g2.rows()[gj] == g0.rows()[g0.idx_of(b)]);
                }
            }
            assert(g2.iedge(gi, gj) <==> g0.edge(a, b)) by {
                if g2.iedge(gi, gj) {
                    assert(g0.iedge(gi, gj));
                    g0.lemma_idx_of(gi);
                    g0.lemma_idx_of(gj);
                }
                if g0.edge(a, b) {
                    assert(g2.idx_of(a) == g0.idx_of(a) && g2.idx_of(b) == g0.idx_of(b));
                }
            }
            assert(gf.degree(a) == gf.rows()[gi].len());
            if b != a {
                assert(gf.degree(b) == gf.rows()[gj].len());
            }
            if g0.edge(a, b) {
                assert(*self == g2);
                assert(g2 == g1 && g1 == g0);
                assert(forall|x: Seq<char>| gf.degree(x) == g0.degree(x));
            }
        }
    }
    /// Returns the node identifiers adjacent to `node`, in the order their
    /// edges were first inserted, or `None` for a node never inserted.
    pub fn neighbors(&self, node: &str) -> (r: Option<Vec<String>>)
        requires
            self.wf(),
        ensures
            match r {
                Some(v) => {
                    &&& self.contains_node(node@)
                    &&& v@.len() == self.degree(node@)
                    &&& (v@.map_values(|s: String| s@)).no_duplicates()
                    &&& (forall|b: Seq<char>|
                        (v@.map_values(|s: String| s@)).contains(b) <==> self.edge(node@, b))
                },
                None => !self.contains_node(node@),
            },
    {
        match self.find_node(node) {
            None => None,
            Some(i) => {
                let n_bound: usize = self.names.len();
                proof {
                    assert(self.n() == n_bound as int);
                }
                let deg: usize = self.adj[i].len();
                let mut out: Vec<String> = Vec::new();
                let mut k: usize = 0;
                while k < deg
                    invariant
                        self.wf(),
                        (i as int) < self.n(),
                        deg == self.rows()[i as int].len(),
                        k <= deg,
                        out@.len() == k,
                        forall|m: int|
                            0 <= m < k ==> (#[trigger] out@[m])@ == self.names_view()[self.rows()[
                            i as int][m] as int],
                    decreases deg - k,
                {
                    let w: usize = self.adj[i][k];
                    proof {
                        assert(self.rows()[i as int][k as int] < self.n());
                    }
                    out.push(self.names[w].clone());
                    k += 1;
                }
                proof {
                    let ix = i as int;
                    let row = self.rows()[ix];
                    let vs = out@.map_values(|s: String| s@);
                    assert(vs.len() == row.len());
                    assert(forall|m: int| 0 <= m < vs.len() ==> vs[m] == self.names_view()[row[m] as int]);
                    assert forall|b: Seq<char>| vs.contains(b) implies self.edge(node@, b) by {
                        let m = choose|m: int| 0 <= m < vs.len() && vs[m] == b;
                        let w = row[m] as int;
                        assert(row.contains(row[m]));
                        assert(self.iedge(ix, w));
                        self.lemma_idx_of(w);
                        assert(self.idx_of(node@) == ix);
                    }
                    assert forall|b: Seq<char>| self.edge(node@, b) implies vs.contains(b) by {
                        let iy = self.idx_of(b);
                        assert(self.iedge(ix, iy));
                        let m = choose|m: int| 0 <= m < row.len() && row[m] == iy as usize;
                        assert(self.names_view()[iy] == b);
                        assert(0 <= iy < self.n());
                        assert(row[m] as int == iy);
                        assert(vs[m] == b);
                    }
                    assert forall|m1: int, m2: int|
                        0 <= m1 < vs.len() && 0 <= m2 < vs.len() && m1 != m2 implies vs[m1] != vs[
                    m2] by {
                        assert(row.no_duplicates());
                        assert(row[m1] != row[m2]);
                        assert(row[m1] < self.n() && row[m2] < self.n());
                    }
                }
                Some(out)
            },
        }
    }

    /// Returns the full list of node identifiers, in first-insertion order.
    pub fn nodes(&self) -> (r: Vec<String>)
        requires
            self.wf(),
        ensures
            r@.len() == self.node_count_spec(),
            r@.map_values(|s: String| s@) == self.names_view(),
    {
        let end: usize = self.names.len();
        let mut out: Vec<String> = Vec::new();
        let mut k: usize = 0;
        while k < end
            invariant
                end == self.names.len(),
                k <= end,
                out@.len() == k,
                forall|m: int| 0 <= m < k ==> #[trigger] out@[m] == self.names@[m],
            decreases end - k,
        {
            out.push(self.names[k].clone());
            k += 1;
        }
        proof {
            assert(out@ =~= self.names@);
        }
        out
    }
}

/// Whether `x` occurs in `row`.
fn row_contains(row: &Vec<usize>, x: usize) -> (r: bool)
    ensures
        r == row@.contains(x),
{
    let end: usize = row.len();
    let mut k: usize = 0;
    while k < end
        invariant
            end == row.len(),
            k <= end,
            forall|m: int| 0 <= m < k ==> row@[m] != x,
        decreases end - k,
    {
        if row[k] == x {
            return true;
        }
        k += 1;
    }
    proof {
        if row@.contains(x) {
            let m = choose|m: int| 0 <= m < row@.len() && row@[m] == x;
            assert(row@[m] != x);
        }
    }
    false
}

/// A graph whose nodes and rows extend another's (as `ensure_node` leaves
/// them) keeps every old node at its old index, with its old row.
proof fn lemma_extend_preserves(g0: Graph, g1: Graph)
    requires
        g0.wf(),
        g1.wf(),
        g0.names_view().is_prefix_of(g1.names_view()),
        g0.rows().is_prefix_of(g1.rows()),
    ensures
        forall|x: Seq<char>| #[trigger] g0.contains_node(x) ==> g1.contains_node(x) && g1.idx_of(
            x,
        ) == g0.idx_of(x),
        forall|x: int, y: int| #[trigger] g0.iedge(x, y) ==> g1.iedge(x, y),
{
    assert forall|x: Seq<char>| #[trigger] g0.contains_node(x) implies g1.contains_node(x)
        && g1.idx_of(x) == g0.idx_of(x) by {
        let ix = g0.idx_of(x);
        assert(0 <= ix < g0.n() && g0.names_view()[ix] == x);
        assert(g1.names_view()[ix] == x);
        g1.lemma_idx_of(ix);
    }
    assert forall|x: int, y: int| #[trigger] g0.iedge(x, y) implies g1.iedge(x, y) by {
        assert(g1.rows()[x] == g0.rows()[x]);
    }
}

} // verus!
