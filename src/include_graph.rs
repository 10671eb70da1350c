//! The include relation of a forest of header trees as a graph over distinct
//! header names, and the headers a consumer of the library has to include.
use vstd::prelude::*;

use crate::header::{parent_of, Entry, TreeNode, forest_view};
use crate::header::{direct_sys_headers, get_included_sys_header};
use crate::text::{insert_sorted, lemma_lex_irreflexive, lex_lt, starts_with, strictly_sorted, views};

verus! {

/// Entry `k` of tree `ti` of `f` is named `n`.
pub open spec fn occurs(f: Seq<Seq<Entry>>, n: Seq<char>, ti: int, k: int) -> bool {
    0 <= ti < f.len() && 0 <= k < f[ti].len() && f[ti][k].1 == n
}

/// `n` names some node of the forest.
pub open spec fn in_forest(f: Seq<Seq<Entry>>, n: Seq<char>) -> bool {
    exists|ti: int, k: int| occurs(f, n, ti, k)
}

/// `n` names a node that some other node of the forest includes.
pub open spec fn included_in_forest(f: Seq<Seq<Entry>>, n: Seq<char>) -> bool {
    exists|ti: int, k: int| 1 <= k && occurs(f, n, ti, k)
}

/// Some node named `a` directly includes a node named `b`.
pub open spec fn includes(f: Seq<Seq<Entry>>, a: Seq<char>, b: Seq<char>) -> bool {
    exists|ti: int, j: int| 1 <= j && occurs(f, b, ti, j) && #[trigger] f[ti][parent_of(f[ti], j)].1 == a
}

/// A header that no header of the forest includes.
pub open spec fn is_independent(f: Seq<Seq<Entry>>, n: Seq<char>) -> bool {
    in_forest(f, n) && !included_in_forest(f, n)
}

/// The inclusion that entry `j` of tree `ti` stands for: its parent's name
/// and its own.
pub open spec fn edge_of(f: Seq<Seq<Entry>>, ti: int, j: int) -> (Seq<char>, Seq<char>) {
    (f[ti][parent_of(f[ti], j)].1, f[ti][j].1)
}

/// `n` occurs in the walk of the forest before position (ti, k).
pub open spec fn seen_before(f: Seq<Seq<Entry>>, n: Seq<char>, ti: int, k: int) -> bool {
    exists|t: int, j: int| before(t, j, ti, k) && occurs(f, n, t, j)
}

/// `a` occurs in the walk of the forest before every occurrence of `b`.
pub open spec fn first_seen_before(f: Seq<Seq<Entry>>, a: Seq<char>, b: Seq<char>) -> bool {
    exists|t: int, j: int|
        occurs(f, a, t, j) && forall|t2: int, j2: int| #[trigger] occurs(f, b, t2, j2) ==> before(t, j, t2, j2)
}

/// Position (ti, k) comes before position (ti2, k2) in the walk of the forest.
pub open spec fn before(ti: int, k: int, ti2: int, k2: int) -> bool {
    ti < ti2 || (ti == ti2 && k < k2)
}

/// The include relation over distinct header names: node `i` stands for
/// `names[i]`, `edges[i]` lists the nodes it includes, and `included[i]`
/// tells whether some header includes it.
pub struct IncludeGraph {
    pub names: Vec<String>,
    pub edges: Vec<Vec<usize>>,
    pub included: Vec<bool>,
}

impl IncludeGraph {
    /// Some node is named `n`.
    pub open spec fn has_name(&self, n: Seq<char>) -> bool {
        exists|i: int| 0 <= i < self.names@.len() && self.name(i) == n
    }

    /// Some node named `n` is marked as included.
    pub open spec fn has_included(&self, n: Seq<char>) -> bool {
        exists|i: int| 0 <= i < self.names@.len() && self.name(i) == n && self.included@[i]
    }

    /// Some node named `e.0` has an edge to a node named `e.1`.
    pub open spec fn has_edge(&self, e: (Seq<char>, Seq<char>)) -> bool {
        exists|i: int, x: int|
            0 <= i < self.names@.len() && 0 <= x < self.edges@[i]@.len() && self.name(i) == e.0 && self.name(
                self.edges@[i]@[x] as int,
            ) == e.1
    }

    /// The adjacency lists.
    pub open spec fn adj(&self) -> Seq<Seq<usize>> {
        self.edges@.map_values(|v: Vec<usize>| v@)
    }

    /// The name of node `i`.
    pub open spec fn name(&self, i: int) -> Seq<char> {
        self.names@[i]@
    }

    /// Sizes agree, names are distinct and edges stay inside the graph.
    pub open spec fn well_formed(&self) -> bool {
        &&& self.edges@.len() == self.names@.len()
        &&& self.included@.len() == self.names@.len()
        &&& forall|i: int, j: int|
            0 <= i < j < self.names@.len() ==> #[trigger] self.name(i) != #[trigger] self.name(j)
        &&& forall|i: int, x: int|
            0 <= i < self.names@.len() && 0 <= x < self.edges@[i]@.len() ==> #[trigger] self.edges@[i]@[x]
                < self.names@.len()
    }

    /// The graph is that of forest `f`: its names are exactly the forest's,
    /// in the order they first occur in the walk of the forest, `included`
    /// marks exactly the included ones, each edge is an inclusion of the
    /// forest, and each inclusion is an edge.
    pub open spec fn represents(&self, f: Seq<Seq<Entry>>) -> bool {
        &&& self.well_formed()
        &&& forall|i: int, j: int|
            0 <= i < j < self.names@.len() ==> #[trigger] first_seen_before(f, self.name(i), self.name(j))
        &&& forall|ti: int, j: int|
            0 <= ti < f.len() && 1 <= j < f[ti].len() ==> #[trigger] self.has_edge(edge_of(f, ti, j))
        &&& forall|i: int| 0 <= i < self.names@.len() ==> in_forest(f, #[trigger] self.name(i))
        &&& forall|n: Seq<char>| #[trigger] in_forest(f, n) ==> exists|i: int|
            0 <= i < self.names@.len() && self.name(i) == n
        &&& forall|i: int|
            0 <= i < self.names@.len() ==> (#[trigger] self.included@[i] <==> included_in_forest(
                f,
                self.name(i),
            ))
        &&& forall|i: int, x: int|
            0 <= i < self.names@.len() && 0 <= x < self.edges@[i]@.len() ==> includes(
                f,
                self.name(i),
                self.name(#[trigger] self.edges@[i]@[x] as int),
            )
    }

    /// The node named `n`, added if there is none yet.
    fn intern(&mut self, n: &String) -> (r: usize)
        requires
            old(self).well_formed(),
        ensures
            final(self).well_formed(),
            r < final(self).names@.len(),
            final(self).name(r as int) == n@,
            old(self).names@.len() <= final(self).names@.len() <= old(self).names@.len() + 1,
            forall|i: int| 0 <= i < old(self).names@.len() ==> #[trigger] final(self).names@[i] == old(self).names@[i],
            forall|i: int| 0 <= i < old(self).names@.len() ==> #[trigger] final(self).edges@[i] == old(self).edges@[i],
            forall|i: int| 0 <= i < old(self).names@.len() ==> #[trigger] final(self).included@[i] == old(self).included@[i],
            final(self).names@.len() == old(self).names@.len() + 1 ==> {
                &&& final(self).edges@[r as int]@.len() == 0
                &&& !final(self).included@[r as int]
                &&& r == old(self).names@.len()
                &&& forall|i: int| 0 <= i < old(self).names@.len() ==> old(self).name(i) != n@
            },
    {
        let len = self.names.len();
        let mut i: usize = 0;
        while i < len
            invariant
                len == self.names@.len(),
                *self == *old(self),
                old(self).well_formed(),
                i <= len,
                forall|j: int| 0 <= j < i ==> self.name(j) != n@,
            decreases len - i,
        {
            if self.names[i] == *n {
                return i;
            }
            i += 1;
        }
        self.names.push(n.clone());
        self.edges.push(Vec::new());
        self.included.push(false);
        assert forall|a: int, b: int|
            0 <= a < b < self.names@.len() implies #[trigger] self.name(a) != #[trigger] self.name(b) by {
            assert(self.name(a) == old(self).name(a));
            if b < len {
                assert(self.name(b) == old(self).name(b));
            } else {
                assert(self.name(b) == n@);
            }
        }
        assert forall|a: int, x: int|
            0 <= a < self.names@.len() && 0 <= x < self.edges@[a]@.len() implies #[trigger] self.edges@[a]@[x]
                < self.names@.len() by {
            if a < len {
                assert(self.edges@[a] == old(self).edges@[a]);
            }
        }
        len
    }
}


impl IncludeGraph {
    /// The include graph of a forest of header trees.
    pub fn from_trees(trees: &Vec<TreeNode>) -> (g: IncludeGraph)
        requires
            forall|i: int| 0 <= i < trees@.len() ==> #[trigger] trees@[i].well_formed(),
        ensures
            g.represents(forest_view(trees@)),
    {
        let ghost f = forest_view(trees@);
        let mut g = IncludeGraph { names: Vec::new(), edges: Vec::new(), included: Vec::new() };
        let mut ti: usize = 0;
        while ti < trees.len()
            invariant
                f == forest_view(trees@),
                f.len() == trees@.len(),
                forall|i: int| 0 <= i < trees@.len() ==> #[trigger] trees@[i].well_formed(),
                ti <= trees@.len(),
                g.well_formed(),
                forall|i: int| 0 <= i < g.names@.len() ==> seen_before(f, #[trigger] g.name(i), ti as int, 0),
                forall|i: int, j: int|
                    0 <= i < j < g.names@.len() ==> #[trigger] first_seen_before(f, g.name(i), g.name(j)),
                forall|t2: int, k2: int|
                    0 <= t2 && before(t2, k2, ti as int, 0) && 1 <= k2 < f[t2].len() ==> #[trigger] g.has_edge(edge_of(f, t2, k2)),
                forall|t2: int, k2: int|
                    0 <= t2 < ti && 0 <= k2 < f[t2].len() ==> g.has_name(#[trigger] f[t2][k2].1),
                forall|i: int|
                    0 <= i < g.names@.len() && #[trigger] g.included@[i] ==> included_in_forest(f, g.name(i)),
                forall|t2: int, k2: int|
                    0 <= t2 < ti && 1 <= k2 < f[t2].len() ==> g.has_included(#[trigger] f[t2][k2].1),
                forall|i: int, x: int|
                    0 <= i < g.names@.len() && 0 <= x < g.edges@[i]@.len() ==> includes(
                        f,
                        g.name(i),
                        g.name(#[trigger] g.edges@[i]@[x] as int),
                    ),
            decreases trees@.len() - ti,
        {
            let tree = &trees[ti];
            assert(f[ti as int] == tree@);
            let parents = tree.parent_indices();
            let n = tree.size();
            let mut idxs: Vec<usize> = Vec::new();
            let mut k: usize = 0;
            while k < n
                invariant
                    f == forest_view(trees@),
                    f.len() == trees@.len(),
                    ti < trees@.len(),
                    f[ti as int] == tree@,
                    tree == &trees@[ti as int],
                    tree.well_formed(),
                    n == tree@.len(),
                    parents@.len() == n,
                    forall|j: int| 1 <= j < n ==> {
                        &&& #[trigger] parents@[j] as int == parent_of(tree@, j)
                        &&& parents@[j] < j
                    },
                    k <= n,
                    idxs@.len() == k,
                    forall|j: int| 0 <= j < k ==> {
                        &&& #[trigger] idxs@[j] < g.names@.len()
                        &&& g.name(idxs@[j] as int) == tree@[j].1
                    },
                    g.well_formed(),
                    forall|i: int| 0 <= i < g.names@.len() ==> seen_before(f, #[trigger] g.name(i), ti as int, k as int),
                    forall|i: int, j: int|
                        0 <= i < j < g.names@.len() ==> #[trigger] first_seen_before(f, g.name(i), g.name(j)),
                    forall|t2: int, k2: int|
                        0 <= t2 && before(t2, k2, ti as int, k as int) && 1 <= k2 < f[t2].len() ==> #[trigger] g.has_edge(edge_of(f, t2, k2)),
                    forall|t2: int, k2: int|
                        0 <= t2 < ti && 0 <= k2 < f[t2].len() ==> g.has_name(#[trigger] f[t2][k2].1),
                    forall|i: int|
                        0 <= i < g.names@.len() && #[trigger] g.included@[i] ==> included_in_forest(f, g.name(i)),
                    forall|t2: int, k2: int|
                        0 <= t2 < ti && 1 <= k2 < f[t2].len() ==> g.has_included(#[trigger] f[t2][k2].1),
                    forall|j: int| 1 <= j < k ==> #[trigger] g.included@[idxs@[j] as int],
                    forall|i: int, x: int|
                        0 <= i < g.names@.len() && 0 <= x < g.edges@[i]@.len() ==> includes(
                            f,
                            g.name(i),
                            g.name(#[trigger] g.edges@[i]@[x] as int),
                        ),
                decreases n - k,
            {
                let ghost g0 = g;
                let name = tree.name_at(k);
                let idx = g.intern(name);
                assert(occurs(f, g.name(idx as int), ti as int, k as int));
                assert forall|i: int| 0 <= i < g.names@.len() implies seen_before(f, #[trigger] g.name(i), ti as int, k + 1) by {
                    if i < g0.names@.len() {
                        assert(g.name(i) == g0.name(i));
                        assert(seen_before(f, g0.name(i), ti as int, k as int));
                        let (t, j) = choose|t: int, j: int| before(t, j, ti as int, k as int) && occurs(f, g0.name(i), t, j);
                        assert(before(t, j, ti as int, k + 1));
                    } else {
                        assert(before(ti as int, k as int, ti as int, k + 1));
                    }
                }
                proof {
                    if g.names@.len() > g0.names@.len() {
                        // the new name occurs nowhere before the current position
                        assert forall|t2: int, k2: int| #[trigger] occurs(f, name@, t2, k2) implies !before(t2, k2, ti as int, k as int) by {
                            if before(t2, k2, ti as int, k as int) {
                                if t2 < ti {
                                    assert(g0.has_name(f[t2][k2].1));
                                    let i = choose|i: int| 0 <= i < g0.names@.len() && g0.name(i) == f[t2][k2].1;
                                } else {
                                    assert(g0.name(idxs@[k2] as int) == tree@[k2].1);
                                }
                            }
                        }
                    }
                    assert forall|i: int, j: int|
                        0 <= i < j < g.names@.len() implies #[trigger] first_seen_before(f, g.name(i), g.name(j)) by {
                        assert(g.name(i) == g0.name(i));
                        if j < g0.names@.len() {
                            assert(g.name(j) == g0.name(j));
                            assert(first_seen_before(f, g0.name(i), g0.name(j)));
                        } else {
                            assert(g.name(j) == name@);
                            assert(seen_before(f, g0.name(i), ti as int, k as int));
                            let (t, tj) = choose|t: int, tj: int| before(t, tj, ti as int, k as int) && occurs(f, g0.name(i), t, tj);
                            assert forall|t2: int, j2: int| #[trigger] occurs(f, g.name(j), t2, j2) implies before(t, tj, t2, j2) by {
                                assert(!before(t2, j2, ti as int, k as int));
                            }
                        }
                    }
                    assert forall|t2: int, k2: int|
                        0 <= t2 && before(t2, k2, ti as int, k as int) && 1 <= k2 < f[t2].len() implies #[trigger] g.has_edge(edge_of(f, t2, k2)) by {
                        assert(g0.has_edge(edge_of(f, t2, k2)));
                        let (i, x) = choose|i: int, x: int|
                            0 <= i < g0.names@.len() && 0 <= x < g0.edges@[i]@.len() && g0.name(i) == edge_of(f, t2, k2).0
                                && g0.name(g0.edges@[i]@[x] as int) == edge_of(f, t2, k2).1;
                        assert(g.edges@[i] == g0.edges@[i]);
                        assert(g.name(i) == g0.name(i));
                        assert(g.name(g.edges@[i]@[x] as int) == g0.name(g0.edges@[i]@[x] as int));
                    }
                }
                assert forall|t2: int, k2: int|
                    0 <= t2 < ti && 0 <= k2 < f[t2].len() implies g.has_name(#[trigger] f[t2][k2].1) by {
                    let i = choose|i: int| 0 <= i < g0.names@.len() && g0.name(i) == f[t2][k2].1;
                    assert(g.name(i) == g0.name(i));
                }
                assert forall|t2: int, k2: int|
                    0 <= t2 < ti && 1 <= k2 < f[t2].len() implies g.has_included(#[trigger] f[t2][k2].1) by {
                    let i = choose|i: int|
                        0 <= i < g0.names@.len() && g0.name(i) == f[t2][k2].1 && g0.included@[i];
                    assert(g.name(i) == g0.name(i));
                }
                assert forall|i: int, x: int|
                    0 <= i < g.names@.len() && 0 <= x < g.edges@[i]@.len() implies includes(
                        f,
                        g.name(i),
                        g.name(#[trigger] g.edges@[i]@[x] as int),
                    ) by {
                    assert(i < g0.names@.len());
                    assert(g.edges@[i] == g0.edges@[i]);
                    assert(g.name(i) == g0.name(i));
                    assert(g.name(g.edges@[i]@[x] as int) == g0.name(g0.edges@[i]@[x] as int));
                }
                idxs.push(idx);
                if k >= 1 {
                    let pk = parents[k];
                    let pi = idxs[pk];
                    let ghost g1 = g;
                    assert(includes(f, g.name(pi as int), g.name(idx as int))) by {
                        assert(occurs(f, g.name(idx as int), ti as int, k as int));
                        assert(f[ti as int][parent_of(f[ti as int], k as int)].1 == g.name(pi as int));
                    }
                    let mut row: Vec<usize> = Vec::new();
                    std::mem::swap(&mut row, &mut g.edges[pi]);
                    row.push(idx);
                    g.edges.set(pi, row);
                    g.included.set(idx, true);
                    assert forall|a: int, b: int|
                        0 <= a < b < g.names@.len() implies #[trigger] g.name(a) != #[trigger] g.name(b) by {
                        assert(g.name(a) == g1.name(a));
                        assert(g.name(b) == g1.name(b));
                    }
                    assert forall|i: int, x: int|
                        0 <= i < g.names@.len() && 0 <= x < g.edges@[i]@.len() implies #[trigger] g.edges@[i]@[x]
                            < g.names@.len() && includes(f, g.name(i), g.name(g.edges@[i]@[x] as int)) by {
                        if i != pi || x < g1.edges@[i]@.len() {
                            assert(g.edges@[i]@[x] == g1.edges@[i]@[x]);
                        }
                    }
                    assert forall|i: int|
                        0 <= i < g.names@.len() && #[trigger] g.included@[i] implies included_in_forest(f, g.name(i)) by {
                        assert(g.name(i) == g1.name(i));
                        if i == idx {
                            assert(occurs(f, g.name(i), ti as int, k as int));
                        }
                    }
                    assert forall|i: int| 0 <= i < g.names@.len() implies seen_before(f, #[trigger] g.name(i), ti as int, k + 1) by {
                        assert(g.name(i) == g1.name(i));
                    }
                    assert forall|i: int, j: int|
                        0 <= i < j < g.names@.len() implies #[trigger] first_seen_before(f, g.name(i), g.name(j)) by {
                        assert(g.name(i) == g1.name(i));
                        assert(g.name(j) == g1.name(j));
                    }
                    assert forall|t2: int, k2: int|
                        0 <= t2 && before(t2, k2, ti as int, k + 1) && 1 <= k2 < f[t2].len() implies #[trigger] g.has_edge(edge_of(f, t2, k2)) by {
                        if t2 == ti && k2 == k {
                            assert(g.edges@[pi as int]@[g1.edges@[pi as int]@.len() as int] == idx);
                            assert(g.name(pi as int) == f[ti as int][parent_of(f[ti as int], k as int)].1);
                            assert(g.name(idx as int) == f[ti as int][k as int].1);
                        } else {
                            assert(g1.has_edge(edge_of(f, t2, k2)));
                            let (i, x) = choose|i: int, x: int|
                                0 <= i < g1.names@.len() && 0 <= x < g1.edges@[i]@.len() && g1.name(i) == edge_of(f, t2, k2).0
                                    && g1.name(g1.edges@[i]@[x] as int) == edge_of(f, t2, k2).1;
                            assert(g.edges@[i]@[x] == g1.edges@[i]@[x]);
                            assert(g.name(i) == g1.name(i));
                        }
                    }
                    assert forall|t2: int, k2: int|
                        0 <= t2 < ti && 0 <= k2 < f[t2].len() implies g.has_name(#[trigger] f[t2][k2].1) by {
                        let i = choose|i: int| 0 <= i < g1.names@.len() && g1.name(i) == f[t2][k2].1;
                        assert(g.name(i) == g1.name(i));
                    }
                    assert forall|t2: int, k2: int|
                        0 <= t2 < ti && 1 <= k2 < f[t2].len() implies g.has_included(#[trigger] f[t2][k2].1) by {
                        let i = choose|i: int|
                            0 <= i < g1.names@.len() && g1.name(i) == f[t2][k2].1 && g1.included@[i];
                        assert(g.name(i) == g1.name(i));
                    }
                    assert forall|j: int| 0 <= j < k + 1 implies {
                        &&& #[trigger] idxs@[j] < g.names@.len()
                        &&& g.name(idxs@[j] as int) == tree@[j].1
                    } by {
                        assert(g.name(idxs@[j] as int) == g1.name(idxs@[j] as int));
                    }
                }
                k += 1;
            }
            assert forall|k2: int| 0 <= k2 < f[ti as int].len() implies g.has_name(#[trigger] f[ti as int][k2].1) by {
                assert(g.name(idxs@[k2] as int) == f[ti as int][k2].1);
            }
            assert forall|k2: int| 1 <= k2 < f[ti as int].len() implies g.has_included(#[trigger] f[ti as int][k2].1) by {
                assert(g.name(idxs@[k2] as int) == f[ti as int][k2].1);
            }
            ti += 1;
        }
        assert forall|n: Seq<char>| #[trigger] in_forest(f, n) implies exists|i: int|
            0 <= i < g.names@.len() && g.name(i) == n by {
            let (t2, k2) = choose|t2: int, k2: int| occurs(f, n, t2, k2);
            assert(f[t2][k2].1 == n);
        }
        assert forall|i: int|
            0 <= i < g.names@.len() implies (#[trigger] g.included@[i] <==> included_in_forest(f, g.name(i))) by {
            if included_in_forest(f, g.name(i)) {
                let (t2, k2) = choose|t2: int, k2: int| 1 <= k2 && occurs(f, g.name(i), t2, k2);
                let i2 = choose|i2: int|
                    0 <= i2 < g.names@.len() && g.name(i2) == f[t2][k2].1 && g.included@[i2];
                if i2 != i {
                    if i < i2 {
                        assert(g.name(i) != g.name(i2));
                    } else {
                        assert(g.name(i2) != g.name(i));
                    }
                }
            }
        }
        g
    }
}

/// `p` is a walk along the edges of `adj`.
pub open spec fn is_path(adj: Seq<Seq<usize>>, p: Seq<int>) -> bool {
    &&& p.len() >= 1
    &&& forall|i: int| 0 <= i < p.len() ==> 0 <= #[trigger] p[i] < adj.len()
    &&& forall|i: int| 0 < i < p.len() ==> adj[p[i - 1]].contains(#[trigger] p[i] as usize)
}

/// Node `b` can be reached from node `a` along the edges of `adj`.
pub open spec fn reaches(adj: Seq<Seq<usize>>, a: int, b: int) -> bool {
    exists|p: Seq<int>| is_path(adj, p) && p[0] == a && p.last() == b
}

/// Header `b` is included, directly or through other headers, by header `a`
/// (every header counts as reaching itself).
pub open spec fn name_reaches(f: Seq<Seq<Entry>>, a: Seq<char>, b: Seq<char>) -> bool {
    exists|p: Seq<Seq<char>>|
        p.len() >= 1 && p[0] == a && p.last() == b && forall|i: int|
            0 <= i < p.len() - 1 ==> includes(f, #[trigger] p[i], p[i + 1])
}

/// Number of `true` entries.
pub open spec fn count_true(s: Seq<bool>) -> nat
    decreases s.len(),
{
    if s.len() == 0 {
        0
    } else {
        count_true(s.drop_last()) + if s.last() {
            1nat
        } else {
            0nat
        }
    }
}

proof fn lemma_count_bounded(s: Seq<bool>)
    ensures
        count_true(s) <= s.len(),
    decreases s.len(),
{
    if s.len() > 0 {
        lemma_count_bounded(s.drop_last());
    }
}

proof fn lemma_count_grows(a: Seq<bool>, b: Seq<bool>)
    requires
        a.len() == b.len(),
        forall|i: int| 0 <= i < a.len() && #[trigger] a[i] ==> b[i],
    ensures
        count_true(a) <= count_true(b),
        (exists|j: int| 0 <= j < a.len() && !a[j] && #[trigger] b[j]) ==> count_true(a) < count_true(b),
    decreases a.len(),
{
    if a.len() > 0 {
        let a0 = a.drop_last();
        let b0 = b.drop_last();
        assert forall|i: int| 0 <= i < a0.len() && #[trigger] a0[i] implies b0[i] by {
            assert(a[i]);
        }
        lemma_count_grows(a0, b0);
        if exists|j: int| 0 <= j < a.len() && !a[j] && #[trigger] b[j] {
            let j = choose|j: int| 0 <= j < a.len() && !a[j] && #[trigger] b[j];
            if j < a0.len() {
                assert(!a0[j] && b0[j]);
            }
        }
    }
}

/// A set of nodes closed under the edges holds every node on a walk from a
/// member.
proof fn lemma_closed_holds_path(adj: Seq<Seq<usize>>, set: Seq<bool>, p: Seq<int>, k: int)
    requires
        is_path(adj, p),
        adj.len() <= usize::MAX,
        set.len() == adj.len(),
        set[p[0]],
        forall|j: int, x: int|
            0 <= j < adj.len() && set[j] && 0 <= x < adj[j].len() ==> #[trigger] set[adj[j][x] as int],
        0 <= k < p.len(),
    ensures
        set[p[k]],
    decreases k,
{
    if k > 0 {
        lemma_closed_holds_path(adj, set, p, k - 1);
        assert(0 <= p[k - 1] < adj.len());
        assert(adj[p[k - 1]].contains(p[k] as usize));
        let x = choose|x: int| 0 <= x < adj[p[k - 1]].len() && #[trigger] adj[p[k - 1]][x] == p[k] as usize;
        assert(set[adj[p[k - 1]][x] as int]);
        assert(0 <= p[k] < adj.len());
        assert((p[k] as usize) as int == p[k]);
    }
}

/// The nodes reachable from `start`.
fn get_reachable_nodes(g: &IncludeGraph, start: usize) -> (r: Vec<bool>)
    requires
        g.well_formed(),
        start < g.names@.len(),
    ensures
        r@.len() == g.names@.len(),
        forall|j: int| 0 <= j < r@.len() ==> (#[trigger] r@[j] <==> reaches(g.adj(), start as int, j)),
{
    let n = g.names.len();
    let ghost adj = g.adj();
    let mut visited: Vec<bool> = Vec::new();
    let mut i: usize = 0;
    while i < n
        invariant
            n == g.names@.len(),
            i <= n,
            visited@.len() == i,
            forall|j: int| 0 <= j < i ==> !#[trigger] visited@[j],
        decreases n - i,
    {
        visited.push(false);
        i += 1;
    }
    visited.set(start, true);
    let ghost w = seq![start as int];
    assert(is_path(adj, w) && w[0] == start as int && w.last() == start as int);
    assert(reaches(adj, start as int, start as int));
    assert forall|j: int| 0 <= j < n && #[trigger] visited@[j] implies reaches(adj, start as int, j) by {
        assert(j == start as int);
    }
    let mut work: Vec<usize> = vec![start];
    proof {
        lemma_count_bounded(visited@);
    }
    while work.len() > 0
        invariant
            n == g.names@.len(),
            g.well_formed(),
            adj == g.adj(),
            adj.len() == n,
            visited@.len() == n,
            visited@[start as int],
            forall|j: int| 0 <= j < n && #[trigger] visited@[j] ==> reaches(adj, start as int, j),
            forall|x: int| 0 <= x < work@.len() ==> #[trigger] work@[x] < n && visited@[work@[x] as int],
            forall|j: int, x: int|
                0 <= j < n && visited@[j] && !work@.contains(j as usize) && 0 <= x < adj[j].len()
                    ==> #[trigger] visited@[adj[j][x] as int],
            count_true(visited@) <= n,
        decreases n - count_true(visited@), work@.len(),
    {
        let ghost v0 = visited@;
        let ghost w0 = work@;
        let x = work.pop().unwrap();
        assert(work@ == w0.drop_last());
        let row = &g.edges[x];
        assert(row@ == adj[x as int]);
        let mut c: usize = 0;
        while c < row.len()
            invariant
                n == g.names@.len(),
                g.well_formed(),
                adj == g.adj(),
                adj.len() == n,
                row@ == adj[x as int],
                x < n,
                c <= row@.len(),
                visited@.len() == n,
                visited@[start as int],
                visited@[x as int],
                v0.len() == n,
                forall|j: int| 0 <= j < n && v0[j] ==> #[trigger] visited@[j],
                forall|j: int| 0 <= j < n && #[trigger] visited@[j] ==> reaches(adj, start as int, j),
                forall|y: int| 0 <= y < work@.len() ==> #[trigger] work@[y] < n && visited@[work@[y] as int],
                forall|y: int| 0 <= y < w0.len() - 1 ==> #[trigger] work@[y] == w0[y],
                work@.len() >= w0.len() - 1,
                forall|y: int| 0 <= y < c ==> #[trigger] visited@[row@[y] as int],
                forall|j: int| 0 <= j < n && visited@[j] && !v0[j] ==> #[trigger] work@.contains(j as usize),
                work@.len() > w0.len() - 1 ==> exists|j: int| 0 <= j < n && !v0[j] && #[trigger] visited@[j],
            decreases row@.len() - c,
        {
            let y = row[c];
            assert(y < n);
            if !visited[y] {
                proof {
                    let p = choose|p: Seq<int>| is_path(adj, p) && p[0] == start as int && p.last() == x as int;
                    let q = p.push(y as int);
                    assert(adj[q[p.len() - 1]].contains(q[p.len() as int] as usize)) by {
                        assert(adj[x as int][c as int] == y);
                    }
                    assert forall|i: int| 0 < i < q.len() implies adj[q[i - 1]].contains(#[trigger] q[i] as usize) by {
                        if i < p.len() {
                            assert(q[i - 1] == p[i - 1] && q[i] == p[i]);
                        }
                    }
                    assert(is_path(adj, q));
                    assert(q[0] == start as int && q.last() == y as int);
                    assert(reaches(adj, start as int, y as int));
                }
                let ghost vb = visited@;
                let ghost wb = work@;
                visited.set(y, true);
                work.push(y);
                assert(!v0[y as int]);
                assert(visited@[y as int]);
                assert forall|j: int| 0 <= j < n && #[trigger] visited@[j] implies reaches(adj, start as int, j) by {
                    if j != y as int {
                        assert(vb[j]);
                    }
                }
                assert forall|j: int| 0 <= j < n && visited@[j] && !v0[j] implies #[trigger] work@.contains(j as usize) by {
                    if j != y {
                        assert(wb.contains(j as usize));
                        let k = choose|k: int| 0 <= k < wb.len() && wb[k] == j as usize;
                        assert(work@[k] == j as usize);
                    } else {
                        assert(work@[wb.len() as int] == y);
                    }
                }
            }
            c += 1;
        }
        proof {
            lemma_count_grows(v0, visited@);
            lemma_count_bounded(visited@);
            assert forall|j: int, z: int|
                0 <= j < n && visited@[j] && !work@.contains(j as usize) && 0 <= z < adj[j].len()
                    implies #[trigger] visited@[adj[j][z] as int] by {
                if j == x as int {
                    assert(visited@[row@[z] as int]);
                } else if v0[j] {
                    if w0.contains(j as usize) {
                        let k = choose|k: int| 0 <= k < w0.len() && w0[k] == j as usize;
                        if k < w0.len() - 1 {
                            assert(work@[k] == j as usize);
                        }
                    }
                }
            }
        }
    }
    proof {
        assert forall|j: int| 0 <= j < n implies (#[trigger] visited@[j] <==> reaches(adj, start as int, j)) by {
            if reaches(adj, start as int, j) {
                let p = choose|p: Seq<int>| is_path(adj, p) && p[0] == start as int && p.last() == j;
                assert forall|a: int, z: int|
                    0 <= a < adj.len() && visited@[a] && 0 <= z < adj[a].len() implies #[trigger] visited@[adj[a][z] as int] by {
                    assert(!work@.contains(a as usize));
                }
                lemma_closed_holds_path(adj, visited@, p, p.len() - 1);
            }
        }
    }
    visited
}

/// Node `j` is reachable from some node of `sel`.
pub open spec fn reached_from(adj: Seq<Seq<usize>>, sel: Seq<usize>, j: int) -> bool {
    exists|x: int| 0 <= x < sel.len() && reaches(adj, sel[x] as int, j)
}

/// Every node of the graph is reachable from some node of `sel`.
pub open spec fn covers(adj: Seq<Seq<usize>>, sel: Seq<usize>) -> bool {
    forall|j: int| 0 <= j < adj.len() ==> #[trigger] reached_from(adj, sel, j)
}

/// Number of nodes that node `i` reaches and that the nodes `sel` do not.
pub open spec fn newly_covered(adj: Seq<Seq<usize>>, sel: Seq<usize>, i: int) -> nat {
    count_true(Seq::new(adj.len(), |j: int| reaches(adj, i, j) && !reached_from(adj, sel, j)))
}

/// Node `r[x]` is the greedy pick after `r[0..x]`: it is not covered yet,
/// no uncovered node covers more uncovered nodes, and none that covers as
/// many comes before it.
pub open spec fn is_greedy_choice(adj: Seq<Seq<usize>>, r: Seq<usize>, x: int) -> bool {
    let pre = r.subrange(0, x);
    &&& !reached_from(adj, pre, r[x] as int)
    &&& forall|c: int|
        0 <= c < adj.len() && !reached_from(adj, pre, c) ==> {
            &&& #[trigger] newly_covered(adj, pre, c) <= newly_covered(adj, pre, r[x] as int)
            &&& (newly_covered(adj, pre, c) == newly_covered(adj, pre, r[x] as int) ==> r[x] <= c)
        }
}

/// Greedy set cover of the graph by reachability: repeatedly picks the node
/// whose reachable set holds the most nodes not yet covered, until every
/// node is covered. Ties go to the node that comes first.
pub fn greedy_cover(g: &IncludeGraph) -> (r: Vec<usize>)
    requires
        g.well_formed(),
    ensures
        g.names@.len() >= 1 ==> r@.len() >= 1,
        r@.len() <= g.names@.len(),
        forall|x: int| 0 <= x < r@.len() ==> #[trigger] r@[x] < g.names@.len(),
        forall|x: int, y: int| 0 <= x < y < r@.len() ==> #[trigger] r@[x] != #[trigger] r@[y],
        forall|x: int| 0 <= x < r@.len() ==> #[trigger] is_greedy_choice(g.adj(), r@, x),
        covers(g.adj(), r@),
{
    let n = g.names.len();
    let ghost adj = g.adj();
    let mut covered: Vec<bool> = Vec::new();
    let mut i: usize = 0;
    while i < n
        invariant
            n == g.names@.len(),
            i <= n,
            covered@.len() == i,
            forall|j: int| 0 <= j < i ==> !#[trigger] covered@[j],
        decreases n - i,
    {
        covered.push(false);
        i += 1;
    }
    let mut result: Vec<usize> = Vec::new();
    let mut done = false;
    proof {
        assert(count_true(covered@) == 0) by {
            lemma_count_zero(covered@);
        }
        assert forall|j: int| 0 <= j < n implies (#[trigger] covered@[j] <==> reached_from(adj, result@, j)) by {}
    }
    while !done
        invariant
            n == g.names@.len(),
            g.well_formed(),
            adj == g.adj(),
            adj.len() == n,
            covered@.len() == n,
            forall|j: int| 0 <= j < n ==> (#[trigger] covered@[j] <==> reached_from(adj, result@, j)),
            forall|x: int| 0 <= x < result@.len() ==> #[trigger] result@[x] < n && covered@[result@[x] as int],
            forall|x: int, y: int| 0 <= x < y < result@.len() ==> #[trigger] result@[x] != #[trigger] result@[y],
            forall|x: int| 0 <= x < result@.len() ==> #[trigger] is_greedy_choice(adj, result@, x),
            result@.len() <= count_true(covered@),
            count_true(covered@) <= n,
            done ==> forall|j: int| 0 <= j < n ==> #[trigger] covered@[j],
            n >= 1 && result@.len() == 0 ==> !done,
        decreases n - count_true(covered@) + if done { 0int } else { 1int },
    {
        let mut best: usize = n;
        let mut best_count: usize = 0;
        let mut best_reach: Vec<bool> = Vec::new();
        let mut c: usize = 0;
        while c < n
            invariant
                n == g.names@.len(),
                g.well_formed(),
                adj == g.adj(),
                adj.len() == n,
                covered@.len() == n,
                forall|j: int| 0 <= j < n ==> (#[trigger] covered@[j] <==> reached_from(adj, result@, j)),
                c <= n,
                best <= n,
                best < n ==> {
                    &&& !covered@[best as int]
                    &&& best < c
                    &&& best_reach@.len() == n
                    &&& forall|j: int| 0 <= j < n ==> (#[trigger] best_reach@[j] <==> reaches(adj, best as int, j))
                    &&& best_count == newly_covered(adj, result@, best as int)
                    &&& forall|d: int| 0 <= d < c && !covered@[d] ==> {
                        &&& #[trigger] newly_covered(adj, result@, d) <= best_count
                        &&& (newly_covered(adj, result@, d) == best_count ==> best <= d)
                    }
                },
                best == n ==> forall|j: int| 0 <= j < c ==> #[trigger] covered@[j],
            decreases n - c,
        {
            if !covered[c] {
                let reach = get_reachable_nodes(g, c);
                let mut cnt: usize = 0;
                let mut j: usize = 0;
                while j < n
                    invariant
                        n == g.names@.len(),
                        reach@.len() == n,
                        covered@.len() == n,
                        j <= n,
                        cnt <= j,
                        cnt == count_true(Seq::new(j as nat, |k: int| reach@[k] && !covered@[k])),
                    decreases n - j,
                {
                    let ghost before = Seq::new(j as nat, |k: int| reach@[k] && !covered@[k]);
                    if reach[j] && !covered[j] {
                        cnt += 1;
                    }
                    proof {
                        let after = Seq::new((j + 1) as nat, |k: int| reach@[k] && !covered@[k]);
                        assert(after.drop_last() =~= before);
                    }
                    j += 1;
                }
                proof {
                    assert(Seq::new(n as nat, |k: int| reach@[k] && !covered@[k]) =~= Seq::new(
                        adj.len(),
                        |k: int| reaches(adj, c as int, k) && !reached_from(adj, result@, k),
                    ));
                }
                if best == n || cnt > best_count {
                    best = c;
                    best_count = cnt;
                    best_reach = reach;
                }
            }
            c += 1;
        }
        if best == n {
            done = true;
        } else {
            let ghost c0 = covered@;
            let ghost r0 = result@;
            assert(best_reach@[best as int]) by {
                let w = seq![best as int];
                assert(is_path(adj, w) && w[0] == best as int && w.last() == best as int);
            }
            let mut j: usize = 0;
            while j < n
                invariant
                    n == g.names@.len(),
                    best_reach@.len() == n,
                    covered@.len() == n,
                    c0.len() == n,
                    best < n,
                    j <= n,
                    forall|k: int| 0 <= k < j ==> #[trigger] covered@[k] == (c0[k] || best_reach@[k]),
                    forall|k: int| j <= k < n ==> #[trigger] covered@[k] == c0[k],
                decreases n - j,
            {
                if best_reach[j] {
                    covered.set(j, true);
                }
                j += 1;
            }
            result.push(best);
            proof {
                assert(!c0[best as int] && covered@[best as int]);
                lemma_count_grows(c0, covered@);
                lemma_count_bounded(covered@);
                assert(result@.subrange(0, r0.len() as int) =~= r0);
                assert forall|k: int| 0 <= k < n implies (#[trigger] covered@[k] <==> reached_from(adj, result@, k)) by {
                    if covered@[k] {
                        if c0[k] {
                            let x = choose|x: int| 0 <= x < r0.len() && reaches(adj, r0[x] as int, k);
                            assert(result@[x] == r0[x]);
                        } else {
                            assert(reaches(adj, best as int, k));
                            assert(result@[r0.len() as int] == best);
                        }
                    }
                    if reached_from(adj, result@, k) {
                        let x = choose|x: int| 0 <= x < result@.len() && reaches(adj, result@[x] as int, k);
                        if x < r0.len() {
                            assert(result@[x] == r0[x]);
                            assert(reached_from(adj, r0, k));
                        } else {
                            assert(best_reach@[k]);
                        }
                    }
                }
                assert forall|x: int, y: int| 0 <= x < y < result@.len() implies #[trigger] result@[x] != #[trigger] result@[y] by {
                    if y == r0.len() {
                        assert(c0[result@[x] as int]);
                    }
                }
                assert forall|x: int| 0 <= x < result@.len() implies #[trigger] result@[x] < n && covered@[result@[x] as int] by {
                    if x < r0.len() {
                        assert(c0[r0[x] as int]);
                    }
                }
                assert forall|x: int| 0 <= x < result@.len() implies #[trigger] is_greedy_choice(adj, result@, x) by {
                    if x < r0.len() {
                        assert(result@.subrange(0, x) =~= r0.subrange(0, x));
                        assert(result@[x] == r0[x]);
                        assert(is_greedy_choice(adj, r0, x));
                    } else {
                        assert(result@.subrange(0, x) =~= r0);
                        assert(!reached_from(adj, r0, best as int));
                        assert forall|d: int| 0 <= d < adj.len() && !reached_from(adj, r0, d) implies {
                            &&& #[trigger] newly_covered(adj, r0, d) <= newly_covered(adj, r0, best as int)
                            &&& (newly_covered(adj, r0, d) == newly_covered(adj, r0, best as int) ==> best <= d)
                        } by {
                            assert(!c0[d]);
                        }
                    }
                }
            }
        }
    }
    assert forall|j: int| 0 <= j < adj.len() implies #[trigger] reached_from(adj, result@, j) by {
        assert(covered@[j]);
    }
    result
}

proof fn lemma_count_zero(s: Seq<bool>)
    requires
        forall|i: int| 0 <= i < s.len() ==> !#[trigger] s[i],
    ensures
        count_true(s) == 0,
    decreases s.len(),
{
    if s.len() > 0 {
        lemma_count_zero(s.drop_last());
    }
}

/// A walk in the graph of a forest is a chain of inclusions in the forest.
pub proof fn lemma_graph_path_includes(g: IncludeGraph, f: Seq<Seq<Entry>>, a: int, b: int)
    requires
        g.represents(f),
        reaches(g.adj(), a, b),
    ensures
        name_reaches(f, g.name(a), g.name(b)),
{
    let adj = g.adj();
    let p = choose|p: Seq<int>| is_path(adj, p) && p[0] == a && p.last() == b;
    let q = p.map_values(|x: int| g.name(x));
    assert forall|i: int| 0 <= i < q.len() - 1 implies includes(f, #[trigger] q[i], q[i + 1]) by {
        assert(0 <= p[i] < adj.len());
        assert(adj[p[i]].contains(p[i + 1] as usize));
        let x = choose|x: int| 0 <= x < adj[p[i]].len() && #[trigger] adj[p[i]][x] == p[i + 1] as usize;
        assert(g.edges@[p[i]]@[x] == p[i + 1] as usize);
        assert(0 <= p[i + 1] < adj.len());
        assert(adj.len() == g.names@.len());
        assert(g.names@.len() == g.names.len());
        assert((p[i + 1] as usize) as int == p[i + 1]);
        assert(includes(f, g.name(p[i]), g.name(g.edges@[p[i]]@[x] as int)));
        assert(q[i] == g.name(p[i]));
        assert(q[i + 1] == g.name(p[i + 1]));
    }
    assert(q[0] == g.name(a));
    assert(q.last() == g.name(b));
}

/// The distinct header names of the forest.
pub open spec fn forest_names(f: Seq<Seq<Entry>>) -> Set<Seq<char>> {
    Set::new(|n: Seq<char>| in_forest(f, n))
}

/// A strictly sorted list of names of the forest is no longer than the
/// forest has distinct names.
proof fn lemma_result_bounded(g: IncludeGraph, f: Seq<Seq<Entry>>, r: Seq<Seq<char>>)
    requires
        g.represents(f),
        strictly_sorted(r),
        forall|t: Seq<char>| #[trigger] r.contains(t) ==> in_forest(f, t),
    ensures
        forest_names(f).finite(),
        forest_names(f).len() == g.names@.len(),
        r.len() <= forest_names(f).len(),
{
    let gv = views(g.names@);
    assert(gv.to_set() =~= forest_names(f)) by {
        assert forall|n: Seq<char>| gv.to_set().contains(n) <==> forest_names(f).contains(n) by {
            if gv.to_set().contains(n) {
                let i = choose|i: int| 0 <= i < gv.len() && gv[i] == n;
                assert(g.name(i) == n);
            }
            if forest_names(f).contains(n) {
                let i = choose|i: int| 0 <= i < g.names@.len() && g.name(i) == n;
                assert(gv[i] == n);
            }
        }
    }
    assert(gv.no_duplicates()) by {
        assert forall|i: int, j: int| 0 <= i < gv.len() && 0 <= j < gv.len() && i != j implies gv[i] != gv[j] by {
            if i < j {
                assert(g.name(i) != g.name(j));
            } else {
                assert(g.name(j) != g.name(i));
            }
        }
    }
    gv.unique_seq_to_set();
    vstd::seq_lib::seq_to_set_is_finite(gv);
    assert(r.no_duplicates()) by {
        assert forall|i: int, j: int| 0 <= i < r.len() && 0 <= j < r.len() && i != j implies r[i] != r[j] by {
            if i < j {
                assert(lex_lt(r[i], r[j]));
                lemma_lex_irreflexive(r[i]);
            } else {
                assert(lex_lt(r[j], r[i]));
                lemma_lex_irreflexive(r[j]);
            }
        }
    }
    r.unique_seq_to_set();
    assert(r.to_set().subset_of(forest_names(f))) by {
        assert forall|t: Seq<char>| r.to_set().contains(t) implies forest_names(f).contains(t) by {
            assert(r.contains(t));
        }
    }
    vstd::set_lib::lemma_len_subset(r.to_set(), forest_names(f));
}

/// `l` names the nodes that the greedy cover `cover` of `g`, the include
/// graph of `f`, picks.
pub open spec fn is_greedy_cover_of(f: Seq<Seq<Entry>>, g: IncludeGraph, cover: Seq<usize>, l: Seq<Seq<char>>) -> bool {
    &&& g.represents(f)
    &&& covers(g.adj(), cover)
    &&& forall|x: int| 0 <= x < cover.len() ==> #[trigger] cover[x] < g.names@.len()
    &&& forall|x: int| 0 <= x < cover.len() ==> #[trigger] is_greedy_choice(g.adj(), cover, x)
    &&& forall|t: Seq<char>| l.contains(t) <==> exists|x: int| 0 <= x < cover.len() && #[trigger] g.name(cover[x] as int) == t
}

/// Some header of the forest is included by no other.
pub open spec fn has_independent(f: Seq<Seq<Entry>>) -> bool {
    exists|n: Seq<char>| is_independent(f, n)
}

/// The headers a consumer of the library should include, sorted and without
/// repetition: those that no other header includes. Where every header is
/// included by another (include cycles), a small set of headers from which,
/// through the include relation, every header of the forest is reached.
pub fn get_independent_headers(trees: &Vec<TreeNode>) -> (r: Vec<String>)
    requires
        forall|i: int| 0 <= i < trees@.len() ==> #[trigger] trees@[i].well_formed(),
    ensures
        strictly_sorted(views(r@)),
        has_independent(forest_view(trees@)) ==> forall|t: Seq<char>|
            views(r@).contains(t) <==> is_independent(forest_view(trees@), t),
        !has_independent(forest_view(trees@)) ==> {
            &&& forall|t: Seq<char>| #[trigger] views(r@).contains(t) ==> in_forest(forest_view(trees@), t)
            &&& forall|n: Seq<char>| #[trigger] in_forest(forest_view(trees@), n) ==> exists|i: int|
                0 <= i < r@.len() && name_reaches(forest_view(trees@), r@[i]@, n)
            &&& (exists|n: Seq<char>| in_forest(forest_view(trees@), n)) ==> r@.len() >= 1
            &&& exists|g: IncludeGraph, cover: Seq<usize>| #[trigger] is_greedy_cover_of(forest_view(trees@), g, cover, views(r@))
        },
        forest_names(forest_view(trees@)).finite(),
        r@.len() <= forest_names(forest_view(trees@)).len(),
        trees@.len() >= 1 ==> r@.len() >= 1,
{
    let ghost f = forest_view(trees@);
    proof {
        if trees@.len() >= 1 {
            crate::header::lemma_tree_has_root(trees@[0]);
            assert(occurs(f, f[0][0].1, 0, 0));
        }
    }
    let g = IncludeGraph::from_trees(trees);
    let n = g.names.len();
    let mut out: Vec<String> = Vec::new();
    let mut i: usize = 0;
    while i < n
        invariant
            n == g.names@.len(),
            g.represents(f),
            i <= n,
            strictly_sorted(views(out@)),
            forall|t: Seq<char>| views(out@).contains(t) <==> exists|j: int|
                0 <= j < i && !g.included@[j] && #[trigger] g.name(j) == t,
        decreases n - i,
    {
        if !g.included[i] {
            let ghost o0 = views(out@);
            insert_sorted(&mut out, g.names[i].clone());
            assert forall|t: Seq<char>| views(out@).contains(t) <==> exists|j: int|
                0 <= j < i + 1 && !g.included@[j] && #[trigger] g.name(j) == t by {
                if t == g.name(i as int) {
                    assert(views(out@).contains(t));
                }
                if o0.contains(t) {
                    let j = choose|j: int| 0 <= j < i && !g.included@[j] && #[trigger] g.name(j) == t;
                }
            }
        } else {
            assert forall|t: Seq<char>| views(out@).contains(t) <==> exists|j: int|
                0 <= j < i + 1 && !g.included@[j] && #[trigger] g.name(j) == t by {
                if exists|j: int| 0 <= j < i + 1 && !g.included@[j] && #[trigger] g.name(j) == t {
                    let j = choose|j: int| 0 <= j < i + 1 && !g.included@[j] && #[trigger] g.name(j) == t;
                    assert(j < i);
                }
            }
        }
        i += 1;
    }
    proof {
        assert forall|t: Seq<char>| views(out@).contains(t) <==> is_independent(f, t) by {
            if views(out@).contains(t) {
                let j = choose|j: int| 0 <= j < n && !g.included@[j] && #[trigger] g.name(j) == t;
                assert(in_forest(f, g.name(j)));
            }
            if is_independent(f, t) {
                let j = choose|j: int| 0 <= j < n && g.name(j) == t;
                assert(!g.included@[j]);
                assert(exists|j: int| 0 <= j < n && !g.included@[j] && #[trigger] g.name(j) == t);
            }
        }
    }
    if out.len() > 0 {
        proof {
            let t = views(out@)[0];
            assert(views(out@).contains(t));
            assert(is_independent(f, t));
            lemma_result_bounded(g, f, views(out@));
        }
        return out;
    }
    let cover = greedy_cover(&g);
    let ghost adj = g.adj();
    let mut k: usize = 0;
    assert(views(out@) =~= seq![]);
    while k < cover.len()
        invariant
            n == g.names@.len(),
            g.represents(f),
            adj == g.adj(),
            k <= cover@.len(),
            forall|x: int| 0 <= x < cover@.len() ==> #[trigger] cover@[x] < n,
            strictly_sorted(views(out@)),
            forall|t: Seq<char>| views(out@).contains(t) <==> exists|x: int|
                0 <= x < k && #[trigger] g.name(cover@[x] as int) == t,
        decreases cover@.len() - k,
    {
        let ghost o0 = views(out@);
        let c = cover[k];
        insert_sorted(&mut out, g.names[c].clone());
        assert forall|t: Seq<char>| views(out@).contains(t) <==> exists|x: int|
            0 <= x < k + 1 && #[trigger] g.name(cover@[x] as int) == t by {
            if t == g.name(c as int) {
                assert(g.name(cover@[k as int] as int) == t);
            }
            if o0.contains(t) {
                let x = choose|x: int| 0 <= x < k && #[trigger] g.name(cover@[x] as int) == t;
            }
            if exists|x: int| 0 <= x < k + 1 && #[trigger] g.name(cover@[x] as int) == t {
                let x = choose|x: int| 0 <= x < k + 1 && #[trigger] g.name(cover@[x] as int) == t;
                if x < k {
                    assert(o0.contains(t));
                }
            }
        }
        k += 1;
    }
    proof {
        assert forall|t: Seq<char>| #[trigger] views(out@).contains(t) implies in_forest(f, t) by {
            let x = choose|x: int| 0 <= x < cover@.len() && #[trigger] g.name(cover@[x] as int) == t;
        }
        assert forall|m: Seq<char>| #[trigger] in_forest(f, m) implies exists|i: int|
            0 <= i < out@.len() && name_reaches(f, out@[i]@, m) by {
            let j = choose|j: int| 0 <= j < n && g.name(j) == m;
            assert(reached_from(adj, cover@, j));
            let x = choose|x: int| 0 <= x < cover@.len() && reaches(adj, cover@[x] as int, j);
            lemma_graph_path_includes(g, f, cover@[x] as int, j);
            let t = g.name(cover@[x] as int);
            assert(views(out@).contains(t));
            let i = choose|i: int| 0 <= i < views(out@).len() && views(out@)[i] == t;
            assert(out@[i]@ == t);
        }
        if exists|m: Seq<char>| in_forest(f, m) {
            let m = choose|m: Seq<char>| in_forest(f, m);
            let j = choose|j: int| 0 <= j < n && g.name(j) == m;
            assert(reached_from(adj, cover@, j));
        }
        lemma_result_bounded(g, f, views(out@));
        assert forall|t: Seq<char>| views(out@).contains(t) <==> exists|x: int|
            0 <= x < cover@.len() && #[trigger] g.name(cover@[x] as int) == t by {}
        assert(is_greedy_cover_of(f, g, cover@, views(out@)));
        if trees@.len() >= 1 {
            crate::header::lemma_tree_has_root(trees@[0]);
            assert(f == forest_view(trees@));
            assert(occurs(f, f[0][0].1, 0, 0));
            assert(in_forest(f, f[0][0].1));
        }
    }
    out
}

/// The headers a consumer of the library includes: see
/// `get_independent_headers`; `trees` are the include trees of the headers
/// that could be analysed.
pub fn get_include_lib_headers(trees: &Vec<TreeNode>) -> (r: Vec<String>)
    requires
        forall|i: int| 0 <= i < trees@.len() ==> #[trigger] trees@[i].well_formed(),
    ensures
        strictly_sorted(views(r@)),
        has_independent(forest_view(trees@)) ==> forall|t: Seq<char>|
            views(r@).contains(t) <==> is_independent(forest_view(trees@), t),
        !has_independent(forest_view(trees@)) ==> {
            &&& forall|t: Seq<char>| #[trigger] views(r@).contains(t) ==> in_forest(forest_view(trees@), t)
            &&& forall|n: Seq<char>| #[trigger] in_forest(forest_view(trees@), n) ==> exists|i: int|
                0 <= i < r@.len() && name_reaches(forest_view(trees@), r@[i]@, n)
            &&& (exists|n: Seq<char>| in_forest(forest_view(trees@), n)) ==> r@.len() >= 1
            &&& exists|g: IncludeGraph, cover: Seq<usize>| #[trigger] is_greedy_cover_of(forest_view(trees@), g, cover, views(r@))
        },
        forest_names(forest_view(trees@)).finite(),
        r@.len() <= forest_names(forest_view(trees@)).len(),
        trees@.len() >= 1 ==> r@.len() >= 1,
{
    get_independent_headers(trees)
}

/// `/include/` starts at position `i` of `h`.
pub open spec fn include_at(h: Seq<char>, i: int) -> bool {
    0 <= i && i + 9 <= h.len() && h.subrange(i, i + 9) == "/include/"@
}

/// What follows the last `/include/` of `h`, if it has one.
pub open spec fn include_suffix(h: Seq<char>) -> Option<Seq<char>> {
    if exists|i: int| include_at(h, i) {
        let i = choose|i: int| include_at(h, i) && forall|j: int| i < j ==> !include_at(h, j);
        Some(h.subrange(i + 9, h.len() as int))
    } else {
        None
    }
}

/// The part of a system header's path after its last `/include/`.
fn strip_include_dir(h: &str) -> (r: Option<String>)
    ensures
        r matches Some(s) ==> include_suffix(h@) == Some(s@),
        r is None ==> include_suffix(h@) is None,
{
    proof {
        reveal_strlit("/include/");
    }
    let pat = "/include/";
    let len = h.unicode_len();
    if len < 9 {
        assert forall|i: int| !include_at(h@, i) by {}
        return None;
    }
    let mut i: usize = len - 9 + 1;
    while i > 0
        invariant
            len == h@.len(),
            len >= 9,
            i <= len - 9 + 1,
            pat@ == "/include/"@,
            pat@.len() == 9,
            forall|j: int| i <= j ==> !include_at(h@, j),
        decreases i,
    {
        let tail = h.substring_char(i - 1, len);
        if starts_with(tail, pat) {
            assert(tail@.subrange(0, 9) =~= h@.subrange(i - 1, i - 1 + 9));
            assert(include_at(h@, i - 1));
            let rest = h.substring_char(i - 1 + 9, len);
            return Some(rest.to_string());
        }
        assert(!include_at(h@, i - 1)) by {
            if include_at(h@, i - 1) {
                assert(tail@.subrange(0, 9) =~= h@.subrange(i - 1, i - 1 + 9));
            }
        }
        i -= 1;
    }
    None
}

/// Position of `t` in `v`, if it is there.
fn position_of(v: &Vec<String>, t: &String) -> (r: Option<usize>)
    ensures
        r matches Some(i) ==> i < v@.len() && v@[i as int]@ == t@,
        r is None ==> !views(v@).contains(t@),
{
    let mut i: usize = 0;
    while i < v.len()
        invariant
            i <= v@.len(),
            forall|j: int| 0 <= j < i ==> v@[j]@ != t@,
        decreases v@.len() - i,
    {
        if v[i] == *t {
            return Some(i);
        }
        i += 1;
    }
    None
}

/// The system headers that library headers include directly, tree after
/// tree, over the first `n` trees of `f` whose root is one of `lib`.
pub open spec fn sys_dependencies(f: Seq<Seq<Entry>>, lib: Seq<Seq<char>>, n: int) -> Seq<Seq<char>>
    decreases n,
{
    if n <= 0 {
        seq![]
    } else {
        sys_dependencies(f, lib, n - 1) + if lib.contains(f[n - 1][0].1) {
            direct_sys_headers(f[n - 1], f[n - 1].len() as int)
        } else {
            seq![]
        }
    }
}

/// The parts after the last `/include/` of `deps`, each listed once where it
/// first comes; paths without `/include/` are left out.
pub open spec fn include_suffixes(deps: Seq<Seq<char>>) -> Seq<Seq<char>>
    decreases deps.len(),
{
    if deps.len() == 0 {
        seq![]
    } else {
        let prev = include_suffixes(deps.drop_last());
        match include_suffix(deps.last()) {
            Some(t) => if prev.contains(t) { prev } else { prev.push(t) },
            None => prev,
        }
    }
}

/// The system headers that the library's headers `lib` include directly,
/// each written as the part after its last `/include/` (those without one
/// are left out) and listed once, in the order they are first met.
#[verifier::rlimit(60)]
pub fn get_include_sys_headers(trees: &Vec<TreeNode>, lib: &Vec<String>) -> (r: Vec<String>)
    requires
        forall|i: int| 0 <= i < trees@.len() ==> #[trigger] trees@[i].well_formed(),
    ensures
        views(r@) == include_suffixes(sys_dependencies(forest_view(trees@), views(lib@), trees@.len() as int)),
        views(r@).no_duplicates(),
        forall|t: Seq<char>| views(r@).contains(t) <==> exists|k: int|
            0 <= k < sys_dependencies(forest_view(trees@), views(lib@), trees@.len() as int).len()
                && #[trigger] include_suffix(
                sys_dependencies(forest_view(trees@), views(lib@), trees@.len() as int)[k],
            ) == Some(t),
{
    let ghost f = forest_view(trees@);
    let ghost lv = views(lib@);
    let mut raw: Vec<String> = Vec::new();
    let mut ti: usize = 0;
    while ti < trees.len()
        invariant
            f == forest_view(trees@),
            lv == views(lib@),
            forall|i: int| 0 <= i < trees@.len() ==> #[trigger] trees@[i].well_formed(),
            ti <= trees@.len(),
            views(raw@) == sys_dependencies(f, lv, ti as int),
        decreases trees@.len() - ti,
    {
        let tree = &trees[ti];
        assert(f[ti as int] == tree@);
        let root = tree.get_name().to_string();
        let ghost r0 = views(raw@);
        if position_of(lib, &root).is_some() {
            assert(lv.contains(root@)) by {
                let i = choose|i: int| 0 <= i < lib@.len() && lib@[i]@ == root@;
                assert(lv[i] == root@);
            }
            let hs = get_included_sys_header(tree);
            let mut k: usize = 0;
            while k < hs.len()
                invariant
                    k <= hs@.len(),
                    views(raw@) == r0 + views(hs@).subrange(0, k as int),
                decreases hs@.len() - k,
            {
                let ghost rb = views(raw@);
                raw.push(hs[k].clone());
                assert(views(raw@) =~= rb.push(hs@[k as int]@));
                assert(views(raw@) =~= r0 + views(hs@).subrange(0, k + 1));
                k += 1;
            }
            assert(views(hs@) =~= direct_sys_headers(tree@, tree@.len() as int));
            assert(views(hs@).subrange(0, hs@.len() as int) =~= views(hs@));
        } else {
            assert(!lv.contains(root@));
        }
        assert(views(raw@) =~= sys_dependencies(f, lv, ti + 1));
        ti += 1;
    }
    let ghost deps = views(raw@);
    let mut out: Vec<String> = Vec::new();
    let mut k: usize = 0;
    while k < raw.len()
        invariant
            deps == views(raw@),
            k <= raw@.len(),
            views(out@) == include_suffixes(deps.subrange(0, k as int)),
            views(out@).no_duplicates(),
            forall|t: Seq<char>| views(out@).contains(t) <==> exists|j: int|
                0 <= j < k && #[trigger] include_suffix(deps[j]) == Some(t),
        decreases raw@.len() - k,
    {
        let ghost o0 = views(out@);
        match strip_include_dir(raw[k].as_str()) {
            Some(t) => {
                match position_of(&out, &t) {
                    Some(i) => {
                        assert(o0[i as int] == t@);
                    },
                    None => {
                        let ghost tv = t@;
                        out.push(t);
                        assert(views(out@) =~= o0.push(tv));
                        assert(views(out@)[o0.len() as int] == tv);
                    },
                }
            },
            None => {},
        }
        assert(deps.subrange(0, k + 1).drop_last() =~= deps.subrange(0, k as int));
        assert(deps.subrange(0, k + 1).last() == deps[k as int]);
        assert(views(out@) == include_suffixes(deps.subrange(0, k + 1)));
        assert(include_suffix(deps[k as int]) matches Some(t) ==> views(out@).contains(t));
        assert(forall|t: Seq<char>| views(out@).contains(t) && !o0.contains(t) ==> include_suffix(deps[k as int]) == Some(t));
        assert forall|t: Seq<char>| o0.contains(t) implies views(out@).contains(t) by {
            let i = choose|i: int| 0 <= i < o0.len() && o0[i] == t;
            assert(views(out@)[i] == t);
        }
        assert forall|t: Seq<char>| views(out@).contains(t) <==> exists|j: int|
            0 <= j < k + 1 && #[trigger] include_suffix(deps[j]) == Some(t) by {
            if views(out@).contains(t) && !o0.contains(t) {
                assert(include_suffix(deps[k as int]) == Some(t));
            }
            if exists|j: int| 0 <= j < k + 1 && #[trigger] include_suffix(deps[j]) == Some(t) {
                let j = choose|j: int| 0 <= j < k + 1 && #[trigger] include_suffix(deps[j]) == Some(t);
                if j < k {
                    assert(o0.contains(t));
                }
            }
        }
        k += 1;
    }
    assert(deps.subrange(0, raw@.len() as int) =~= deps);
    out
}

/// Joins the lines with `'\n'` between them.
pub open spec fn join_lines(ls: Seq<Seq<char>>) -> Seq<char>
    decreases ls.len(),
{
    if ls.len() == 0 {
        seq![]
    } else if ls.len() == 1 {
        ls[0]
    } else {
        join_lines(ls.drop_last()) + seq!['\n'] + ls.last()
    }
}

/// The system headers of `get_include_sys_headers`, one per line.
pub fn get_include_sys_headers_str(trees: &Vec<TreeNode>, lib: &Vec<String>) -> (r: String)
    requires
        forall|i: int| 0 <= i < trees@.len() ==> #[trigger] trees@[i].well_formed(),
    ensures
        r@ == join_lines(include_suffixes(sys_dependencies(forest_view(trees@), views(lib@), trees@.len() as int))),
{
    let hs = get_include_sys_headers(trees, lib);
    join_strings(&hs)
}

/// The strings joined with `'\n'` between them.
fn join_strings(v: &Vec<String>) -> (r: String)
    ensures
        r@ == join_lines(views(v@)),
{
    let mut r = String::new();
    let mut i: usize = 0;
    while i < v.len()
        invariant
            i <= v@.len(),
            r@ == join_lines(views(v@).subrange(0, i as int)),
        decreases v@.len() - i,
    {
        let ghost before = r@;
        if i > 0 {
            crate::text::push_char(&mut r, '\n');
        }
        r.append(v[i].as_str());
        proof {
            let w = views(v@).subrange(0, i + 1);
            assert(w.drop_last() =~= views(v@).subrange(0, i as int));
            if i == 0 {
                assert(before =~= seq![]);
                assert(r@ =~= w[0]);
            } else {
                assert(r@ =~= before + seq!['\n'] + w.last());
            }
        }
        i += 1;
    }
    assert(views(v@).subrange(0, v@.len() as int) =~= views(v@));
    r
}

/// `l` is a list of headers to include for forest `f`, as
/// `get_include_lib_headers` describes it.
pub open spec fn lib_headers_ok(f: Seq<Seq<Entry>>, l: Seq<Seq<char>>) -> bool {
    &&& strictly_sorted(l)
    &&& has_independent(f) ==> forall|t: Seq<char>| l.contains(t) <==> is_independent(f, t)
    &&& !has_independent(f) ==> {
        &&& forall|t: Seq<char>| #[trigger] l.contains(t) ==> in_forest(f, t)
        &&& forall|n: Seq<char>| #[trigger] in_forest(f, n) ==> exists|i: int| 0 <= i < l.len() && name_reaches(f, l[i], n)
        &&& (exists|n: Seq<char>| in_forest(f, n)) ==> l.len() >= 1
        &&& exists|g: IncludeGraph, cover: Seq<usize>| #[trigger] is_greedy_cover_of(f, g, cover, l)
    }
}

/// A copy of a list of strings.
fn copy_strings(v: &Vec<String>) -> (r: Vec<String>)
    ensures
        views(r@) == views(v@),
{
    let mut r: Vec<String> = Vec::new();
    let mut i: usize = 0;
    while i < v.len()
        invariant
            i <= v@.len(),
            views(r@) == views(v@).subrange(0, i as int),
        decreases v@.len() - i,
    {
        let ghost before = views(r@);
        r.push(v[i].clone());
        assert(views(r@) =~= before.push(v@[i as int]@));
        assert(views(r@) =~= views(v@).subrange(0, i + 1));
        i += 1;
    }
    assert(views(v@).subrange(0, v@.len() as int) =~= views(v@));
    r
}

/// The header analysis of one library: its include trees, and the headers
/// to include and their system headers, each computed on first use and then
/// kept unchanged.
pub struct HeaderCache {
    trees: Vec<TreeNode>,
    lib_headers: Option<Vec<String>>,
    sys_headers: Option<Vec<String>>,
}

impl HeaderCache {
    /// The include trees.
    pub closed spec fn forest(&self) -> Seq<Seq<Entry>> {
        forest_view(self.trees@)
    }

    /// The headers to include, once computed.
    pub closed spec fn cached_lib(&self) -> Option<Seq<Seq<char>>> {
        match self.lib_headers {
            Some(v) => Some(views(v@)),
            None => None,
        }
    }

    /// The system headers, once computed.
    pub closed spec fn cached_sys(&self) -> Option<Seq<Seq<char>>> {
        match self.sys_headers {
            Some(v) => Some(views(v@)),
            None => None,
        }
    }

    /// The trees are well formed, and the system headers, once computed,
    /// are those of the cached headers to include.
    pub closed spec fn well_formed(&self) -> bool {
        &&& forall|i: int| 0 <= i < self.trees@.len() ==> #[trigger] self.trees@[i].well_formed()
        &&& self.sys_headers is Some ==> self.lib_headers is Some
        &&& (self.lib_headers matches Some(lv) ==> lib_headers_ok(forest_view(self.trees@), views(lv@)))
        &&& (self.sys_headers matches Some(sv) ==> self.lib_headers matches Some(lv) && views(sv@)
            == include_suffixes(sys_dependencies(forest_view(self.trees@), views(lv@), self.trees@.len() as int)))
    }

    /// A cache over the include trees of a library, with nothing computed.
    pub fn new(trees: Vec<TreeNode>) -> (r: HeaderCache)
        requires
            forall|i: int| 0 <= i < trees@.len() ==> #[trigger] trees@[i].well_formed(),
        ensures
            r.well_formed(),
            r.forest() == forest_view(trees@),
            r.cached_lib() is None,
            r.cached_sys() is None,
    {
        HeaderCache { trees, lib_headers: None, sys_headers: None }
    }

    /// The headers to include: computed by `get_include_lib_headers` on the
    /// first call, the same list on every later one.
    pub fn lib_headers(&mut self) -> (r: Vec<String>)
        requires
            old(self).well_formed(),
        ensures
            final(self).well_formed(),
            final(self).forest() == old(self).forest(),
            final(self).cached_lib() == Some(views(r@)),
            final(self).cached_sys() == old(self).cached_sys(),
            old(self).cached_lib() matches Some(v) ==> views(r@) == v,
            lib_headers_ok(old(self).forest(), views(r@)),
    {
        match &self.lib_headers {
            Some(v) => copy_strings(v),
            None => {
                let v = get_include_lib_headers(&self.trees);
                let r = copy_strings(&v);
                proof {
                    let f = forest_view(self.trees@);
                    assert forall|n: Seq<char>| #[trigger] in_forest(f, n) && !has_independent(f) implies exists|i: int|
                        0 <= i < views(r@).len() && name_reaches(f, views(r@)[i], n) by {
                        let i = choose|i: int| 0 <= i < v@.len() && name_reaches(f, v@[i]@, n);
                        assert(views(r@)[i] == v@[i]@);
                    }
                }
                self.lib_headers = Some(v);
                r
            },
        }
    }

    /// The system headers of the headers to include: computed by
    /// `get_include_sys_headers` on the first call, the same list on every
    /// later one.
    pub fn sys_headers(&mut self) -> (r: Vec<String>)
        requires
            old(self).well_formed(),
        ensures
            final(self).well_formed(),
            final(self).forest() == old(self).forest(),
            final(self).cached_sys() == Some(views(r@)),
            final(self).cached_lib() matches Some(l) && views(r@) == include_suffixes(
                sys_dependencies(final(self).forest(), l, final(self).forest().len() as int),
            ),
            old(self).cached_sys() matches Some(v) ==> views(r@) == v,
            old(self).cached_lib() matches Some(l) ==> final(self).cached_lib() == Some(l),
    {
        match &self.sys_headers {
            Some(v) => copy_strings(v),
            None => {
                let lib = self.lib_headers();
                let v = get_include_sys_headers(&self.trees, &lib);
                let r = copy_strings(&v);
                self.sys_headers = Some(v);
                r
            },
        }
    }
}
} // verus!
