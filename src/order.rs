use vstd::prelude::*;
use vstd::set_lib::*;

use crate::error::AureaCoreError;
use crate::graph::{join_strings, joined, view_names, CycleInfo, DependencyGraph};

verus! {

/// A sequence of node numbers, as integers.
pub open spec fn ints(s: Seq<usize>) -> Seq<int> {
    s.map_values(|x: usize| x as int)
}

/// The nodes of a depth-first stack of (node, next edge) frames.
pub open spec fn frame_nodes(st: Seq<(usize, usize)>) -> Seq<int> {
    st.map_values(|f: (usize, usize)| f.0 as int)
}

/// Distinct integers below `n` are at most `n` many.
pub proof fn lemma_distinct_bounded(q: Seq<int>, n: int)
    requires
        q.no_duplicates(),
        n >= 0,
        forall|i: int| 0 <= i < q.len() ==> 0 <= #[trigger] q[i] < n,
    ensures
        q.len() <= n,
{
    q.unique_seq_to_set();
    lemma_int_range(0, n);
    assert(q.to_set().subset_of(set_int_range(0, n)));
    lemma_len_subset(q.to_set(), set_int_range(0, n));
}

/// `v` stands in `ord` before position `k`.
pub open spec fn listed_before(ord: Seq<int>, k: int, v: int) -> bool {
    exists|k2: int| 0 <= k2 < k && ord[k2] == v
}

impl DependencyGraph {
    /// Every service in `ord` comes after each service it depends on.
    pub open spec fn dependency_first(&self, ord: Seq<int>) -> bool {
        forall|k: int, j: int|
            #![trigger self.target(ord[k], j)]
            0 <= k < ord.len() && 0 <= j < self.deg(ord[k]) ==> listed_before(ord, k, self.target(ord[k], j))
    }

    /// `ord` lists the transitive closure of `roots` once each, every
    /// service after all of its dependencies.
    pub open spec fn is_closure_order(&self, roots: Seq<int>, ord: Seq<int>) -> bool {
        &&& ord.no_duplicates()
        &&& forall|k: int| 0 <= k < ord.len() ==> self.is_node(#[trigger] ord[k]) && self.in_closure(roots, ord[k])
        &&& forall|k: int| 0 <= k < roots.len() ==> ord.contains(#[trigger] roots[k])
        &&& self.dependency_first(ord)
    }

    /// What is left to scan on a depth-first stack.
    pub open spec fn rem(&self, st: Seq<(usize, usize)>) -> nat
        decreases st.len(),
    {
        if st.len() == 0 {
            0
        } else {
            self.rem(st.drop_last()) + (self.deg(st.last().0 as int) - st.last().1 + 1) as nat
        }
    }

    /// The stack is a walk from `roots[ri - 1]`, so each of its nodes is in the closure.
    proof fn lemma_stack_in_closure(&self, st: Seq<(usize, usize)>, roots: Seq<int>, ri: int)
        requires
            self.wf(),
            st.len() > 0,
            0 < ri <= roots.len(),
            st[0].0 == roots[ri - 1],
            forall|i: int| 0 <= i < st.len() ==> (#[trigger] st[i]).0 < self.n(),
            forall|i: int|
                0 <= i < st.len() - 1 ==> (#[trigger] st[i]).1 < self.deg(st[i].0 as int) && self.target(
                    st[i].0 as int,
                    st[i].1 as int,
                ) == st[i + 1].0,
        ensures
            forall|i: int| 0 <= i < st.len() ==> self.in_closure(roots, (#[trigger] st[i]).0 as int),
    {
        assert forall|i: int| 0 <= i < st.len() implies self.in_closure(roots, (#[trigger] st[i]).0 as int) by {
            let p = frame_nodes(st).subrange(0, i + 1);
            assert forall|m: int| 0 <= m < p.len() implies self.is_node(#[trigger] p[m]) by {
                assert(p[m] == st[m].0);
            }
            assert forall|m: int| 0 <= m < p.len() - 1 implies self.edge_in(#[trigger] p[m], p[m + 1], false) by {
                assert(p[m] == st[m].0);
                assert(p[m + 1] == st[m + 1].0);
                assert(self.target(st[m].0 as int, st[m].1 as int) == st[m + 1].0);
            }
            assert(self.is_path(p));
            assert(p[0] == roots[ri - 1]);
            assert(p.last() == st[i].0);
            assert(self.reaches(roots[ri - 1], st[i].0 as int));
        }
    }

    /// The cycle that closes when the top of the stack has an edge to a node
    /// that is on the stack: from that node to the top, and back.
    fn cycle_on_stack(&self, stack: &Vec<(usize, usize)>, v: usize) -> (c: Vec<usize>)
        requires
            self.wf(),
            stack@.len() > 0,
            forall|i: int| 0 <= i < stack@.len() ==> (#[trigger] stack@[i]).0 < self.n(),
            forall|i: int|
                0 <= i < stack@.len() - 1 ==> (#[trigger] stack@[i]).1 < self.deg(stack@[i].0 as int)
                    && self.target(stack@[i].0 as int, stack@[i].1 as int) == stack@[i + 1].0,
            stack@.last().1 < self.deg(stack@.last().0 as int),
            self.target(stack@.last().0 as int, stack@.last().1 as int) == v,
            exists|i: int| 0 <= i < stack@.len() && (#[trigger] stack@[i]).0 == v,
            frame_nodes(stack@).no_duplicates(),
        ensures
            self.is_cycle(ints(c@)),
            c@[0] == v,
            ints(c@).drop_last().no_duplicates(),
    {
        let mut i: usize = 0;
        while i < stack.len() && stack[i].0 != v
            invariant
                i < stack@.len(),
                exists|k: int| i <= k < stack@.len() && (#[trigger] stack@[k]).0 == v,
            decreases stack@.len() - i,
        {
            proof {
                let k = choose|k: int| i <= k < stack@.len() && (#[trigger] stack@[k]).0 == v;
                assert(k != i);
            }
            i = i + 1;
        }
        let mut c: Vec<usize> = Vec::new();
        let mut m: usize = i;
        while m < stack.len()
            invariant
                i < stack@.len(),
                stack@[i as int].0 == v,
                i <= m <= stack@.len(),
                c@.len() == m - i,
                forall|t: int| 0 <= t < c@.len() ==> #[trigger] c@[t] == stack@[i + t].0,
            decreases stack@.len() - m,
        {
            c.push(stack[m].0);
            m = m + 1;
        }
        let ghost c0 = c@;
        c.push(v);
        proof {
            let p = ints(c@);
            assert(c@ == c0.push(v));
            assert(c0.len() >= 1);
            assert(c0[0] == stack@[i as int].0);
            let len = stack@.len() as int;
            assert(p.len() == len - i + 1);
            assert forall|t: int| 0 <= t < p.len() implies self.is_node(#[trigger] p[t]) by {
                if t < p.len() - 1 {
                    assert(c@[t] == c0[t]);
                    assert(c0[t] == stack@[i + t].0);
                }
            }
            assert forall|t: int| 0 <= t < p.len() - 1 implies self.edge_in(#[trigger] p[t], p[t + 1], false) by {
                assert(c@[t] == c0[t]);
                assert(c0[t] == stack@[i + t].0);
                if t < p.len() - 2 {
                    assert(c@[t + 1] == c0[t + 1]);
                    assert(c0[t + 1] == stack@[i + t + 1].0);
                    assert(self.target(stack@[i + t].0 as int, stack@[i + t].1 as int) == stack@[i + t + 1].0);
                } else {
                    assert(i + t == len - 1);
                    assert(self.target(stack@.last().0 as int, stack@.last().1 as int) == v);
                }
            }
            assert(p[0] == v);
            assert forall|a: int, b: int| 0 <= a < b < p.len() - 1 implies p[a] != p[b] by {
                assert(c@[a] == c0[a] && c@[b] == c0[b]);
                assert(c0[a] == stack@[i + a].0 && c0[b] == stack@[i + b].0);
                assert(frame_nodes(stack@)[i + a] != frame_nodes(stack@)[i + b]);
            }
            assert(p.drop_last().no_duplicates());
        }
        c
    }

    /// A finished service whose dependencies are all listed may follow them.
    proof fn lemma_order_extend(&self, ord: Seq<usize>, u: usize, color: Seq<u8>)
        requires
            self.wf(),
            0 <= u < self.n(),
            color.len() == self.n(),
            self.dependency_first(ints(ord)),
            forall|v: int| 0 <= v < color.len() && #[trigger] color[v] == 2 ==> ints(ord).contains(v),
            forall|j: int| 0 <= j < self.deg(u as int) ==> color[#[trigger] self.target(u as int, j)] == 2,
        ensures
            self.dependency_first(ints(ord.push(u))),
    {
        let ord0 = ints(ord);
        let ord2 = ints(ord.push(u));
        assert(ord2 =~= ord0.push(u as int));
        assert forall|k: int, j: int|
            0 <= k < ord2.len() && 0 <= j < self.deg(ord2[k]) implies listed_before(
            ord2,
            k,
            #[trigger] self.target(ord2[k], j),
        ) by {
            if k < ord0.len() {
                assert(ord2[k] == ord0[k]);
                assert(listed_before(ord0, k, self.target(ord0[k], j)));
                let k2 = choose|k2: int| 0 <= k2 < k && ord0[k2] == self.target(ord0[k], j);
                assert(ord2[k2] == ord0[k2]);
            } else {
                assert(ord2[k] == u);
                let w = self.target(u as int, j);
                assert(color[w] == 2);
                assert(0 <= w < color.len());
                assert(ord0.contains(w));
                let k2 = choose|k2: int| 0 <= k2 < ord0.len() && ord0[k2] == w;
                assert(ord2[k2] == ord0[k2]);
            }
        }
        assert(self.dependency_first(ord2));
    }

    /// The state of the depth-first search: color 0 is unvisited, 1 is on
    /// the stack, 2 is finished and listed in `ord`.
    #[verifier::opaque]
    pub open spec fn dfs_inv(
        &self,
        roots: Seq<usize>,
        color: Seq<u8>,
        st: Seq<(usize, usize)>,
        ord: Seq<usize>,
        ri: int,
    ) -> bool {
        let n = self.n();
        &&& self.wf()
        &&& forall|k: int| 0 <= k < roots.len() ==> #[trigger] roots[k] < n
        &&& color.len() == n
        &&& forall|v: int| 0 <= v < n ==> #[trigger] color[v] <= 2
        &&& 0 <= ri <= roots.len()
        &&& ints(ord).no_duplicates()
        &&& forall|k: int|
            0 <= k < ord.len() ==> (#[trigger] ord[k]) < n && color[ord[k] as int] == 2 && self.in_closure(
                ints(roots),
                ord[k] as int,
            )
        &&& forall|v: int| 0 <= v < n && #[trigger] color[v] == 2 ==> ints(ord).contains(v)
        &&& forall|i: int|
            0 <= i < st.len() ==> (#[trigger] st[i]).0 < n && color[st[i].0 as int] == 1 && st[i].1 <= self.deg(
                st[i].0 as int,
            )
        &&& forall|v: int|
            0 <= v < n && #[trigger] color[v] == 1 ==> exists|i: int| 0 <= i < st.len() && (#[trigger] st[i]).0 == v
        &&& frame_nodes(st).no_duplicates()
        &&& forall|i: int|
            0 <= i < st.len() - 1 ==> (#[trigger] st[i]).1 < self.deg(st[i].0 as int) && self.target(
                st[i].0 as int,
                st[i].1 as int,
            ) == st[i + 1].0
        &&& forall|i: int, j: int|
            0 <= i < st.len() && 0 <= j < st[i].1 ==> color[#[trigger] self.target(st[i].0 as int, j)] == 2
        &&& st.len() > 0 ==> ri > 0 && st[0].0 == roots[ri - 1]
        &&& forall|k: int| 0 <= k < ri ==> color[#[trigger] roots[k] as int] != 0
        &&& self.dependency_first(ints(ord))
        &&& ord.len() + st.len() <= n
    }

    proof fn lemma_dfs_facts(
        &self,
        roots: Seq<usize>,
        color: Seq<u8>,
        st: Seq<(usize, usize)>,
        ord: Seq<usize>,
        ri: int,
    )
        requires
            self.dfs_inv(roots, color, st, ord, ri),
        ensures
            self.wf(),
            color.len() == self.n(),
            0 <= ri <= roots.len(),
            ri < roots.len() ==> roots[ri] < self.n(),
            ord.len() + st.len() <= self.n(),
            st.len() > 0 ==> st.last().0 < self.n() && st.last().1 <= self.deg(st.last().0 as int),
            forall|v: int| 0 <= v < self.n() ==> #[trigger] color[v] <= 2,
    {
        reveal(DependencyGraph::dfs_inv);
        if st.len() > 0 {
            assert(st.last() == st[st.len() - 1]);
        }
    }

    proof fn lemma_dfs_start(&self, roots: Seq<usize>)
        requires
            self.wf(),
            forall|k: int| 0 <= k < roots.len() ==> roots[k] < self.n(),
        ensures
            self.dfs_inv(roots, Seq::new(self.n() as nat, |i: int| 0u8), Seq::empty(), Seq::empty(), 0),
    {
        reveal(DependencyGraph::dfs_inv);
        let color = Seq::new(self.n() as nat, |i: int| 0u8);
        assert(ints(Seq::<usize>::empty()) =~= Seq::<int>::empty());
        assert(frame_nodes(Seq::<(usize, usize)>::empty()) =~= Seq::<int>::empty());
        assert forall|v: int| 0 <= v < self.n() implies #[trigger] color[v] <= 2 by {}
    }

    proof fn lemma_dfs_root_skip(
        &self,
        roots: Seq<usize>,
        color: Seq<u8>,
        st: Seq<(usize, usize)>,
        ord: Seq<usize>,
        ri: int,
    )
        requires
            self.dfs_inv(roots, color, st, ord, ri),
            st.len() == 0,
            ri < roots.len(),
            color[roots[ri] as int] != 0,
        ensures
            self.dfs_inv(roots, color, st, ord, ri + 1),
    {
        reveal(DependencyGraph::dfs_inv);
    }

    proof fn lemma_dfs_root_push(
        &self,
        roots: Seq<usize>,
        color: Seq<u8>,
        st: Seq<(usize, usize)>,
        ord: Seq<usize>,
        ri: int,
    )
        requires
            self.dfs_inv(roots, color, st, ord, ri),
            st.len() == 0,
            ri < roots.len(),
            color[roots[ri] as int] == 0,
        ensures
            ord.len() + 1 <= self.n(),
            self.dfs_inv(roots, color.update(roots[ri] as int, 1), seq![(roots[ri], 0usize)], ord, ri + 1),
    {
        reveal(DependencyGraph::dfs_inv);
        let n = self.n();
        let r = roots[ri];
        let color2 = color.update(r as int, 1);
        let st2 = seq![(r, 0usize)];
        let q = ints(ord).push(r as int);
        assert forall|i: int| 0 <= i < q.len() implies 0 <= #[trigger] q[i] < n by {
            if i < ord.len() {
                assert(ord[i] < n);
            }
        }
        assert(q.no_duplicates()) by {
            assert forall|a: int, b: int| 0 <= a < b < q.len() implies q[a] != q[b] by {
                if b == q.len() - 1 {
                    assert(color[ord[a] as int] == 2);
                } else {
                    assert(ints(ord)[a] != ints(ord)[b]);
                }
            }
        }
        lemma_distinct_bounded(q, n);
        assert(frame_nodes(st2) =~= seq![r as int]);
        assert forall|v: int| 0 <= v < n && #[trigger] color2[v] == 1 implies exists|i: int|
            0 <= i < st2.len() && (#[trigger] st2[i]).0 == v by {
            if v != r {
                assert(color[v] == 1);
            } else {
                assert(st2[0].0 == r);
            }
        }
        assert forall|k: int|
            0 <= k < ord.len() implies (#[trigger] ord[k]) < n && color2[ord[k] as int] == 2 && self.in_closure(
                ints(roots),
                ord[k] as int,
            ) by {
            assert(color[ord[k] as int] == 2);
        }
        assert forall|v: int| 0 <= v < n && #[trigger] color2[v] == 2 implies ints(ord).contains(v) by {
            assert(color[v] == 2);
        }
        assert forall|v: int| 0 <= v < n implies #[trigger] color2[v] <= 2 by {
            if v != r {
                assert(color[v] <= 2);
            }
        }
        assert forall|k: int| 0 <= k < ri + 1 implies color2[#[trigger] roots[k] as int] != 0 by {
            if roots[k] != r {
                assert(color[roots[k] as int] != 0);
            }
        }
    }

    proof fn lemma_dfs_pop(
        &self,
        roots: Seq<usize>,
        color: Seq<u8>,
        st: Seq<(usize, usize)>,
        ord: Seq<usize>,
        ri: int,
    )
        requires
            self.dfs_inv(roots, color, st, ord, ri),
            st.len() > 0,
            st.last().1 == self.deg(st.last().0 as int),
        ensures
            self.dfs_inv(roots, color.update(st.last().0 as int, 2), st.drop_last(), ord.push(st.last().0), ri),
            self.rem(st.drop_last()) < self.rem(st),
    {
        reveal(DependencyGraph::dfs_inv);
        let n = self.n();
        let top = st.len() - 1;
        let u = st.last().0;
        let c = st.last().1;
        assert(st.last() == st[top]);
        let color2 = color.update(u as int, 2);
        let st2 = st.drop_last();
        let ord2 = ord.push(u);
        let rs = ints(roots);
        let ord0 = ints(ord);
        self.lemma_stack_in_closure(st, rs, ri);
        assert(self.in_closure(rs, st[top].0 as int));
        assert(ints(ord2) =~= ord0.push(u as int));
        assert(!ord0.contains(u as int)) by {
            if ord0.contains(u as int) {
                let k = choose|k: int| 0 <= k < ord0.len() && ord0[k] == u as int;
                assert(color[ord[k] as int] == 2);
            }
        }
        assert(ints(ord2).no_duplicates()) by {
            assert forall|a: int, b: int| 0 <= a < b < ints(ord2).len() implies ints(ord2)[a] != ints(ord2)[b] by {
                if b == ord0.len() {
                    assert(ints(ord2)[a] == ord0[a]);
                    assert(ord0.contains(ord0[a]));
                } else {
                    assert(ord0[a] != ord0[b]);
                }
            }
        }
        assert(ord2.len() + st2.len() <= n);
        assert(frame_nodes(st2) =~= frame_nodes(st).drop_last());
        assert(frame_nodes(st2).no_duplicates()) by {
            assert forall|a: int, b: int| 0 <= a < b < frame_nodes(st2).len() implies frame_nodes(st2)[a] != frame_nodes(st2)[b] by {
                assert(frame_nodes(st)[a] != frame_nodes(st)[b]);
            }
        }
        assert forall|j: int| 0 <= j < self.deg(u as int) implies color[#[trigger] self.target(u as int, j)] == 2 by {
            assert(color[self.target(st[top].0 as int, j)] == 2);
        }
        self.lemma_order_extend(ord, u, color);
        assert forall|v: int| 0 <= v < n && #[trigger] color2[v] == 1 implies exists|i: int|
            0 <= i < st2.len() && (#[trigger] st2[i]).0 == v by {
            assert(color[v] == 1);
            let i = choose|i: int| 0 <= i < st.len() && (#[trigger] st[i]).0 == v;
            assert(i != top);
            assert(st2[i] == st[i]);
        }
        assert forall|v: int| 0 <= v < n && #[trigger] color2[v] == 2 implies ints(ord2).contains(v) by {
            if v != u {
                assert(color[v] == 2);
                let k = choose|k: int| 0 <= k < ord0.len() && ord0[k] == v;
                assert(ints(ord2)[k] == v);
            } else {
                assert(ints(ord2)[ord0.len() as int] == v);
            }
        }
        assert forall|k: int|
            0 <= k < ord2.len() implies (#[trigger] ord2[k]) < n && color2[ord2[k] as int] == 2 && self.in_closure(
                rs,
                ord2[k] as int,
            ) by {
            if k < ord.len() {
                assert(ord2[k] == ord[k]);
                assert(color[ord[k] as int] == 2);
            }
        }
        assert forall|i: int| 0 <= i < st2.len() implies (#[trigger] st2[i]).0 < n && color2[st2[i].0 as int] == 1
            && st2[i].1 <= self.deg(st2[i].0 as int) by {
            assert(st2[i] == st[i]);
            assert(frame_nodes(st)[i] != frame_nodes(st)[top]);
        }
        assert forall|i: int, j: int|
            0 <= i < st2.len() && 0 <= j < st2[i].1 implies color2[#[trigger] self.target(st2[i].0 as int, j)] == 2 by {
            assert(st2[i] == st[i]);
            assert(color[self.target(st[i].0 as int, j)] == 2);
        }
        assert forall|i: int|
            0 <= i < st2.len() - 1 implies (#[trigger] st2[i]).1 < self.deg(st2[i].0 as int) && self.target(
                st2[i].0 as int,
                st2[i].1 as int,
            ) == st2[i + 1].0 by {
            assert(st2[i] == st[i]);
            assert(st2[i + 1] == st[i + 1]);
        }
        assert forall|k: int| 0 <= k < ri implies color2[#[trigger] roots[k] as int] != 0 by {
            assert(color[roots[k] as int] != 0);
        }
        assert forall|v: int| 0 <= v < n implies #[trigger] color2[v] <= 2 by {
            if v != u {
                assert(color[v] <= 2);
            }
        }
        if st2.len() > 0 {
            assert(st2[0] == st[0]);
        }
    }

    proof fn lemma_dfs_advance(
        &self,
        roots: Seq<usize>,
        color: Seq<u8>,
        st: Seq<(usize, usize)>,
        ord: Seq<usize>,
        ri: int,
        c1: usize,
    )
        requires
            self.dfs_inv(roots, color, st, ord, ri),
            st.len() > 0,
            st.last().1 < self.deg(st.last().0 as int),
            c1 == st.last().1 + 1,
            color[self.target(st.last().0 as int, st.last().1 as int)] == 2,
        ensures
            self.dfs_inv(roots, color, st.update(st.len() - 1, (st.last().0, c1)), ord, ri),
            self.rem(st.update(st.len() - 1, (st.last().0, c1))) < self.rem(st),
    {
        reveal(DependencyGraph::dfs_inv);
        let n = self.n();
        let top = st.len() - 1;
        let u = st.last().0;
        let c = st.last().1;
        assert(st.last() == st[top]);
        let st2 = st.update(top, (u, c1));
        assert(st2.drop_last() =~= st.drop_last());
        assert(st2.last() == (u, c1));
        assert(frame_nodes(st2) =~= frame_nodes(st));
        assert forall|v2: int| 0 <= v2 < n && #[trigger] color[v2] == 1 implies exists|i: int|
            0 <= i < st2.len() && (#[trigger] st2[i]).0 == v2 by {
            let i = choose|i: int| 0 <= i < st.len() && (#[trigger] st[i]).0 == v2;
            assert(st2[i].0 == st[i].0);
        }
        assert forall|i: int, j: int|
            0 <= i < st2.len() && 0 <= j < st2[i].1 implies color[#[trigger] self.target(st2[i].0 as int, j)] == 2 by {
            assert(st2[i].0 == st[i].0);
            if i == top {
                if j < c {
                    assert(color[self.target(st[i].0 as int, j)] == 2);
                }
            } else {
                assert(st2[i] == st[i]);
                assert(color[self.target(st[i].0 as int, j)] == 2);
            }
        }
        assert forall|i: int|
            0 <= i < st2.len() - 1 implies (#[trigger] st2[i]).1 < self.deg(st2[i].0 as int) && self.target(
                st2[i].0 as int,
                st2[i].1 as int,
            ) == st2[i + 1].0 by {
            assert(st2[i] == st[i]);
            assert(st2[i + 1].0 == st[i + 1].0);
        }
        assert forall|i: int| 0 <= i < st2.len() implies (#[trigger] st2[i]).0 < n && color[st2[i].0 as int] == 1
            && st2[i].1 <= self.deg(st2[i].0 as int) by {
            if i != top {
                assert(st2[i] == st[i]);
            }
        }
        if top > 0 {
            assert(st2[0] == st[0]);
        }
    }

    proof fn lemma_dfs_push(
        &self,
        roots: Seq<usize>,
        color: Seq<u8>,
        st: Seq<(usize, usize)>,
        ord: Seq<usize>,
        ri: int,
    )
        requires
            self.dfs_inv(roots, color, st, ord, ri),
            st.len() > 0,
            st.last().1 < self.deg(st.last().0 as int),
            color[self.target(st.last().0 as int, st.last().1 as int)] == 0,
        ensures
            ({
                let v = self.target(st.last().0 as int, st.last().1 as int);
                &&& 0 <= v < self.n()
                &&& ord.len() + st.len() + 1 <= self.n()
                &&& self.dfs_inv(roots, color.update(v, 1), st.push((v as usize, 0usize)), ord, ri)
            }),
    {
        reveal(DependencyGraph::dfs_inv);
        let n = self.n();
        let top = st.len() - 1;
        let u = st.last().0;
        let c = st.last().1;
        assert(st.last() == st[top]);
        let v = self.target(u as int, c as int);
        assert(0 <= v < n);
        let color2 = color.update(v, 1);
        let st2 = st.push((v as usize, 0usize));
        let q = ints(ord) + frame_nodes(st).push(v);
        let lo = ord.len() as int;
        let hi = lo + st.len();
        assert forall|i: int| 0 <= i < q.len() implies 0 <= #[trigger] q[i] < n by {
            if i < lo {
                assert(q[i] == ord[i]);
            } else if i < hi {
                assert(q[i] == st[i - lo].0);
            }
        }
        assert(q.no_duplicates()) by {
            assert forall|a: int, b: int| 0 <= a < b < q.len() implies q[a] != q[b] by {
                if b < lo {
                    assert(ints(ord)[a] != ints(ord)[b]);
                } else if b < hi {
                    assert(q[b] == st[b - lo].0);
                    assert(color[st[b - lo].0 as int] == 1);
                    if a < lo {
                        assert(color[ord[a] as int] == 2);
                    } else {
                        assert(q[a] == st[a - lo].0);
                        assert(frame_nodes(st)[a - lo] != frame_nodes(st)[b - lo]);
                    }
                } else {
                    if a < lo {
                        assert(color[ord[a] as int] == 2);
                    } else {
                        assert(q[a] == st[a - lo].0);
                        assert(color[st[a - lo].0 as int] == 1);
                    }
                }
            }
        }
        lemma_distinct_bounded(q, n);
        assert(frame_nodes(st2) =~= frame_nodes(st).push(v));
        assert(frame_nodes(st2).no_duplicates()) by {
            assert forall|a: int, b: int|
                0 <= a < b < frame_nodes(st2).len() implies frame_nodes(st2)[a] != frame_nodes(st2)[b] by {
                if b == st.len() {
                    assert(color[st[a].0 as int] == 1);
                } else {
                    assert(frame_nodes(st)[a] != frame_nodes(st)[b]);
                }
            }
        }
        assert forall|v2: int| 0 <= v2 < n && #[trigger] color2[v2] == 1 implies exists|i: int|
            0 <= i < st2.len() && (#[trigger] st2[i]).0 == v2 by {
            if v2 != v {
                let i = choose|i: int| 0 <= i < st.len() && (#[trigger] st[i]).0 == v2;
                assert(st2[i] == st[i]);
            } else {
                assert(st2[st.len() as int].0 == v);
            }
        }
        assert forall|i: int, j: int|
            0 <= i < st2.len() && 0 <= j < st2[i].1 implies color2[#[trigger] self.target(st2[i].0 as int, j)] == 2 by {
            assert(st2[i] == st[i]);
            assert(color[self.target(st[i].0 as int, j)] == 2);
        }
        assert forall|i: int|
            0 <= i < st2.len() - 1 implies (#[trigger] st2[i]).1 < self.deg(st2[i].0 as int) && self.target(
                st2[i].0 as int,
                st2[i].1 as int,
            ) == st2[i + 1].0 by {
            assert(st2[i] == st[i]);
            if i < st.len() - 1 {
                assert(st2[i + 1] == st[i + 1]);
            }
        }
        assert forall|k: int|
            0 <= k < ord.len() implies (#[trigger] ord[k]) < n && color2[ord[k] as int] == 2 && self.in_closure(
                ints(roots),
                ord[k] as int,
            ) by {
            assert(color[ord[k] as int] == 2);
        }
        assert forall|v2: int| 0 <= v2 < n && #[trigger] color2[v2] == 2 implies ints(ord).contains(v2) by {
            assert(color[v2] == 2);
        }
        assert forall|k: int| 0 <= k < ri implies color2[#[trigger] roots[k] as int] != 0 by {
            assert(color[roots[k] as int] != 0);
        }
        assert forall|i: int| 0 <= i < st2.len() implies (#[trigger] st2[i]).0 < n && color2[st2[i].0 as int] == 1
            && st2[i].1 <= self.deg(st2[i].0 as int) by {
            if i < st.len() {
                assert(st2[i] == st[i]);
                assert(color[st[i].0 as int] == 1);
            }
        }
        assert forall|v2: int| 0 <= v2 < n implies #[trigger] color2[v2] <= 2 by {
            if v2 != v {
                assert(color[v2] <= 2);
            }
        }
        assert(st2[0] == st[0]);
    }

    proof fn lemma_dfs_gray(
        &self,
        roots: Seq<usize>,
        color: Seq<u8>,
        st: Seq<(usize, usize)>,
        ord: Seq<usize>,
        ri: int,
    )
        requires
            self.dfs_inv(roots, color, st, ord, ri),
            st.len() > 0,
            st.last().1 < self.deg(st.last().0 as int),
            color[self.target(st.last().0 as int, st.last().1 as int)] == 1,
        ensures
            ({
                let v = self.target(st.last().0 as int, st.last().1 as int);
                &&& forall|i: int| 0 <= i < st.len() ==> (#[trigger] st[i]).0 < self.n()
                &&& forall|i: int|
                    0 <= i < st.len() - 1 ==> (#[trigger] st[i]).1 < self.deg(st[i].0 as int) && self.target(
                        st[i].0 as int,
                        st[i].1 as int,
                    ) == st[i + 1].0
                &&& exists|i: int| 0 <= i < st.len() && (#[trigger] st[i]).0 == v
                &&& self.in_closure(ints(roots), v)
                &&& frame_nodes(st).no_duplicates()
            }),
    {
        reveal(DependencyGraph::dfs_inv);
        let v = self.target(st.last().0 as int, st.last().1 as int);
        assert(st.last() == st[st.len() - 1]);
        assert(0 <= v < self.n());
        self.lemma_stack_in_closure(st, ints(roots), ri);
        let i = choose|i: int| 0 <= i < st.len() && (#[trigger] st[i]).0 == v;
        assert(self.in_closure(ints(roots), st[i].0 as int));
    }

    proof fn lemma_dfs_done(&self, roots: Seq<usize>, color: Seq<u8>, ord: Seq<usize>)
        requires
            self.dfs_inv(roots, color, Seq::empty(), ord, roots.len() as int),
        ensures
            self.is_closure_order(ints(roots), ints(ord)),
    {
        reveal(DependencyGraph::dfs_inv);
        let rs = ints(roots);
        let st = Seq::<(usize, usize)>::empty();
        assert forall|k: int| 0 <= k < rs.len() implies ints(ord).contains(#[trigger] rs[k]) by {
            let v = roots[k] as int;
            assert(rs[k] == v);
            assert(color[v] != 0);
            assert(color[v] <= 2);
            if color[v] == 1 {
                let i = choose|i: int| 0 <= i < st.len() && (#[trigger] st[i]).0 == v;
            }
        }
        assert forall|k: int| 0 <= k < ints(ord).len() implies self.is_node(#[trigger] ints(ord)[k]) && self.in_closure(
            rs,
            ints(ord)[k],
        ) by {
            assert(ord[k] < self.n());
        }
    }

    /// Depth-first search from `roots` with an explicit stack. Either every
    /// service reached is listed after its dependencies, or a cycle among
    /// the services reached is returned.
    pub fn closure_order(&self, roots: &Vec<usize>) -> (r: Result<Vec<usize>, Vec<usize>>)
        requires
            self.wf(),
            forall|k: int| 0 <= k < roots@.len() ==> roots@[k] < self.n(),
        ensures
            r matches Ok(ord) ==> self.is_closure_order(ints(roots@), ints(ord@)),
            r matches Err(c) ==> self.is_cycle(ints(c@)) && self.in_closure(ints(roots@), c@[0] as int)
                && ints(c@).drop_last().no_duplicates(),
    {
        let n = self.names.len();
        let mut color: Vec<u8> = vec![0u8; n];
        let mut stack: Vec<(usize, usize)> = Vec::new();
        let mut ord: Vec<usize> = Vec::new();
        let mut ri: usize = 0;
        proof {
            assert(color@ =~= Seq::new(self.n() as nat, |i: int| 0u8));
            self.lemma_dfs_start(roots@);
        }
        loop
            invariant
                n == self.n(),
                self.dfs_inv(roots@, color@, stack@, ord@, ri as int),
            decreases n - ord@.len() - stack@.len(), self.rem(stack@), roots@.len() - ri,
        {
            proof {
                self.lemma_dfs_facts(roots@, color@, stack@, ord@, ri as int);
            }
            if stack.len() == 0 {
                if ri == roots.len() {
                    proof {
                        assert(stack@ =~= Seq::<(usize, usize)>::empty());
                        self.lemma_dfs_done(roots@, color@, ord@);
                    }
                    return Ok(ord);
                }
                let r = roots[ri];
                if color[r] == 0 {
                    proof {
                        self.lemma_dfs_root_push(roots@, color@, stack@, ord@, ri as int);
                    }
                    color.set(r, 1);
                    stack.push((r, 0));
                    proof {
                        assert(stack@ =~= seq![(r, 0usize)]);
                    }
                } else {
                    proof {
                        self.lemma_dfs_root_skip(roots@, color@, stack@, ord@, ri as int);
                    }
                }
                ri = ri + 1;
            } else {
                let top = stack.len() - 1;
                let (u, c) = stack[top];
                proof {
                    assert(stack@.last() == stack@[top as int]);
                }
                if c == self.adjacency[u].len() {
                    proof {
                        self.lemma_dfs_pop(roots@, color@, stack@, ord@, ri as int);
                    }
                    stack.pop();
                    color.set(u, 2);
                    ord.push(u);
                } else {
                    let v = self.adjacency[u][c].0;
                    proof {
                        assert(self.target(u as int, c as int) == v);
                    }
                    if color[v] == 2 {
                        proof {
                            self.lemma_dfs_advance(roots@, color@, stack@, ord@, ri as int, (c + 1) as usize);
                        }
                        stack.set(top, (u, c + 1));
                    } else if color[v] == 1 {
                        proof {
                            self.lemma_dfs_gray(roots@, color@, stack@, ord@, ri as int);
                        }
                        let cyc = self.cycle_on_stack(&stack, v);
                        return Err(cyc);
                    } else {
                        proof {
                            self.lemma_dfs_push(roots@, color@, stack@, ord@, ri as int);
                        }
                        color.set(v, 1);
                        stack.push((v, 0));
                    }
                }
            }
        }
    }
    /// Along a walk that starts in a dependency-first order, every node is in the order.
    proof fn lemma_path_in_order(&self, ord: Seq<int>, q: Seq<int>, i: int)
        requires
            self.dependency_first(ord),
            self.is_path(q),
            ord.contains(q[0]),
            0 <= i < q.len(),
        ensures
            ord.contains(q[i]),
        decreases i,
    {
        if i > 0 {
            self.lemma_path_in_order(ord, q, i - 1);
            let k = choose|k: int| 0 <= k < ord.len() && ord[k] == q[i - 1];
            assert(self.edge_in(q[i - 1], q[i], false));
            let j = choose|j: int| 0 <= j < self.deg(q[i - 1]) && #[trigger] self.target(q[i - 1], j) == q[i];
            assert(self.target(ord[k], j) == q[i]);
            assert(listed_before(ord, k, self.target(ord[k], j)));
        }
    }

    /// A closure order holds every service that the roots reach.
    proof fn lemma_closure_in_order(&self, roots: Seq<int>, ord: Seq<int>, v: int)
        requires
            self.is_closure_order(roots, ord),
            self.in_closure(roots, v),
        ensures
            ord.contains(v),
    {
        let k = choose|k: int| 0 <= k < roots.len() && #[trigger] self.reaches(roots[k], v);
        let p = choose|p: Seq<int>| #[trigger] self.is_path(p) && p[0] == roots[k] && p.last() == v;
        assert(ord.contains(roots[k]));
        self.lemma_path_in_order(ord, p, p.len() - 1);
    }

    /// Along a walk inside a dependency-first order without repeats, the
    /// positions fall by at least one per step.
    proof fn lemma_positions_fall(&self, ord: Seq<int>, p: Seq<int>, i: int)
        requires
            self.dependency_first(ord),
            ord.no_duplicates(),
            self.is_path(p),
            ord.contains(p[0]),
            0 <= i < p.len(),
        ensures
            exists|k: int, k0: int|
                0 <= k < ord.len() && 0 <= k0 < ord.len() && ord[k] == p[i] && ord[k0] == p[0] && k + i <= k0,
        decreases i,
    {
        if i == 0 {
            let k0 = choose|k0: int| 0 <= k0 < ord.len() && ord[k0] == p[0];
            assert(ord[k0] == p[0] && k0 + 0 <= k0);
        } else {
            self.lemma_positions_fall(ord, p, i - 1);
            let (k, k0) = choose|k: int, k0: int|
                0 <= k < ord.len() && 0 <= k0 < ord.len() && ord[k] == p[i - 1] && ord[k0] == p[0] && k + (i - 1)
                    <= k0;
            assert(self.edge_in(p[i - 1], p[i], false));
            let j = choose|j: int| 0 <= j < self.deg(p[i - 1]) && #[trigger] self.target(p[i - 1], j) == p[i];
            assert(self.target(ord[k], j) == p[i]);
            assert(listed_before(ord, k, self.target(ord[k], j)));
            let k2 = choose|k2: int| 0 <= k2 < k && ord[k2] == self.target(ord[k], j);
            assert(ord[k2] == p[i] && k2 + i <= k0);
        }
    }

    /// Dependencies first: in a closure order, each service that a listed
    /// service depends on stands before it.
    pub proof fn lemma_order_respects_edges(&self, roots: Seq<int>, ord: Seq<int>)
        requires
            self.wf(),
            self.is_closure_order(roots, ord),
        ensures
            forall|a: int, b: int|
                0 <= a < ord.len() && 0 <= b < ord.len() && #[trigger] self.edge(ord[a], ord[b]) ==> b < a,
    {
        assert forall|a: int, b: int|
            0 <= a < ord.len() && 0 <= b < ord.len() && #[trigger] self.edge(ord[a], ord[b]) implies b < a by {
            let j = choose|j: int| 0 <= j < self.deg(ord[a]) && #[trigger] self.target(ord[a], j) == ord[b];
            assert(listed_before(ord, a, self.target(ord[a], j)));
            let k2 = choose|k2: int| 0 <= k2 < a && ord[k2] == self.target(ord[a], j);
            assert(ord[k2] == ord[b]);
        }
    }

    /// A closure order holds exactly the transitive closure of the roots, so
    /// its length is the closure's size.
    pub proof fn lemma_order_is_closure(&self, roots: Seq<int>, ord: Seq<int>)
        requires
            self.wf(),
            self.is_closure_order(roots, ord),
        ensures
            ord.to_set() == self.closure(roots),
            ord.len() == self.closure(roots).len(),
            self.closure(roots).finite(),
    {
        assert forall|v: int| ord.to_set().contains(v) <==> self.closure(roots).contains(v) by {
            if self.in_closure(roots, v) {
                self.lemma_closure_in_order(roots, ord, v);
            }
            if ord.contains(v) {
                let k = choose|k: int| 0 <= k < ord.len() && ord[k] == v;
                assert(self.in_closure(roots, ord[k]));
            }
        }
        assert(ord.to_set() =~= self.closure(roots));
        ord.unique_seq_to_set();
    }

    /// No order of the closure of `roots` lists every service after its
    /// dependencies when the roots reach a cycle.
    pub proof fn lemma_reachable_cycle_blocks_order(&self, roots: Seq<int>, p: Seq<int>)
        requires
            self.wf(),
            self.is_cycle(p),
            self.in_closure(roots, p[0]),
        ensures
            forall|ord: Seq<int>| !#[trigger] self.is_closure_order(roots, ord),
    {
        assert forall|ord: Seq<int>| !#[trigger] self.is_closure_order(roots, ord) by {
            if self.is_closure_order(roots, ord) {
                self.lemma_closure_in_order(roots, ord, p[0]);
                self.lemma_positions_fall(ord, p, p.len() - 1);
                let (k, k0) = choose|k: int, k0: int|
                    0 <= k < ord.len() && 0 <= k0 < ord.len() && ord[k] == p[p.len() - 1] && ord[k0] == p[0] && k
                        + (p.len() - 1) <= k0;
                assert(ord[k] == ord[k0]);
            }
        }
    }

    /// Distinct nodes carry distinct names.
    proof fn lemma_distinct_names(&self, path: Seq<String>, idx: Seq<usize>)
        requires
            self.wf(),
            path.len() == idx.len(),
            path.len() >= 1,
            forall|k: int| 0 <= k < idx.len() ==> idx[k] < self.n(),
            forall|k: int| 0 <= k < path.len() ==> #[trigger] path[k]@ == self.name(idx[k] as int),
            ints(idx).drop_last().no_duplicates(),
        ensures
            view_names(path).drop_last().no_duplicates(),
    {
        assert forall|a: int, b: int| 0 <= a < b < path.len() - 1 implies view_names(path).drop_last()[a]
            != view_names(path).drop_last()[b] by {
            assert(ints(idx).drop_last()[a] != ints(idx).drop_last()[b]);
            assert(path[a]@ == self.name(idx[a] as int));
            assert(path[b]@ == self.name(idx[b] as int));
        }
    }

    /// The nodes 0, 1, ..., n - 1.
    fn all_nodes(&self) -> (r: Vec<usize>)
        ensures
            r@.len() == self.n(),
            forall|k: int| 0 <= k < r@.len() ==> #[trigger] r@[k] == k,
    {
        let mut r: Vec<usize> = Vec::new();
        let mut i: usize = 0;
        while i < self.names.len()
            invariant
                i <= self.n(),
                r@.len() == i,
                forall|k: int| 0 <= k < i ==> #[trigger] r@[k] == k,
            decreases self.n() - i,
        {
            r.push(i);
            i = i + 1;
        }
        r
    }

    /// Some cycle among the dependencies, if there is one: the path names a
    /// service, the services it depends on one after another, and that
    /// service again.
    pub fn detect_cycles(&self) -> (r: Option<CycleInfo>)
        requires
            self.wf(),
        ensures
            r.is_none() <==> !self.has_cycle(),
            r matches Some(c) ==> {
                &&& self.is_cycle(self.indices_of(c.cycle_path@))
                &&& forall|k: int| 0 <= k < c.cycle_path@.len() ==> self.has_node(#[trigger] c.cycle_path@[k]@)
                &&& c.description@ == cycle_description(view_names(c.cycle_path@))
                &&& view_names(c.cycle_path@).drop_last().no_duplicates()
            },
    {
        let roots = self.all_nodes();
        match self.closure_order(&roots) {
            Ok(ord) => {
                proof {
                    assert forall|p: Seq<int>| !#[trigger] self.is_cycle(p) by {
                        if self.is_cycle(p) {
                            let rs = ints(roots@);
                            assert(rs[p[0]] == p[0]);
                            let q = seq![p[0]];
                            assert(self.is_path(q));
                            assert(self.reaches(rs[p[0]], p[0]));
                            self.lemma_reachable_cycle_blocks_order(rs, p);
                            assert(!self.is_closure_order(rs, ints(ord@)));
                        }
                    }
                }
                None
            },
            Err(cyc) => {
                proof {
                    assert forall|k: int| 0 <= k < cyc@.len() implies cyc@[k] < self.n() by {
                        assert(self.is_node(ints(cyc@)[k]));
                    }
                }
                let path = self.names_for(&cyc);
                proof {
                    assert(self.indices_of(path@) =~= ints(cyc@));
                    self.lemma_distinct_names(path@, cyc@);
                }
                let description = describe_cycle(&path);
                Some(CycleInfo { cycle_path: path, description })
            },
        }
    }
}

impl DependencyGraph {
    /// Same services, in the same order, with the same edges.
    pub open spec fn same_shape(&self, other: &DependencyGraph) -> bool {
        &&& self.n() == other.n()
        &&& forall|i: int| 0 <= i < self.n() ==> #[trigger] self.name(i) == other.name(i)
        &&& forall|i: int| 0 <= i < self.n() ==> #[trigger] self.row(i) == other.row(i)
    }

    pub proof fn lemma_same_edges(&self, other: &DependencyGraph)
        requires
            self.wf(),
            other.wf(),
            self.same_shape(other),
        ensures
            forall|u: int, j: int| 0 <= u < self.n() ==> #[trigger] self.target(u, j) == other.target(u, j)
                && self.deg(u) == other.deg(u) && self.edge_required(u, j) == other.edge_required(u, j),
            forall|u: int, v: int, r: bool| 0 <= u < self.n() ==> #[trigger] self.edge_in(u, v, r) == other.edge_in(u, v, r),
    {
        assert forall|u: int, j: int| 0 <= u < self.n() implies #[trigger] self.target(u, j) == other.target(u, j)
            && self.deg(u) == other.deg(u) && self.edge_required(u, j) == other.edge_required(u, j) by {
            assert(self.row(u) == other.row(u));
        }
        assert forall|u: int, v: int, r: bool| 0 <= u < self.n() implies #[trigger] self.edge_in(u, v, r) == other.edge_in(u, v, r) by {
            assert(self.row(u) == other.row(u));
            if self.edge_in(u, v, r) {
                let j = choose|j: int| 0 <= j < self.deg(u) && #[trigger] self.target(u, j) == v && (r ==> self.edge_required(u, j));
                assert(other.target(u, j) == v);
            }
            if other.edge_in(u, v, r) {
                let j = choose|j: int| 0 <= j < other.deg(u) && #[trigger] other.target(u, j) == v && (r ==> other.edge_required(u, j));
                assert(self.target(u, j) == v);
            }
        }
    }

    proof fn lemma_same_paths(&self, other: &DependencyGraph)
        requires
            self.n() == other.n(),
            forall|u: int, v: int, r: bool| 0 <= u < self.n() ==> #[trigger] self.edge_in(u, v, r) == other.edge_in(u, v, r),
        ensures
            forall|p: Seq<int>, r: bool| #[trigger] self.is_path_in(p, r) == other.is_path_in(p, r),
    {
        assert forall|p: Seq<int>, r: bool| #[trigger] self.is_path_in(p, r) == other.is_path_in(p, r) by {
            if self.is_path_in(p, r) {
                assert forall|i: int| 0 <= i < p.len() - 1 implies other.edge_in(#[trigger] p[i], p[i + 1], r) by {
                    assert(self.is_node(p[i]));
                    assert(self.edge_in(p[i], p[i + 1], r));
                }
            }
            if other.is_path_in(p, r) {
                assert forall|i: int| 0 <= i < p.len() - 1 implies self.edge_in(#[trigger] p[i], p[i + 1], r) by {
                    assert(other.is_node(p[i]));
                    assert(other.edge_in(p[i], p[i + 1], r));
                }
            }
        }
    }

    proof fn lemma_same_reach(&self, other: &DependencyGraph)
        requires
            forall|p: Seq<int>, r: bool| #[trigger] self.is_path_in(p, r) == other.is_path_in(p, r),
        ensures
            forall|u: int, x: int, r: bool| #[trigger] self.depends_on(u, x, r) == other.depends_on(u, x, r),
            forall|u: int, v: int| #[trigger] self.reaches(u, v) == other.reaches(u, v),
            forall|roots: Seq<int>, v: int| #[trigger] self.in_closure(roots, v) == other.in_closure(roots, v),
            forall|p: Seq<int>| #[trigger] self.is_cycle(p) == other.is_cycle(p),
            self.has_cycle() == other.has_cycle(),
            forall|x: int| #[trigger] self.ancestors(x) == other.ancestors(x),
            forall|x: int| #[trigger] self.required_ancestors(x) == other.required_ancestors(x),
    {
        assert forall|u: int, x: int, r: bool| #[trigger] self.depends_on(u, x, r) == other.depends_on(u, x, r) by {
            if self.depends_on(u, x, r) {
                let p = choose|p: Seq<int>| #[trigger] self.is_path_in(p, r) && p.len() >= 2 && p[0] == u && p.last() == x;
                assert(other.is_path_in(p, r));
            }
            if other.depends_on(u, x, r) {
                let p = choose|p: Seq<int>| #[trigger] other.is_path_in(p, r) && p.len() >= 2 && p[0] == u && p.last() == x;
                assert(self.is_path_in(p, r));
            }
        }
        assert forall|u: int, v: int| #[trigger] self.reaches(u, v) == other.reaches(u, v) by {
            if self.reaches(u, v) {
                let p = choose|p: Seq<int>| #[trigger] self.is_path(p) && p[0] == u && p.last() == v;
                assert(self.is_path_in(p, false));
                assert(other.is_path(p));
            }
            if other.reaches(u, v) {
                let p = choose|p: Seq<int>| #[trigger] other.is_path(p) && p[0] == u && p.last() == v;
                assert(other.is_path_in(p, false));
                assert(self.is_path(p));
            }
        }
        assert forall|roots: Seq<int>, v: int| #[trigger] self.in_closure(roots, v) == other.in_closure(roots, v) by {
            if self.in_closure(roots, v) {
                let k = choose|k: int| 0 <= k < roots.len() && #[trigger] self.reaches(roots[k], v);
                assert(other.reaches(roots[k], v));
            }
            if other.in_closure(roots, v) {
                let k = choose|k: int| 0 <= k < roots.len() && #[trigger] other.reaches(roots[k], v);
                assert(self.reaches(roots[k], v));
            }
        }
        assert forall|p: Seq<int>| #[trigger] self.is_cycle(p) == other.is_cycle(p) by {
            assert(self.is_path_in(p, false) == other.is_path_in(p, false));
        }
        if self.has_cycle() {
            let p = choose|p: Seq<int>| #[trigger] self.is_cycle(p);
            assert(other.is_cycle(p));
        }
        if other.has_cycle() {
            let p = choose|p: Seq<int>| #[trigger] other.is_cycle(p);
            assert(self.is_cycle(p));
        }
        assert forall|x: int| #[trigger] self.ancestors(x) == other.ancestors(x) by {
            assert(self.ancestors(x) =~= other.ancestors(x));
        }
        assert forall|x: int| #[trigger] self.required_ancestors(x) == other.required_ancestors(x) by {
            assert(self.required_ancestors(x) =~= other.required_ancestors(x));
        }
    }

    proof fn lemma_same_names(&self, other: &DependencyGraph)
        requires
            self.wf(),
            other.wf(),
            self.same_shape(other),
        ensures
            forall|s: Seq<char>| #[trigger] self.has_node(s) == other.has_node(s),
            forall|s: Seq<char>| self.has_node(s) ==> #[trigger] self.index_of(s) == other.index_of(s),
    {
        assert forall|s: Seq<char>| #[trigger] self.has_node(s) == other.has_node(s) by {
            if self.has_node(s) {
                let i = choose|i: int| 0 <= i < self.n() && self.name(i) == s;
                assert(other.name(i) == s);
            }
            if other.has_node(s) {
                let i = choose|i: int| 0 <= i < other.n() && other.name(i) == s;
                assert(self.name(i) == s);
            }
        }
        assert forall|s: Seq<char>| self.has_node(s) implies #[trigger] self.index_of(s) == other.index_of(s) by {
            let i = self.index_of(s);
            assert(other.has_node(s));
            let k = other.index_of(s);
            assert(self.name(k) == other.name(k));
        }
    }

    /// Graphs of the same shape agree on every walk, cycle and closure.
    pub proof fn lemma_same_shape(&self, other: &DependencyGraph)
        requires
            self.wf(),
            other.wf(),
            self.same_shape(other),
        ensures
            forall|p: Seq<int>, r: bool| #[trigger] self.is_path_in(p, r) == other.is_path_in(p, r),
            forall|u: int, x: int, r: bool| #[trigger] self.depends_on(u, x, r) == other.depends_on(u, x, r),
            forall|u: int, v: int| #[trigger] self.reaches(u, v) == other.reaches(u, v),
            forall|roots: Seq<int>, v: int| #[trigger] self.in_closure(roots, v) == other.in_closure(roots, v),
            forall|p: Seq<int>| #[trigger] self.is_cycle(p) == other.is_cycle(p),
            self.has_cycle() == other.has_cycle(),
            forall|s: Seq<char>| #[trigger] self.has_node(s) == other.has_node(s),
            forall|s: Seq<char>| self.has_node(s) ==> #[trigger] self.index_of(s) == other.index_of(s),
            forall|x: int| #[trigger] self.ancestors(x) == other.ancestors(x),
            forall|x: int| #[trigger] self.required_ancestors(x) == other.required_ancestors(x),
    {
        self.lemma_same_edges(other);
        self.lemma_same_paths(other);
        self.lemma_same_reach(other);
        self.lemma_same_names(other);
    }
}

impl DependencyGraph {
    /// `path` names a cycle without repeats, reached from `roots`, and
    /// `description` reports it.
    pub open spec fn reported_cycle(&self, roots: Seq<int>, path: Seq<String>, description: Seq<char>) -> bool {
        &&& self.is_cycle(self.indices_of(path))
        &&& self.in_closure(roots, self.indices_of(path)[0])
        &&& forall|k: int| 0 <= k < path.len() ==> self.has_node(#[trigger] path[k]@)
        &&& view_names(path).drop_last().no_duplicates()
        &&& description == cycle_description(view_names(path))
    }

    /// `description` reports a cycle reached from `roots`.
    pub open spec fn cycle_reported(&self, roots: Seq<int>, description: Seq<char>) -> bool {
        exists|path: Seq<String>| #[trigger] self.reported_cycle(roots, path, description)
    }
}

/// How a cycle is reported: its services joined by arrows.
pub open spec fn cycle_description(path: Seq<Seq<char>>) -> Seq<char> {
    "Circular dependency detected: "@ + joined(path, " -> "@)
}

fn describe_cycle(path: &Vec<String>) -> (r: String)
    ensures
        r@ == cycle_description(view_names(path@)),
{
    let mut r = String::from_str("Circular dependency detected: ");
    let tail = join_strings(path, " -> ");
    r.append(tail.as_str());
    r
}

/// Orders services so that dependencies come first.
pub struct DependencyResolver;

impl DependencyResolver {
    pub fn new() -> (r: Self) {
        DependencyResolver
    }

    /// The services that `service_names` need, each once and after all of
    /// its dependencies. Fails on the first name that is not in the graph,
    /// and where the named services reach a cycle of dependencies. The
    /// closure of the named services is walked depth first with an explicit
    /// stack; a service is listed when all of its dependencies are, so the
    /// post-order is already dependencies-first, and an edge back onto the
    /// stack is the cycle that is reported.
    pub fn resolve_order(&self, graph: &DependencyGraph, service_names: &[String]) -> (r: Result<
        Vec<String>,
        AureaCoreError,
    >)
        requires
            graph.wf(),
        ensures
            ({
                let roots = graph.indices_of(service_names@);
                let present = forall|k: int|
                    0 <= k < service_names@.len() ==> graph.has_node(#[trigger] service_names@[k]@);
                &&& (r matches Err(AureaCoreError::ServiceNotFound(s)) ==> exists|k: int|
                    0 <= k < service_names@.len() && s@ == (#[trigger] service_names@[k])@ && !graph.has_node(s@))
                &&& (!present ==> (r matches Err(AureaCoreError::ServiceNotFound(_))))
                &&& (present ==> (r is Ok <==> !exists|p: Seq<int>|
                    #[trigger] graph.is_cycle(p) && graph.in_closure(roots, p[0])))
                &&& (present ==> (r matches Err(e) ==> e is CircularDependency))
                &&& (r matches Err(AureaCoreError::CircularDependency(d)) ==> graph.cycle_reported(roots, d@))
                &&& (r matches Ok(v) ==> graph.is_closure_order(roots, graph.indices_of(v@))
                    && forall|k: int| 0 <= k < v@.len() ==> graph.has_node(#[trigger] v@[k]@))
            }),
    {
        let mut roots: Vec<usize> = Vec::new();
        let mut i: usize = 0;
        while i < service_names.len()
            invariant
                graph.wf(),
                i <= service_names@.len(),
                roots@.len() == i,
                forall|k: int| 0 <= k < i ==> graph.has_node(#[trigger] service_names@[k]@),
                forall|k: int| 0 <= k < i ==> #[trigger] roots@[k] as int == graph.index_of(service_names@[k]@),
                forall|k: int| 0 <= k < i ==> #[trigger] roots@[k] < graph.n(),
            decreases service_names@.len() - i,
        {
            match graph.find(service_names[i].as_str()) {
                Some(u) => {
                    roots.push(u);
                },
                None => {
                    proof {
                        assert(!graph.has_node(service_names@[i as int]@));
                    }
                    return Err(AureaCoreError::ServiceNotFound(service_names[i].clone()));
                },
            }
            i = i + 1;
        }
        let ghost rs = graph.indices_of(service_names@);
        proof {
            assert(ints(roots@) =~= rs);
        }
        match graph.closure_order(&roots) {
            Ok(ord) => {
                proof {
                    assert forall|k: int| 0 <= k < ord@.len() implies ord@[k] < graph.n() by {
                        assert(graph.is_node(ints(ord@)[k]));
                    }
                }
                let names = graph.names_for(&ord);
                proof {
                    assert(graph.indices_of(names@) =~= ints(ord@));
                    assert forall|p: Seq<int>| !(#[trigger] graph.is_cycle(p) && graph.in_closure(rs, p[0])) by {
                        if graph.is_cycle(p) && graph.in_closure(rs, p[0]) {
                            graph.lemma_reachable_cycle_blocks_order(rs, p);
                            assert(!graph.is_closure_order(rs, ints(ord@)));
                        }
                    }
                }
                Ok(names)
            },
            Err(cyc) => {
                proof {
                    assert forall|k: int| 0 <= k < cyc@.len() implies cyc@[k] < graph.n() by {
                        assert(graph.is_node(ints(cyc@)[k]));
                    }
                }
                let path = graph.names_for(&cyc);
                let description = describe_cycle(&path);
                proof {
                    assert(graph.indices_of(path@) =~= ints(cyc@));
                    graph.lemma_distinct_names(path@, cyc@);
                    assert(graph.reported_cycle(rs, path@, description@));
                    assert(graph.cycle_reported(rs, description@));
                }
                Err(AureaCoreError::CircularDependency(description))
            },
        }
    }
}

} // verus!
