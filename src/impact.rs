use vstd::prelude::*;
use vstd::string::StringExecFns;

use crate::graph::{view_names, DependencyGraph};
use crate::order::{ints, DependencyResolver};

verus! {

/// A service affected by a change to another one.
#[derive(Debug, Clone)]
pub struct ImpactInfo {
    /// The affected service.
    pub service_name: String,
    /// Whether the edge by which it was reached is required.
    pub is_required: bool,
    /// From the changed service to the affected one, each depending on the one before.
    pub impact_path: Vec<String>,
    pub description: String,
}

/// How an impact is reported: `u` depends on `w`, required or not.
pub open spec fn impact_description(required: bool, w: Seq<char>, u: Seq<char>) -> Seq<char> {
    if required {
        "Required dependency on '"@ + w + "', changes will impact '"@ + u + "'"@
    } else {
        "Optional dependency on '"@ + w + "', changes may impact '"@ + u + "'"@
    }
}

fn describe_impact(required: bool, w: &String, u: &String) -> (r: String)
    ensures
        r@ == impact_description(required, w@, u@),
{
    let mut r = if required {
        String::from_str("Required dependency on '")
    } else {
        String::from_str("Optional dependency on '")
    };
    r.append(w.as_str());
    if required {
        r.append("', changes will impact '");
    } else {
        r.append("', changes may impact '");
    }
    r.append(u.as_str());
    r.append("'");
    r
}

fn copy_path(v: &Vec<usize>) -> (r: Vec<usize>)
    ensures
        r@ == v@,
{
    let mut r: Vec<usize> = Vec::new();
    let mut i: usize = 0;
    while i < v.len()
        invariant
            i <= v@.len(),
            r@ == v@.subrange(0, i as int),
        decreases v@.len() - i,
    {
        r.push(v[i]);
        i = i + 1;
        proof {
            assert(r@ =~= v@.subrange(0, i as int));
        }
    }
    proof {
        assert(v@.subrange(0, v@.len() as int) =~= v@);
    }
    r
}

impl DependencyGraph {
    /// `info` reports a service of the graph that depends on `x`: with a
    /// walk from `x` to it, each service depending on the one before, the
    /// required flag of the walk's last edge, and the matching description.
    pub open spec fn impact_entry(&self, x: int, info: ImpactInfo) -> bool {
        let p = self.indices_of(info.impact_path@);
        &&& self.has_node(info.service_name@)
        &&& forall|m: int| 0 <= m < p.len() ==> self.has_node(#[trigger] info.impact_path@[m]@)
        &&& self.is_rev_path(p, false)
        &&& p.len() >= 2
        &&& p[0] == x
        &&& p.last() == self.index_of(info.service_name@)
        &&& self.edge_with_flag(p.last(), p[p.len() - 2], info.is_required)
        &&& info.description@ == impact_description(info.is_required, info.impact_path@[p.len() - 2]@, info.service_name@)
    }

    /// Graphs of the same shape agree on impact entries.
    pub proof fn lemma_same_shape_entry(&self, other: &DependencyGraph, x: int, info: ImpactInfo)
        requires
            self.wf(),
            other.wf(),
            self.same_shape(other),
            self.impact_entry(x, info),
        ensures
            other.impact_entry(x, info),
    {
        self.lemma_same_shape(other);
        self.lemma_same_edges(other);
        let p = self.indices_of(info.impact_path@);
        assert(other.indices_of(info.impact_path@) =~= p) by {
            assert forall|m: int| 0 <= m < p.len() implies other.indices_of(info.impact_path@)[m] == p[m] by {
                assert(self.has_node(info.impact_path@[m]@));
            }
        }
        assert forall|i: int| 0 <= i < p.len() - 1 implies other.edge_in(p[i + 1], #[trigger] p[i], false) by {
            assert(self.is_node(p[i + 1]));
            assert(self.edge_in(p[i + 1], p[i], false));
        }
        let u = p.last();
        assert(self.is_node(u));
        let j = choose|j: int|
            0 <= j < self.deg(u) && #[trigger] self.target(u, j) == p[p.len() - 2] && self.edge_required(u, j)
                == info.is_required;
        assert(other.target(u, j) == p[p.len() - 2]);
    }

    /// A walk against the edges: each node depends on the one before it.
    pub open spec fn is_rev_path(&self, p: Seq<int>, only_required: bool) -> bool {
        &&& p.len() >= 1
        &&& forall|i: int| 0 <= i < p.len() ==> self.is_node(#[trigger] p[i])
        &&& forall|i: int| 0 <= i < p.len() - 1 ==> self.edge_in(p[i + 1], #[trigger] p[i], only_required)
    }

    /// An edge from `u` to `w` whose required flag is `req`.
    pub open spec fn edge_with_flag(&self, u: int, w: int, req: bool) -> bool {
        exists|j: int| 0 <= j < self.deg(u) && #[trigger] self.target(u, j) == w && self.edge_required(u, j) == req
    }

    /// A reversed walk from `x` to `u` makes `u` depend on `x`.
    pub proof fn lemma_rev_path(&self, p: Seq<int>, only_required: bool)
        requires
            self.is_rev_path(p, only_required),
            p.len() >= 2,
        ensures
            self.depends_on(p.last(), p[0], only_required),
    {
        let q = p.reverse();
        assert forall|i: int| 0 <= i < q.len() implies self.is_node(#[trigger] q[i]) by {
            assert(q[i] == p[p.len() - 1 - i]);
        }
        assert forall|i: int| 0 <= i < q.len() - 1 implies self.edge_in(#[trigger] q[i], q[i + 1], only_required) by {
            let m = p.len() - 2 - i;
            assert(q[i] == p[m + 1]);
            assert(q[i + 1] == p[m]);
            assert(self.edge_in(p[m + 1], p[m], only_required));
        }
        assert(self.is_path_in(q, only_required));
        assert(q[0] == p.last());
        assert(q.last() == p[0]);
    }

    /// The search state: `found` lists, without repeats, the services marked
    /// in `mark`; each has in `paths` a reversed walk from `x` to it, and in
    /// `req` the flag of its last edge.
    #[verifier::opaque]
    pub open spec fn bfs_inv(
        &self,
        x: int,
        only_required: bool,
        mark: Seq<bool>,
        found: Seq<usize>,
        req: Seq<bool>,
        paths: Seq<Vec<usize>>,
    ) -> bool {
        &&& self.wf()
        &&& 0 <= x < self.n()
        &&& mark.len() == self.n()
        &&& found.len() == req.len() && found.len() == paths.len()
        &&& forall|k: int| 0 <= k < found.len() ==> (#[trigger] found[k]) < self.n() && mark[found[k] as int]
        &&& forall|u: int| 0 <= u < self.n() && #[trigger] mark[u] ==> ints(found).contains(u)
        &&& ints(found).no_duplicates()
        &&& forall|k: int|
            0 <= k < paths.len() ==> {
                let p = ints(#[trigger] paths[k]@);
                &&& self.is_rev_path(p, only_required)
                &&& p.len() >= 2
                &&& p[0] == x
                &&& p.last() == found[k]
                &&& self.edge_with_flag(found[k] as int, p[p.len() - 2], req[k])
            }
    }

    proof fn lemma_bfs_start(&self, x: int, only_required: bool)
        requires
            self.wf(),
            0 <= x < self.n(),
        ensures
            self.bfs_inv(
                x,
                only_required,
                Seq::new(self.n() as nat, |i: int| false),
                Seq::empty(),
                Seq::empty(),
                Seq::empty(),
            ),
    {
        reveal(DependencyGraph::bfs_inv);
        assert(ints(Seq::<usize>::empty()) =~= Seq::<int>::empty());
    }

    proof fn lemma_bfs_facts(
        &self,
        x: int,
        only_required: bool,
        mark: Seq<bool>,
        found: Seq<usize>,
        req: Seq<bool>,
        paths: Seq<Vec<usize>>,
    )
        requires
            self.bfs_inv(x, only_required, mark, found, req, paths),
        ensures
            self.wf(),
            0 <= x < self.n(),
            mark.len() == self.n(),
            found.len() == req.len() && found.len() == paths.len(),
            found.len() <= self.n(),
            forall|k: int| 0 <= k < found.len() ==> (#[trigger] found[k]) < self.n() && mark[found[k] as int],
            forall|u: int| 0 <= u < self.n() && #[trigger] mark[u] ==> ints(found).contains(u),
            ints(found).no_duplicates(),
            forall|k: int|
                0 <= k < paths.len() ==> {
                    let p = ints(#[trigger] paths[k]@);
                    &&& self.is_rev_path(p, only_required)
                    &&& p.len() >= 2
                    &&& p[0] == x
                    &&& p.last() == found[k]
                    &&& self.edge_with_flag(found[k] as int, p[p.len() - 2], req[k])
                },
    {
        reveal(DependencyGraph::bfs_inv);
        crate::order::lemma_distinct_bounded(ints(found), self.n());
    }

    proof fn lemma_bfs_add(
        &self,
        x: int,
        only_required: bool,
        mark: Seq<bool>,
        found: Seq<usize>,
        req: Seq<bool>,
        paths: Seq<Vec<usize>>,
        wpath: Seq<usize>,
        u: usize,
        j: int,
        newp: Vec<usize>,
    )
        requires
            self.bfs_inv(x, only_required, mark, found, req, paths),
            self.is_rev_path(ints(wpath), only_required),
            wpath.len() >= 1,
            wpath[0] == x,
            u < self.n(),
            !mark[u as int],
            0 <= j < self.deg(u as int),
            self.target(u as int, j) == wpath.last(),
            only_required ==> self.edge_required(u as int, j),
            newp@ == wpath.push(u),
        ensures
            self.bfs_inv(
                x,
                only_required,
                mark.update(u as int, true),
                found.push(u),
                req.push(self.edge_required(u as int, j)),
                paths.push(newp),
            ),
    {
        reveal(DependencyGraph::bfs_inv);
        let n = self.n();
        let mark2 = mark.update(u as int, true);
        let found2 = found.push(u);
        let req2 = req.push(self.edge_required(u as int, j));
        let paths2 = paths.push(newp);
        assert(ints(found2) =~= ints(found).push(u as int));
        assert(!ints(found).contains(u as int)) by {
            if ints(found).contains(u as int) {
                let k = choose|k: int| 0 <= k < ints(found).len() && ints(found)[k] == u as int;
                assert(mark[found[k] as int]);
            }
        }
        assert(ints(found2).no_duplicates()) by {
            assert forall|a: int, b: int| 0 <= a < b < ints(found2).len() implies ints(found2)[a] != ints(found2)[b] by {
                if b == found.len() {
                    assert(ints(found2)[a] == ints(found)[a]);
                    assert(ints(found).contains(ints(found)[a]));
                } else {
                    assert(ints(found)[a] != ints(found)[b]);
                }
            }
        }
        assert forall|k: int| 0 <= k < found2.len() implies (#[trigger] found2[k]) < n && mark2[found2[k] as int] by {
            if k < found.len() {
                assert(found2[k] == found[k]);
            }
        }
        assert forall|v: int| 0 <= v < n && #[trigger] mark2[v] implies ints(found2).contains(v) by {
            if v == u {
                assert(ints(found2)[found.len() as int] == v);
            } else {
                assert(mark[v]);
                let k = choose|k: int| 0 <= k < ints(found).len() && ints(found)[k] == v;
                assert(ints(found2)[k] == v);
            }
        }
        let np = ints(newp@);
        let wp = ints(wpath);
        assert(np =~= wp.push(u as int));
        assert(self.is_rev_path(np, only_required)) by {
            assert forall|i: int| 0 <= i < np.len() implies self.is_node(#[trigger] np[i]) by {
                if i < wp.len() {
                    assert(np[i] == wp[i]);
                }
            }
            assert forall|i: int| 0 <= i < np.len() - 1 implies self.edge_in(np[i + 1], #[trigger] np[i], only_required) by {
                assert(np[i] == wp[i]);
                if i < wp.len() - 1 {
                    assert(np[i + 1] == wp[i + 1]);
                    assert(self.edge_in(wp[i + 1], wp[i], only_required));
                } else {
                    assert(np[i + 1] == u);
                    assert(wp[i] == wpath.last());
                    assert(self.target(u as int, j) == wp[i]);
                }
            }
        }
        assert(np[np.len() - 2] == wpath.last());
        assert(self.edge_with_flag(u as int, np[np.len() - 2], self.edge_required(u as int, j)));
        assert forall|k: int|
            0 <= k < paths2.len() implies {
                let p = ints(#[trigger] paths2[k]@);
                &&& self.is_rev_path(p, only_required)
                &&& p.len() >= 2
                &&& p[0] == x
                &&& p.last() == found2[k]
                &&& self.edge_with_flag(found2[k] as int, p[p.len() - 2], req2[k])
            } by {
            if k < paths.len() {
                assert(paths2[k] == paths[k]);
                assert(found2[k] == found[k]);
                assert(req2[k] == req[k]);
            } else {
                assert(paths2[k] == newp);
            }
        }
    }

    /// Adds every unmarked service with an edge to `w` (a required one,
    /// where `only_required` holds), reached by `wpath` and one more edge.
    fn scan_dependents(
        &self,
        x: usize,
        only_required: bool,
        w: usize,
        wpath: &Vec<usize>,
        mark: &mut Vec<bool>,
        found: &mut Vec<usize>,
        req: &mut Vec<bool>,
        paths: &mut Vec<Vec<usize>>,
    )
        requires
            self.bfs_inv(x as int, only_required, old(mark)@, old(found)@, old(req)@, old(paths)@),
            self.is_rev_path(ints(wpath@), only_required),
            wpath@.len() >= 1,
            wpath@[0] == x,
            wpath@.last() == w,
        ensures
            self.bfs_inv(x as int, only_required, final(mark)@, final(found)@, final(req)@, final(paths)@),
            forall|v: int| 0 <= v < old(mark)@.len() && old(mark)@[v] ==> #[trigger] final(mark)@[v],
            final(found)@.len() >= old(found)@.len(),
            forall|k: int| 0 <= k < old(found)@.len() ==> #[trigger] final(found)@[k] == old(found)@[k],
            forall|u: int| 0 <= u < self.n() && self.edge_in(u, w as int, only_required) ==> #[trigger] final(mark)@[u],
    {
        proof {
            self.lemma_bfs_facts(x as int, only_required, mark@, found@, req@, paths@);
        }
        let ghost mark0 = mark@;
        let ghost found0 = found@;
        let n = self.names.len();
        let mut u: usize = 0;
        while u < n
            invariant
                self.wf(),
                n == self.n(),
                u <= n,
                self.is_rev_path(ints(wpath@), only_required),
                wpath@.len() >= 1,
                wpath@[0] == x,
                wpath@.last() == w,
                self.bfs_inv(x as int, only_required, mark@, found@, req@, paths@),
                mark@.len() == n,
                mark0.len() == n,
                forall|v: int| 0 <= v < n && mark0[v] ==> #[trigger] mark@[v],
                found@.len() >= found0.len(),
                forall|k: int| 0 <= k < found0.len() ==> #[trigger] found@[k] == found0[k],
                forall|v: int| 0 <= v < u && self.edge_in(v, w as int, only_required) ==> #[trigger] mark@[v],
            decreases n - u,
        {
            let mut j: usize = 0;
            while j < self.adjacency[u].len()
                invariant
                    self.wf(),
                    n == self.n(),
                    u < n,
                    j <= self.deg(u as int),
                    self.is_rev_path(ints(wpath@), only_required),
                    wpath@.len() >= 1,
                    wpath@[0] == x,
                    wpath@.last() == w,
                    self.bfs_inv(x as int, only_required, mark@, found@, req@, paths@),
                    mark@.len() == n,
                    mark0.len() == n,
                    forall|v: int| 0 <= v < n && mark0[v] ==> #[trigger] mark@[v],
                    found@.len() >= found0.len(),
                    forall|k: int| 0 <= k < found0.len() ==> #[trigger] found@[k] == found0[k],
                    forall|v: int| 0 <= v < u && self.edge_in(v, w as int, only_required) ==> #[trigger] mark@[v],
                    forall|i: int|
                        0 <= i < j && #[trigger] self.target(u as int, i) == w && (only_required ==> self.edge_required(
                            u as int,
                            i,
                        )) ==> mark@[u as int],
                decreases self.deg(u as int) - j,
            {
                let (t, ref meta) = self.adjacency[u][j];
                proof {
                    assert(self.target(u as int, j as int) == t);
                    assert(self.edge_required(u as int, j as int) == meta.required);
                }
                if t == w && (!only_required || meta.required) && !mark[u] {
                    let mut newp = copy_path(wpath);
                    newp.push(u);
                    proof {
                        self.lemma_bfs_add(
                            x as int,
                            only_required,
                            mark@,
                            found@,
                            req@,
                            paths@,
                            wpath@,
                            u,
                            j as int,
                            newp,
                        );
                    }
                    let ghost mark1 = mark@;
                    mark.set(u, true);
                    found.push(u);
                    req.push(meta.required);
                    paths.push(newp);
                    proof {
                        assert forall|v: int| 0 <= v < n && mark0[v] implies #[trigger] mark@[v] by {
                            assert(mark1[v]);
                        }
                        assert forall|v: int| 0 <= v < u && self.edge_in(v, w as int, only_required) implies #[trigger] mark@[v] by {
                            assert(mark1[v]);
                        }
                        self.lemma_bfs_facts(x as int, only_required, mark@, found@, req@, paths@);
                    }
                }
                j = j + 1;
            }
            proof {
                assert forall|v: int| 0 <= v < u + 1 && self.edge_in(v, w as int, only_required) implies #[trigger] mark@[v] by {
                    if v == u {
                        if only_required {
                            let i = choose|i: int|
                                0 <= i < self.deg(u as int) && #[trigger] self.target(u as int, i) == w
                                    && self.edge_required(u as int, i);
                        } else {
                            let i = choose|i: int| 0 <= i < self.deg(u as int) && #[trigger] self.target(u as int, i) == w;
                        }
                    }
                }
            }
            u = u + 1;
        }
    }

    /// Breadth-first search against the edges from `x`: every service that
    /// depends on `x` through one edge or more (required edges only, where
    /// `only_required` holds), each once, with the walk by which it was
    /// reached and the flag of that walk's last edge.
    pub fn dependents_of(&self, x: usize, only_required: bool) -> (r: (Vec<usize>, Vec<bool>, Vec<Vec<usize>>))
        requires
            self.wf(),
            x < self.n(),
        ensures
            ({
                let (found, req, paths) = r;
                &&& found@.len() == req@.len() && found@.len() == paths@.len()
                &&& ints(found@).no_duplicates()
                &&& forall|u: int| ints(found@).contains(u) <==> self.depends_on(u, x as int, only_required)
                &&& forall|k: int|
                    0 <= k < paths@.len() ==> {
                        let p = ints(#[trigger] paths@[k]@);
                        &&& self.is_rev_path(p, only_required)
                        &&& p.len() >= 2
                        &&& p[0] == x
                        &&& p.last() == found@[k]
                        &&& self.edge_with_flag(found@[k] as int, p[p.len() - 2], req@[k])
                    }
            }),
    {
        let n = self.names.len();
        let mut mark: Vec<bool> = vec![false; n];
        let mut found: Vec<usize> = Vec::new();
        let mut req: Vec<bool> = Vec::new();
        let mut paths: Vec<Vec<usize>> = Vec::new();
        proof {
            assert(mark@ =~= Seq::new(self.n() as nat, |i: int| false));
            self.lemma_bfs_start(x as int, only_required);
        }
        let mut xpath: Vec<usize> = Vec::new();
        xpath.push(x);
        proof {
            let p = ints(xpath@);
            assert(p =~= seq![x as int]);
            assert(self.is_rev_path(p, only_required));
        }
        self.scan_dependents(x, only_required, x, &xpath, &mut mark, &mut found, &mut req, &mut paths);
        let mut qi: usize = 0;
        proof {
            self.lemma_bfs_facts(x as int, only_required, mark@, found@, req@, paths@);
        }
        while qi < found.len()
            invariant
                self.wf(),
                self.bfs_inv(x as int, only_required, mark@, found@, req@, paths@),
                mark@.len() == self.n(),
                qi <= found@.len(),
                forall|u: int| 0 <= u < self.n() && self.edge_in(u, x as int, only_required) ==> #[trigger] mark@[u],
                forall|k: int, u: int|
                    0 <= k < qi && 0 <= u < self.n() && #[trigger] self.edge_in(u, found@[k] as int, only_required)
                        ==> mark@[u],
            decreases self.n() - qi,
        {
            proof {
                self.lemma_bfs_facts(x as int, only_required, mark@, found@, req@, paths@);
            }
            let w = found[qi];
            let wpath = copy_path(&paths[qi]);
            proof {
                assert(ints(wpath@) == ints(paths@[qi as int]@));
            }
            let ghost mark0 = mark@;
            let ghost found0 = found@;
            self.scan_dependents(x, only_required, w, &wpath, &mut mark, &mut found, &mut req, &mut paths);
            proof {
                self.lemma_bfs_facts(x as int, only_required, mark@, found@, req@, paths@);
                assert forall|k: int, u: int|
                    0 <= k < qi + 1 && 0 <= u < self.n() && #[trigger] self.edge_in(u, found@[k] as int, only_required)
                        implies mark@[u] by {
                    assert(found@[k] == found0[k]);
                    if k < qi {
                        assert(mark0[u]);
                    }
                }
            }
            qi = qi + 1;
        }
        proof {
            self.lemma_bfs_result(x as int, only_required, mark@, found@, req@, paths@);
            self.lemma_bfs_facts(x as int, only_required, mark@, found@, req@, paths@);
        }
        (found, req, paths)
    }

    proof fn lemma_bfs_result(
        &self,
        x: int,
        only_required: bool,
        mark: Seq<bool>,
        found: Seq<usize>,
        req: Seq<bool>,
        paths: Seq<Vec<usize>>,
    )
        requires
            self.bfs_inv(x, only_required, mark, found, req, paths),
            forall|u: int| 0 <= u < self.n() && self.edge_in(u, x, only_required) ==> #[trigger] mark[u],
            forall|k: int, u: int|
                0 <= k < found.len() && 0 <= u < self.n() && #[trigger] self.edge_in(u, found[k] as int, only_required)
                    ==> mark[u],
        ensures
            forall|u: int| ints(found).contains(u) <==> self.depends_on(u, x, only_required),
    {
        self.lemma_bfs_facts(x, only_required, mark, found, req, paths);
        assert forall|u: int| ints(found).contains(u) <==> self.depends_on(u, x, only_required) by {
            if ints(found).contains(u) {
                let k = choose|k: int| 0 <= k < ints(found).len() && ints(found)[k] == u;
                self.lemma_rev_path(ints(paths[k]@), only_required);
            }
            if self.depends_on(u, x, only_required) {
                let p = choose|p: Seq<int>|
                    #[trigger] self.is_path_in(p, only_required) && p.len() >= 2 && p[0] == u && p.last() == x;
                self.lemma_walk_marked(x, only_required, mark, found, p, 0);
                assert(self.is_node(p[0]));
                assert(mark[u]);
            }
        }
    }

    /// Where every service with an edge to `x` or to a found service is
    /// marked, each node of a walk to `x` but the last is marked.
    proof fn lemma_walk_marked(
        &self,
        x: int,
        only_required: bool,
        mark: Seq<bool>,
        found: Seq<usize>,
        p: Seq<int>,
        i: int,
    )
        requires
            mark.len() == self.n(),
            forall|k: int| 0 <= k < found.len() ==> (#[trigger] found[k]) < self.n() && mark[found[k] as int],
            forall|u: int| 0 <= u < self.n() && #[trigger] mark[u] ==> ints(found).contains(u),
            forall|u: int| 0 <= u < self.n() && self.edge_in(u, x, only_required) ==> #[trigger] mark[u],
            forall|k: int, u: int|
                0 <= k < found.len() && 0 <= u < self.n() && #[trigger] self.edge_in(u, found[k] as int, only_required)
                    ==> mark[u],
            self.is_path_in(p, only_required),
            p.len() >= 2,
            p.last() == x,
            0 <= i <= p.len() - 2,
        ensures
            mark[p[i]],
        decreases p.len() - i,
    {
        assert(self.is_node(p[i]));
        assert(self.edge_in(p[i], p[i + 1], only_required));
        if i == p.len() - 2 {
        } else {
            self.lemma_walk_marked(x, only_required, mark, found, p, i + 1);
            let k = choose|k: int| 0 <= k < ints(found).len() && ints(found)[k] == p[i + 1];
            assert(found[k] as int == p[i + 1]);
            assert(self.edge_in(p[i], found[k] as int, only_required));
        }
    }
}

/// The affected services of a list of impacts.
pub open spec fn impact_services(v: Seq<ImpactInfo>) -> Seq<String> {
    v.map_values(|i: ImpactInfo| i.service_name)
}

impl DependencyResolver {
    /// The names of the services that `service_name` reaches against the
    /// edges (required edges only, where `only_required` holds).
    fn dependent_names(graph: &DependencyGraph, service_name: &str, only_required: bool) -> (r: Vec<String>)
        requires
            graph.wf(),
        ensures
            !graph.has_node(service_name@) ==> r@.len() == 0,
            graph.has_node(service_name@) ==> {
                let x = graph.index_of(service_name@);
                &&& graph.indices_of(r@).no_duplicates()
                &&& forall|u: int|
                    graph.indices_of(r@).contains(u) <==> #[trigger] graph.depends_on(u, x, only_required)
                &&& forall|k: int| 0 <= k < r@.len() ==> graph.has_node(#[trigger] r@[k]@)
            },
    {
        match graph.find(service_name) {
            None => Vec::new(),
            Some(x) => {
                let (found, _req, _paths) = graph.dependents_of(x, only_required);
                proof {
                    assert forall|k: int| 0 <= k < found@.len() implies found@[k] < graph.n() by {
                        assert(ints(found@).contains(ints(found@)[k]));
                        let p = choose|p: Seq<int>|
                            #[trigger] graph.is_path_in(p, only_required) && p.len() >= 2 && p[0] == ints(found@)[k]
                                && p.last() == x;
                        assert(graph.is_node(p[0]));
                    }
                }
                let names = graph.names_for(&found);
                proof {
                    assert(graph.indices_of(names@) =~= ints(found@));
                }
                names
            },
        }
    }

    /// Every service that depends on `service_name` through one edge or
    /// more, each once; empty where the graph has no such service.
    pub fn find_impact_path(&self, graph: &DependencyGraph, service_name: &str) -> (r: Vec<String>)
        requires
            graph.wf(),
        ensures
            !graph.has_node(service_name@) ==> r@.len() == 0,
            graph.has_node(service_name@) ==> {
                &&& graph.indices_of(r@).no_duplicates()
                &&& graph.indices_of(r@).to_set() == graph.ancestors(graph.index_of(service_name@))
                &&& forall|k: int| 0 <= k < r@.len() ==> graph.has_node(#[trigger] r@[k]@)
            },
    {
        let r = Self::dependent_names(graph, service_name, false);
        proof {
            if graph.has_node(service_name@) {
                assert(graph.indices_of(r@).to_set() =~= graph.ancestors(graph.index_of(service_name@)));
            }
        }
        r
    }

    /// Every service that depends on `service_name` through required edges
    /// only, one or more of them, each once; empty where the graph has no
    /// such service.
    pub fn critical_impact(&self, graph: &DependencyGraph, service_name: &str) -> (r: Vec<String>)
        requires
            graph.wf(),
        ensures
            !graph.has_node(service_name@) ==> r@.len() == 0,
            graph.has_node(service_name@) ==> {
                &&& graph.indices_of(r@).no_duplicates()
                &&& graph.indices_of(r@).to_set() == graph.required_ancestors(graph.index_of(service_name@))
                &&& forall|k: int| 0 <= k < r@.len() ==> graph.has_node(#[trigger] r@[k]@)
            },
    {
        let r = Self::dependent_names(graph, service_name, true);
        proof {
            if graph.has_node(service_name@) {
                assert(graph.indices_of(r@).to_set() =~= graph.required_ancestors(graph.index_of(service_name@)));
            }
        }
        r
    }

    /// Every service that depends on `service_name`, each once, with a walk
    /// from `service_name` to it, each service depending on the one before,
    /// and the required flag of that walk's last edge; empty where the graph
    /// has no such service.
    pub fn analyze_impact_details(&self, graph: &DependencyGraph, service_name: &str) -> (r: Vec<ImpactInfo>)
        requires
            graph.wf(),
        ensures
            !graph.has_node(service_name@) ==> r@.len() == 0,
            graph.has_node(service_name@) ==> {
                let x = graph.index_of(service_name@);
                let services = graph.indices_of(impact_services(r@));
                &&& services.no_duplicates()
                &&& services.to_set() == graph.ancestors(x)
                &&& forall|k: int|
                    0 <= k < r@.len() ==> graph.impact_entry(x, #[trigger] r@[k])
            },
    {
        let mut r: Vec<ImpactInfo> = Vec::new();
        match graph.find(service_name) {
            None => r,
            Some(x) => {
                let (found, req, paths) = graph.dependents_of(x, false);
                let mut k: usize = 0;
                while k < found.len()
                    invariant
                        graph.wf(),
                        x < graph.n(),
                        x == graph.index_of(service_name@),
                        found@.len() == req@.len() && found@.len() == paths@.len(),
                        forall|m: int|
                            0 <= m < paths@.len() ==> {
                                let p = ints(#[trigger] paths@[m]@);
                                &&& graph.is_rev_path(p, false)
                                &&& p.len() >= 2
                                &&& p[0] == x
                                &&& p.last() == found@[m]
                                &&& graph.edge_with_flag(found@[m] as int, p[p.len() - 2], req@[m])
                            },
                        k <= found@.len(),
                        r@.len() == k,
                        forall|m: int|
                            0 <= m < k ==> {
                                let info = #[trigger] r@[m];
                                let p = graph.indices_of(info.impact_path@);
                                &&& graph.has_node(info.service_name@)
                                &&& graph.index_of(info.service_name@) == found@[m]
                                &&& forall|t: int| 0 <= t < p.len() ==> graph.has_node(#[trigger] info.impact_path@[t]@)
                                &&& p == ints(paths@[m]@)
                                &&& info.is_required == req@[m]
                                &&& info.description@ == impact_description(
                                    info.is_required,
                                    info.impact_path@[p.len() - 2]@,
                                    info.service_name@,
                                )
                            },
                    decreases found@.len() - k,
                {
                    let ghost p = ints(paths@[k as int]@);
                    proof {
                        assert forall|t: int| 0 <= t < paths@[k as int]@.len() implies paths@[k as int]@[t] < graph.n() by {
                            assert(graph.is_node(p[t]));
                        }
                    }
                    let u = found[k];
                    let impact_path = graph.names_for(&paths[k]);
                    let service = graph.names[u].clone();
                    let len = impact_path.len();
                    let description = describe_impact(req[k], &impact_path[len - 2], &service);
                    proof {
                        assert(graph.indices_of(impact_path@) =~= p);
                        assert(p.last() == u);
                        graph.lemma_index_of(u as int);
                    }
                    r.push(ImpactInfo { service_name: service, is_required: req[k], impact_path, description });
                    k = k + 1;
                }
                proof {
                    let services = graph.indices_of(impact_services(r@));
                    assert(services =~= ints(found@));
                    assert(services.to_set() =~= graph.ancestors(x as int));
                }
                r
            },
        }
    }
}

} // verus!
