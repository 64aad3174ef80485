use vstd::prelude::*;
use vstd::string::StringExecFns;

verus! {

/// What a dependency edge carries besides its endpoints.
#[derive(Debug, Clone)]
pub struct EdgeMetadata {
    /// Whether the dependent cannot work without the dependency.
    pub required: bool,
    /// The version that the dependent expects of the dependency, if it states one.
    pub version_constraint: Option<String>,
}

impl EdgeMetadata {
    /// A copy of this metadata.
    pub fn duplicate(&self) -> (r: EdgeMetadata)
        ensures
            r == *self,
    {
        let version_constraint = match &self.version_constraint {
            Some(s) => Some(s.clone()),
            None => None,
        };
        EdgeMetadata { required: self.required, version_constraint }
    }
}

/// A cycle of dependencies: the first and the last service are the same.
#[derive(Debug, Clone)]
pub struct CycleInfo {
    pub cycle_path: Vec<String>,
    pub description: String,
}

/// The views of a sequence of strings.
pub open spec fn view_names(v: Seq<String>) -> Seq<Seq<char>> {
    v.map_values(|s: String| s@)
}

/// The parts, with `sep` between each two of them.
pub open spec fn joined(parts: Seq<Seq<char>>, sep: Seq<char>) -> Seq<char>
    decreases parts.len(),
{
    if parts.len() == 0 {
        Seq::empty()
    } else if parts.len() == 1 {
        parts[0]
    } else {
        joined(parts.drop_last(), sep) + sep + parts.last()
    }
}

/// Joins the strings with `sep` between each two of them.
pub fn join_strings(parts: &Vec<String>, sep: &str) -> (r: String)
    ensures
        r@ == joined(view_names(parts@), sep@),
{
    let mut r = String::new();
    let mut i: usize = 0;
    while i < parts.len()
        invariant
            i <= parts@.len(),
            r@ == joined(view_names(parts@).subrange(0, i as int), sep@),
        decreases parts@.len() - i,
    {
        let ghost before = r@;
        if i > 0 {
            r.append(sep);
        }
        r.append(parts[i].as_str());
        proof {
            let vs = view_names(parts@);
            let s1 = vs.subrange(0, i + 1);
            assert(s1.drop_last() =~= vs.subrange(0, i as int));
            assert(s1.last() == parts@[i as int]@);
            if i == 0 {
                assert(before =~= Seq::<char>::empty());
                assert(r@ =~= parts@[i as int]@);
            }
        }
        i = i + 1;
    }
    proof {
        assert(view_names(parts@).subrange(0, parts@.len() as int) =~= view_names(parts@));
    }
    r
}

/// The dependency graph: node `i` is the service `names[i]`, and
/// `adjacency[i]` lists the edges from it to the services it depends on,
/// by their node number.
#[derive(Debug)]
pub struct DependencyGraph {
    pub names: Vec<String>,
    pub adjacency: Vec<Vec<(usize, EdgeMetadata)>>,
}

impl DependencyGraph {
    pub open spec fn n(&self) -> int {
        self.names@.len() as int
    }

    pub open spec fn is_node(&self, i: int) -> bool {
        0 <= i < self.n()
    }

    pub open spec fn name(&self, i: int) -> Seq<char> {
        self.names@[i]@
    }

    /// The edges out of node `u`.
    pub open spec fn row(&self, u: int) -> Seq<(usize, EdgeMetadata)> {
        self.adjacency@[u]@
    }

    pub open spec fn deg(&self, u: int) -> int {
        self.row(u).len() as int
    }

    pub open spec fn target(&self, u: int, j: int) -> int {
        self.row(u)[j].0 as int
    }

    pub open spec fn edge_required(&self, u: int, j: int) -> bool {
        self.row(u)[j].1.required
    }

    /// `u` depends on `v`.
    pub open spec fn edge(&self, u: int, v: int) -> bool {
        exists|j: int| 0 <= j < self.deg(u) && #[trigger] self.target(u, j) == v
    }

    /// `u` depends on `v` through a required edge.
    pub open spec fn required_edge(&self, u: int, v: int) -> bool {
        exists|j: int| 0 <= j < self.deg(u) && #[trigger] self.target(u, j) == v && self.edge_required(u, j)
    }

    /// An edge, or a required edge where `only_required` holds.
    pub open spec fn edge_in(&self, u: int, v: int, only_required: bool) -> bool {
        if only_required {
            self.required_edge(u, v)
        } else {
            self.edge(u, v)
        }
    }

    /// Names are unique and every edge ends at a node.
    pub open spec fn wf(&self) -> bool {
        &&& self.adjacency@.len() == self.names@.len()
        &&& forall|u: int, j: int|
            0 <= u < self.n() && 0 <= j < self.deg(u) ==> 0 <= #[trigger] self.target(u, j) < self.n()
        &&& forall|i: int, k: int|
            0 <= i < self.n() && 0 <= k < self.n() && i != k ==> self.name(i) != self.name(k)
    }

    pub open spec fn has_node(&self, s: Seq<char>) -> bool {
        exists|i: int| 0 <= i < self.n() && self.name(i) == s
    }

    /// The node that carries a name.
    pub open spec fn index_of(&self, s: Seq<char>) -> int {
        choose|i: int| 0 <= i < self.n() && self.name(i) == s
    }

    pub open spec fn names_of(&self, idx: Seq<int>) -> Seq<Seq<char>> {
        idx.map_values(|i: int| self.name(i))
    }

    /// The nodes that a sequence of names denotes.
    pub open spec fn indices_of(&self, s: Seq<String>) -> Seq<int> {
        s.map_values(|x: String| self.index_of(x@))
    }

    /// A walk along edges (of required edges only, where `only_required` holds).
    pub open spec fn is_path_in(&self, p: Seq<int>, only_required: bool) -> bool {
        &&& p.len() >= 1
        &&& forall|i: int| 0 <= i < p.len() ==> self.is_node(#[trigger] p[i])
        &&& forall|i: int| 0 <= i < p.len() - 1 ==> self.edge_in(#[trigger] p[i], p[i + 1], only_required)
    }

    pub open spec fn is_path(&self, p: Seq<int>) -> bool {
        self.is_path_in(p, false)
    }

    /// `u` reaches `v` by following edges, possibly none.
    pub open spec fn reaches(&self, u: int, v: int) -> bool {
        exists|p: Seq<int>| #[trigger] self.is_path(p) && p[0] == u && p.last() == v
    }

    /// A walk of at least one edge that comes back to where it started.
    pub open spec fn is_cycle(&self, p: Seq<int>) -> bool {
        self.is_path(p) && p.len() >= 2 && p[0] == p.last()
    }

    pub open spec fn has_cycle(&self) -> bool {
        exists|p: Seq<int>| #[trigger] self.is_cycle(p)
    }

    /// `v` is reached from one of `roots`.
    pub open spec fn in_closure(&self, roots: Seq<int>, v: int) -> bool {
        exists|k: int| 0 <= k < roots.len() && #[trigger] self.reaches(roots[k], v)
    }

    /// The transitive closure of `roots`.
    pub open spec fn closure(&self, roots: Seq<int>) -> Set<int> {
        Set::new(|v: int| self.in_closure(roots, v))
    }

    /// `u` reaches `x` by one edge or more (of required edges only, where `only_required` holds).
    pub open spec fn depends_on(&self, u: int, x: int, only_required: bool) -> bool {
        exists|p: Seq<int>|
            #[trigger] self.is_path_in(p, only_required) && p.len() >= 2 && p[0] == u && p.last() == x
    }

    /// The services from which `x` is reached by one edge or more.
    pub open spec fn ancestors(&self, x: int) -> Set<int> {
        Set::new(|u: int| self.depends_on(u, x, false))
    }

    /// The services from which `x` is reached by one required edge or more.
    pub open spec fn required_ancestors(&self, x: int) -> Set<int> {
        Set::new(|u: int| self.depends_on(u, x, true))
    }

    /// An empty graph.
    pub fn new() -> (g: Self)
        ensures
            g.wf(),
            g.n() == 0,
    {
        DependencyGraph { names: Vec::new(), adjacency: Vec::new() }
    }

    /// The number of services in the graph.
    pub fn node_count(&self) -> (r: usize)
        ensures
            r == self.n(),
    {
        self.names.len()
    }

    /// The node that carries `name`, if any.
    pub fn find(&self, name: &str) -> (r: Option<usize>)
        requires
            self.wf(),
        ensures
            r.is_none() <==> !self.has_node(name@),
            r matches Some(i) ==> i < self.n() && self.name(i as int) == name@ && self.index_of(name@) == i,
    {
        let key = name.to_owned();
        let mut i: usize = 0;
        while i < self.names.len()
            invariant
                self.wf(),
                i <= self.names@.len(),
                key@ == name@,
                forall|k: int| 0 <= k < i ==> self.name(k) != name@,
            decreases self.names@.len() - i,
        {
            if self.names[i] == key {
                proof {
                    self.lemma_index_of(i as int);
                }
                return Some(i);
            }
            i = i + 1;
        }
        None
    }

    /// With unique names, the node of node `i`'s name is `i`.
    pub proof fn lemma_index_of(&self, i: int)
        requires
            self.wf(),
            0 <= i < self.n(),
        ensures
            self.has_node(self.name(i)),
            self.index_of(self.name(i)) == i,
    {
        let s = self.name(i);
        assert(exists|k: int| 0 <= k < self.n() && self.name(k) == s);
        let k = self.index_of(s);
        assert(0 <= k < self.n() && self.name(k) == s);
    }

    /// Adds a service with no edges, unless the graph has it already.
    pub fn add_node(&mut self, node: String)
        requires
            old(self).wf(),
        ensures
            final(self).wf(),
            old(self).has_node(node@) ==> *final(self) == *old(self),
            !old(self).has_node(node@) ==> final(self).names@ == old(self).names@.push(node)
                && final(self).adjacency@.len() == old(self).adjacency@.len() + 1
                && (forall|w: int| 0 <= w < old(self).n() ==> final(self).row(w) == old(self).row(w))
                && final(self).row(old(self).n()) == Seq::<(usize, EdgeMetadata)>::empty(),
    {
        match self.find(node.as_str()) {
            Some(_) => {},
            None => {
                self.names.push(node);
                self.adjacency.push(Vec::new());
                assert forall|u: int, j: int|
                    0 <= u < self.n() && 0 <= j < self.deg(u) implies 0 <= #[trigger] self.target(u, j) < self.n() by {
                    assert(u < old(self).n());
                    assert(self.target(u, j) == old(self).target(u, j));
                }
                assert forall|i: int, k: int|
                    0 <= i < self.n() && 0 <= k < self.n() && i != k implies self.name(i) != self.name(k) by {
                    if i < old(self).n() && k < old(self).n() {
                        assert(self.name(i) == old(self).name(i));
                        assert(self.name(k) == old(self).name(k));
                    } else if i < old(self).n() {
                        assert(self.name(i) == old(self).name(i));
                    } else if k < old(self).n() {
                        assert(self.name(k) == old(self).name(k));
                    }
                }
            },
        }
    }

    /// Adds both services as nodes where they are missing, then an edge from
    /// `from` (the dependent) to `to` (its dependency).
    pub fn add_edge(&mut self, from: String, to: String, metadata: EdgeMetadata)
        requires
            old(self).wf(),
        ensures
            final(self).wf(),
            forall|s: Seq<char>| final(self).has_node(s) <==> (old(self).has_node(s) || s == from@ || s == to@),
            forall|i: int| 0 <= i < old(self).n() ==> final(self).name(i) == old(self).name(i),
            final(self).n() >= old(self).n(),
            ({
                let u = final(self).index_of(from@);
                let v = final(self).index_of(to@);
                &&& final(self).has_node(from@) && final(self).has_node(to@)
                &&& final(self).name(u) == from@ && final(self).name(v) == to@
                &&& 0 <= u < final(self).n() && 0 <= v < final(self).n()
                &&& final(self).row(u) == (if u < old(self).n() {
                    old(self).row(u)
                } else {
                    Seq::empty()
                }).push((v as usize, metadata))
                &&& forall|w: int|
                    0 <= w < final(self).n() && w != u ==> final(self).row(w) == (if w < old(self).n() {
                        old(self).row(w)
                    } else {
                        Seq::<(usize, EdgeMetadata)>::empty()
                    })
            }),
    {
        let ghost g0 = *self;
        let from_key = from.clone();
        let to_key = to.clone();
        self.add_node(from);
        let ghost g1 = *self;
        self.add_node(to);
        let ghost g2 = *self;
        let u = match self.find(from_key.as_str()) {
            Some(i) => i,
            None => {
                proof {
                    if g0.has_node(from_key@) {
                        let k = choose|k: int| 0 <= k < g0.n() && g0.name(k) == from_key@;
                        assert(g2.name(k) == from_key@);
                    } else {
                        assert(g2.name(g0.n()) == from_key@);
                    }
                }
                return;
            },
        };
        let v = match self.find(to_key.as_str()) {
            Some(i) => i,
            None => {
                proof {
                    if g1.has_node(to_key@) {
                        let k = choose|k: int| 0 <= k < g1.n() && g1.name(k) == to_key@;
                        assert(g2.name(k) == to_key@);
                    } else {
                        assert(g2.name(g1.n()) == to_key@);
                    }
                }
                return;
            },
        };
        self.adjacency[u].push((v, metadata));
        proof {
            assert forall|w: int, j: int|
                0 <= w < self.n() && 0 <= j < self.deg(w) implies 0 <= #[trigger] self.target(w, j) < self.n() by {
                if w != u && j < g2.deg(w) {
                    assert(self.target(w, j) == g2.target(w, j));
                } else if j < g2.deg(w) {
                    assert(self.target(w, j) == g2.target(w, j));
                }
            }
            assert forall|i: int, k: int|
                0 <= i < self.n() && 0 <= k < self.n() && i != k implies self.name(i) != self.name(k) by {
                assert(self.name(i) == g2.name(i));
                assert(self.name(k) == g2.name(k));
            }
            assert forall|s: Seq<char>| self.has_node(s) <==> (g0.has_node(s) || s == from_key@ || s == to_key@) by {
                if g0.has_node(s) {
                    let k = choose|k: int| 0 <= k < g0.n() && g0.name(k) == s;
                    assert(self.name(k) == s);
                }
                if self.has_node(s) {
                    let k = choose|k: int| 0 <= k < self.n() && self.name(k) == s;
                    if k < g0.n() {
                        assert(g0.name(k) == s);
                    } else if k < g1.n() {
                        assert(g1.name(k) == from_key@);
                    } else {
                        assert(g2.name(k) == to_key@);
                    }
                }
                if s == from_key@ {
                    assert(self.name(u as int) == s);
                }
                if s == to_key@ {
                    assert(self.name(v as int) == s);
                }
            }
            assert forall|w: int|
                0 <= w < self.n() && w != u implies self.row(w) == (if w < g0.n() {
                    g0.row(w)
                } else {
                    Seq::<(usize, EdgeMetadata)>::empty()
                }) by {
                if w < g0.n() {
                } else if w < g1.n() {
                    assert(g1.row(w) == Seq::<(usize, EdgeMetadata)>::empty());
                } else {
                }
            }
            assert(self.row(u as int) == (if u < g0.n() {
                g0.row(u as int)
            } else {
                Seq::<(usize, EdgeMetadata)>::empty()
            }).push((v, metadata))) by {
                if u < g0.n() {
                } else if u < g1.n() {
                    assert(g1.row(u as int) == Seq::<(usize, EdgeMetadata)>::empty());
                }
            }
            assert(self.name(u as int) == from_key@);
            assert(self.name(v as int) == to_key@);
            self.lemma_index_of(u as int);
            self.lemma_index_of(v as int);
        }
    }

    /// The names of the given nodes.
    pub fn names_for(&self, idx: &Vec<usize>) -> (r: Vec<String>)
        requires
            self.wf(),
            forall|k: int| 0 <= k < idx@.len() ==> idx@[k] < self.n(),
        ensures
            r@.len() == idx@.len(),
            forall|k: int| 0 <= k < r@.len() ==> #[trigger] r@[k]@ == self.name(idx@[k] as int),
            forall|k: int| 0 <= k < r@.len() ==> self.has_node(#[trigger] r@[k]@),
            forall|k: int| 0 <= k < r@.len() ==> #[trigger] self.indices_of(r@)[k] == idx@[k] as int,
            view_names(r@) == self.names_of(idx@.map_values(|x: usize| x as int)),
    {
        let mut r: Vec<String> = Vec::new();
        let mut k: usize = 0;
        while k < idx.len()
            invariant
                self.wf(),
                forall|m: int| 0 <= m < idx@.len() ==> idx@[m] < self.n(),
                k <= idx@.len(),
                r@.len() == k,
                forall|m: int| 0 <= m < k ==> #[trigger] r@[m]@ == self.name(idx@[m] as int),
            decreases idx@.len() - k,
        {
            r.push(self.names[idx[k]].clone());
            k = k + 1;
        }
        proof {
            assert forall|m: int| 0 <= m < r@.len() implies self.has_node(#[trigger] r@[m]@) && #[trigger] self.indices_of(r@)[m] == idx@[m] as int by {
                self.lemma_index_of(idx@[m] as int);
            }
            assert(view_names(r@) =~= self.names_of(idx@.map_values(|x: usize| x as int)));
        }
        r
    }

    /// The services that `name` depends on, one per edge, in edge order;
    /// empty where the graph has no such service.
    pub fn neighbors(&self, name: &str) -> (r: Vec<String>)
        requires
            self.wf(),
        ensures
            !self.has_node(name@) ==> r@.len() == 0,
            self.has_node(name@) ==> {
                let u = self.index_of(name@);
                &&& r@.len() == self.deg(u)
                &&& forall|j: int| 0 <= j < r@.len() ==> #[trigger] r@[j]@ == self.name(self.target(u, j))
            },
    {
        let mut r: Vec<String> = Vec::new();
        match self.find(name) {
            None => r,
            Some(u) => {
                let mut j: usize = 0;
                while j < self.adjacency[u].len()
                    invariant
                        self.wf(),
                        u < self.n(),
                        j <= self.deg(u as int),
                        r@.len() == j,
                        forall|k: int| 0 <= k < j ==> #[trigger] r@[k]@ == self.name(self.target(u as int, k)),
                    decreases self.deg(u as int) - j,
                {
                    let t = self.adjacency[u][j].0;
                    assert(self.target(u as int, j as int) == t);
                    r.push(self.names[t].clone());
                    j = j + 1;
                }
                r
            },
        }
    }
}

} // verus!
