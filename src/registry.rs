use vstd::prelude::*;
use vstd::string::StringExecFns;

use crate::error::AureaCoreError;
use crate::graph::{joined, view_names, DependencyGraph, EdgeMetadata};
use crate::impact::{impact_services, ImpactInfo};
use crate::order::{cycle_description, DependencyResolver};
use crate::schema::Dependency;
use crate::service::{deps_of, Service, ServiceState, ServiceStatus};
use crate::validation::{
    evaluate_service, find_service, has_service, names_unique, service_errors, service_index,
    service_warnings,
};

verus! {

/// The edges that a service's dependencies give: one per dependency whose
/// service is in the catalog, in declaration order.
pub open spec fn dep_edges(cat: Seq<Service>, deps: Seq<Dependency>) -> Seq<(usize, EdgeMetadata)>
    decreases deps.len(),
{
    if deps.len() == 0 {
        Seq::empty()
    } else {
        let rest = dep_edges(cat, deps.drop_last());
        let d = deps.last();
        if has_service(cat, d.service@) {
            rest.push(
                (
                    service_index(cat, d.service@) as usize,
                    EdgeMetadata { required: d.required, version_constraint: d.version_constraint },
                ),
            )
        } else {
            rest
        }
    }
}

impl DependencyGraph {
    /// Node `i` is the `i`-th service of the catalog, with an edge for each
    /// of its dependencies on a service of the catalog.
    pub open spec fn built_from(&self, cat: Seq<Service>) -> bool {
        &&& self.wf()
        &&& self.n() == cat.len()
        &&& forall|i: int| 0 <= i < self.n() ==> #[trigger] self.name(i) == cat[i].name@
        &&& forall|i: int| 0 <= i < self.n() ==> #[trigger] self.row(i) == dep_edges(cat, deps_of(cat[i]))
    }

    /// Two graphs built from one catalog have the same shape.
    pub proof fn lemma_built_same_shape(&self, other: &DependencyGraph, cat: Seq<Service>)
        requires
            self.built_from(cat),
            other.built_from(cat),
        ensures
            self.same_shape(other),
    {
        assert forall|i: int| 0 <= i < self.n() implies #[trigger] self.name(i) == other.name(i) by {
            assert(self.name(i) == cat[i].name@);
            assert(other.name(i) == cat[i].name@);
        }
        assert forall|i: int| 0 <= i < self.n() implies #[trigger] self.row(i) == other.row(i) by {
            assert(self.row(i) == dep_edges(cat, deps_of(cat[i])));
            assert(other.row(i) == dep_edges(cat, deps_of(cat[i])));
        }
    }
}

/// Builds the dependency graph of a catalog afresh.
pub fn build_graph(catalog: &Vec<Service>) -> (g: DependencyGraph)
    requires
        names_unique(catalog@),
    ensures
        g.built_from(catalog@),
{
    let mut names: Vec<String> = Vec::new();
    let mut adjacency: Vec<Vec<(usize, EdgeMetadata)>> = Vec::new();
    let n = catalog.len();
    let mut i: usize = 0;
    while i < n
        invariant
            n == catalog@.len(),
            names_unique(catalog@),
            i <= n,
            names@.len() == i,
            adjacency@.len() == i,
            forall|k: int| 0 <= k < i ==> #[trigger] names@[k]@ == catalog@[k].name@,
            forall|k: int| 0 <= k < i ==> #[trigger] adjacency@[k]@ == dep_edges(catalog@, deps_of(catalog@[k])),
        decreases n - i,
    {
        let service = &catalog[i];
        let mut row: Vec<(usize, EdgeMetadata)> = Vec::new();
        let empty: Vec<Dependency> = Vec::new();
        let deps = match &service.config.dependencies {
            Some(v) => v,
            None => &empty,
        };
        let ghost ds = deps_of(*service);
        proof {
            assert(deps@ =~= ds);
        }
        let mut j: usize = 0;
        while j < deps.len()
            invariant
                names_unique(catalog@),
                deps@ == ds,
                j <= ds.len(),
                row@ == dep_edges(catalog@, ds.subrange(0, j as int)),
            decreases ds.len() - j,
        {
            let d = &deps[j];
            proof {
                assert(ds.subrange(0, j + 1).drop_last() =~= ds.subrange(0, j as int));
                assert(ds.subrange(0, j + 1).last() == *d);
            }
            match find_service(catalog, d.service.as_str()) {
                Some(k) => {
                    let version_constraint = match &d.version_constraint {
                        Some(c) => Some(c.clone()),
                        None => None,
                    };
                    row.push((k, EdgeMetadata { required: d.required, version_constraint }));
                },
                None => {},
            }
            j = j + 1;
        }
        proof {
            assert(ds.subrange(0, ds.len() as int) =~= ds);
        }
        names.push(service.name.clone());
        adjacency.push(row);
        i = i + 1;
    }
    let g = DependencyGraph { names, adjacency };
    proof {
        assert forall|i: int| 0 <= i < g.n() implies #[trigger] g.row(i) == dep_edges(catalog@, deps_of(catalog@[i])) by {
            assert(adjacency@[i]@ == dep_edges(catalog@, deps_of(catalog@[i])));
        }
        assert forall|u: int, j: int| 0 <= u < g.n() && 0 <= j < g.deg(u) implies 0 <= #[trigger] g.target(u, j) < g.n() by {
            lemma_dep_edges_targets(catalog@, deps_of(catalog@[u]));
            assert(g.row(u) == dep_edges(catalog@, deps_of(catalog@[u])));
        }
        assert forall|a: int, b: int| 0 <= a < g.n() && 0 <= b < g.n() && a != b implies g.name(a) != g.name(b) by {
            assert(g.name(a) == catalog@[a].name@);
            assert(g.name(b) == catalog@[b].name@);
        }
    }
    g
}

proof fn lemma_dep_edges_targets(cat: Seq<Service>, deps: Seq<Dependency>)
    ensures
        forall|j: int| 0 <= j < dep_edges(cat, deps).len() ==> (#[trigger] dep_edges(cat, deps)[j]).0 < cat.len(),
    decreases deps.len(),
{
    if deps.len() > 0 {
        lemma_dep_edges_targets(cat, deps.drop_last());
        let d = deps.last();
        if has_service(cat, d.service@) {
            let k = service_index(cat, d.service@);
            assert(0 <= k < cat.len());
            let rest = dep_edges(cat, deps.drop_last());
            assert forall|j: int| 0 <= j < dep_edges(cat, deps).len() implies (#[trigger] dep_edges(cat, deps)[j]).0 < cat.len() by {
                if j < rest.len() {
                    assert(dep_edges(cat, deps)[j] == rest[j]);
                } else {
                    assert(dep_edges(cat, deps)[j].0 == k as usize);
                }
            }
        } else {
            assert(dep_edges(cat, deps) == dep_edges(cat, deps.drop_last()));
        }
    }
}

/// The results of one validation of the whole catalog.
#[derive(Debug, Clone)]
pub struct ValidationSummary {
    /// The services that passed, in catalog order.
    pub successful: Vec<String>,
    /// The services that failed, each with the reason.
    pub failed: Vec<(String, String)>,
    /// The warnings, by service; "system" for those of the whole catalog.
    pub warnings: Vec<(String, Vec<String>)>,
    /// When the validation ran, in seconds since the Unix epoch.
    pub timestamp: i64,
}

pub open spec fn pair_views(v: Seq<(String, String)>) -> Seq<(Seq<char>, Seq<char>)> {
    v.map_values(|p: (String, String)| (p.0@, p.1@))
}

pub open spec fn entry_views(v: Seq<(String, Vec<String>)>) -> Seq<(Seq<char>, Seq<Seq<char>>)> {
    v.map_values(|p: (String, Vec<String>)| (p.0@, view_names(p.1@)))
}

/// No two entries are for the same service.
pub open spec fn keys_unique(v: Seq<(String, Vec<String>)>) -> bool {
    forall|a: int, b: int| 0 <= a < v.len() && 0 <= b < v.len() && a != b ==> v[a].0@ != v[b].0@
}

/// The number of warnings in the entries.
pub open spec fn warning_total(v: Seq<(String, Vec<String>)>) -> int
    decreases v.len(),
{
    if v.len() == 0 {
        0
    } else {
        warning_total(v.drop_last()) + v.last().1@.len()
    }
}

impl ValidationSummary {
    pub fn new(timestamp: i64) -> (r: Self)
        ensures
            r.successful@.len() == 0,
            r.failed@.len() == 0,
            r.warnings@.len() == 0,
            keys_unique(r.warnings@),
            r.timestamp == timestamp,
    {
        ValidationSummary { successful: Vec::new(), failed: Vec::new(), warnings: Vec::new(), timestamp }
    }

    pub fn successful_count(&self) -> (r: usize)
        ensures
            r == self.successful@.len(),
    {
        self.successful.len()
    }

    pub fn failed_count(&self) -> (r: usize)
        ensures
            r == self.failed@.len(),
    {
        self.failed.len()
    }

    /// The number of warnings, all services together (at most `usize::MAX`).
    pub fn warning_count(&self) -> (r: usize)
        ensures
            r == if warning_total(self.warnings@) <= usize::MAX {
                warning_total(self.warnings@)
            } else {
                usize::MAX as int
            },
    {
        let mut total: usize = 0;
        let mut saturated = false;
        let mut i: usize = 0;
        while i < self.warnings.len()
            invariant
                i <= self.warnings@.len(),
                saturated ==> total == usize::MAX && warning_total(self.warnings@.subrange(0, i as int)) > usize::MAX,
                !saturated ==> total == warning_total(self.warnings@.subrange(0, i as int)),
            decreases self.warnings@.len() - i,
        {
            proof {
                let s = self.warnings@.subrange(0, i + 1);
                assert(s.drop_last() =~= self.warnings@.subrange(0, i as int));
                assert(s.last() == self.warnings@[i as int]);
                lemma_warning_total_nonneg(self.warnings@.subrange(0, i as int));
            }
            let len = self.warnings[i].1.len();
            if !saturated {
                if total > usize::MAX - len {
                    total = usize::MAX;
                    saturated = true;
                } else {
                    total = total + len;
                }
            }
            i = i + 1;
        }
        proof {
            assert(self.warnings@.subrange(0, self.warnings@.len() as int) =~= self.warnings@);
        }
        total
    }

    /// Services that passed and services that failed (at most `usize::MAX`).
    pub fn total_count(&self) -> (r: usize)
        ensures
            r == if self.successful@.len() + self.failed@.len() <= usize::MAX {
                (self.successful@.len() + self.failed@.len()) as int
            } else {
                usize::MAX as int
            },
    {
        let a = self.successful.len();
        let b = self.failed.len();
        if a > usize::MAX - b {
            usize::MAX
        } else {
            a + b
        }
    }

    pub fn has_warnings(&self) -> (r: bool)
        ensures
            r == (self.warnings@.len() > 0),
    {
        self.warnings.len() > 0
    }

    pub fn is_successful(&self) -> (r: bool)
        ensures
            r == (self.failed@.len() == 0),
    {
        self.failed.len() == 0
    }

    /// The warnings recorded for `service_name`, if any.
    pub fn warnings_for(&self, service_name: &str) -> (r: Option<Vec<String>>)
        ensures
            r is None <==> forall|k: int| 0 <= k < self.warnings@.len() ==> self.warnings@[k].0@ != service_name@,
            r matches Some(w) ==> exists|k: int|
                0 <= k < self.warnings@.len() && self.warnings@[k].0@ == service_name@ && view_names(w@)
                    == view_names(self.warnings@[k].1@),
    {
        let key = String::from_str(service_name);
        let mut i: usize = 0;
        while i < self.warnings.len()
            invariant
                i <= self.warnings@.len(),
                key@ == service_name@,
                forall|k: int| 0 <= k < i ==> self.warnings@[k].0@ != service_name@,
            decreases self.warnings@.len() - i,
        {
            if self.warnings[i].0 == key {
                let w = copy_strings(&self.warnings[i].1);
                return Some(w);
            }
            i = i + 1;
        }
        None
    }

    /// Records a warning for a service, after those it has.
    pub fn add_warning(&mut self, service_name: String, warning: String)
        ensures
            final(self).successful == old(self).successful,
            final(self).failed == old(self).failed,
            final(self).timestamp == old(self).timestamp,
            keys_unique(old(self).warnings@) ==> keys_unique(final(self).warnings@),
            (exists|k: int| 0 <= k < old(self).warnings@.len() && old(self).warnings@[k].0@ == service_name@)
                ==> exists|k: int|
                0 <= k < old(self).warnings@.len() && old(self).warnings@[k].0@ == service_name@ && (forall|m: int|
                    0 <= m < k ==> old(self).warnings@[m].0@ != service_name@) && entry_views(final(self).warnings@)
                    == entry_views(old(self).warnings@).update(
                    k,
                    (service_name@, view_names(old(self).warnings@[k].1@).push(warning@)),
                ),
            (forall|k: int| 0 <= k < old(self).warnings@.len() ==> old(self).warnings@[k].0@ != service_name@)
                ==> entry_views(final(self).warnings@) == entry_views(old(self).warnings@).push(
                (service_name@, seq![warning@]),
            ),
    {
        let mut i: usize = 0;
        while i < self.warnings.len()
            invariant
                self.warnings == old(self).warnings,
                self.successful == old(self).successful,
                self.failed == old(self).failed,
                self.timestamp == old(self).timestamp,
                i <= self.warnings@.len(),
                forall|k: int| 0 <= k < i ==> self.warnings@[k].0@ != service_name@,
            decreases self.warnings@.len() - i,
        {
            if self.warnings[i].0 == service_name {
                let ghost before = self.warnings@;
                self.warnings[i].1.push(warning);
                proof {
                    assert(self.warnings@[i as int].1@ == before[i as int].1@.push(warning));
                    assert(self.warnings@[i as int].0 == before[i as int].0);
                    assert(view_names(self.warnings@[i as int].1@) =~= view_names(before[i as int].1@).push(warning@));
                    assert forall|m: int| 0 <= m < before.len() && m != i implies self.warnings@[m] == before[m] by {}
                    assert(entry_views(self.warnings@) =~= entry_views(before).update(
                        i as int,
                        (service_name@, view_names(before[i as int].1@).push(warning@)),
                    ));
                }
                return;
            }
            i = i + 1;
        }
        let ghost before = self.warnings@;
        let mut list: Vec<String> = Vec::new();
        list.push(warning);
        self.warnings.push((service_name, list));
        proof {
            assert(view_names(list@) =~= seq![warning@]);
            assert(entry_views(self.warnings@) =~= entry_views(before).push((service_name@, seq![warning@])));
        }
    }
}

proof fn lemma_warning_total_nonneg(v: Seq<(String, Vec<String>)>)
    ensures
        warning_total(v) >= 0,
    decreases v.len(),
{
    if v.len() > 0 {
        lemma_warning_total_nonneg(v.drop_last());
    }
}

fn copy_strings(v: &Vec<String>) -> (r: Vec<String>)
    ensures
        r@ == v@,
{
    let mut r: Vec<String> = Vec::new();
    let mut i: usize = 0;
    while i < v.len()
        invariant
            i <= v@.len(),
            r@ == v@.subrange(0, i as int),
        decreases v@.len() - i,
    {
        r.push(v[i].clone());
        proof {
            assert(r@ =~= v@.subrange(0, i + 1));
        }
        i = i + 1;
    }
    proof {
        assert(v@.subrange(0, v@.len() as int) =~= v@);
    }
    r
}

/// With unique names, the nodes of a graph built from a catalog are its services.
pub proof fn lemma_built_names(g: &DependencyGraph, cat: Seq<Service>)
    requires
        g.built_from(cat),
    ensures
        forall|s: Seq<char>| #[trigger] g.has_node(s) == has_service(cat, s),
{
    assert forall|s: Seq<char>| #[trigger] g.has_node(s) == has_service(cat, s) by {
        if g.has_node(s) {
            let i = choose|i: int| 0 <= i < g.n() && g.name(i) == s;
            assert(cat[i].name@ == s);
        }
        if has_service(cat, s) {
            let i = choose|i: int| 0 <= i < cat.len() && cat[i].name@ == s;
            assert(g.name(i) == s);
        }
    }
}

/// How a refused deletion is reported, naming the services that block it.
pub open spec fn deletion_refusal(name: Seq<char>, blocking: Seq<String>) -> Seq<char> {
    "Cannot delete service '"@ + name + "' because it is required by: "@ + joined(view_names(blocking), ", "@)
}

impl DependencyGraph {
    /// `v` names services of the catalog, each once, and its nodes are
    /// exactly `nodes`.
    pub open spec fn names_exactly(&self, cat: Seq<Service>, v: Seq<String>, nodes: Set<int>) -> bool {
        &&& forall|k: int| 0 <= k < v.len() ==> has_service(cat, #[trigger] v[k]@)
        &&& self.indices_of(v).no_duplicates()
        &&& self.indices_of(v).to_set() == nodes
    }

    /// `message` refuses to delete `name`, naming exactly the services that
    /// depend on it through required edges only.
    pub open spec fn refusal_names_blockers(&self, cat: Seq<Service>, name: Seq<char>, message: Seq<char>) -> bool {
        exists|blocking: Seq<String>|
            #[trigger] self.names_exactly(cat, blocking, self.required_ancestors(self.index_of(name))) && message
                == deletion_refusal(name, blocking)
    }
}

/// Validation fails the `i`-th service of the catalog.
pub open spec fn fails(cat: Seq<Service>, i: int) -> bool {
    service_errors(cat, cat[i]).len() > 0
}

/// The names of the services among the first `k` that pass, in order.
pub open spec fn passing_names(cat: Seq<Service>, k: int) -> Seq<Seq<char>>
    decreases k,
{
    if k <= 0 {
        Seq::empty()
    } else {
        passing_names(cat, k - 1) + if fails(cat, k - 1) {
            Seq::<Seq<char>>::empty()
        } else {
            seq![cat[k - 1].name@]
        }
    }
}

/// The services among the first `k` that fail, each with its first error.
pub open spec fn failures(cat: Seq<Service>, k: int) -> Seq<(Seq<char>, Seq<char>)>
    decreases k,
{
    if k <= 0 {
        Seq::empty()
    } else {
        failures(cat, k - 1) + if fails(cat, k - 1) {
            seq![(cat[k - 1].name@, service_errors(cat, cat[k - 1])[0])]
        } else {
            Seq::<(Seq<char>, Seq<char>)>::empty()
        }
    }
}

/// The services among the first `k` that have warnings, with them.
pub open spec fn warning_entries(cat: Seq<Service>, k: int) -> Seq<(Seq<char>, Seq<Seq<char>>)>
    decreases k,
{
    if k <= 0 {
        Seq::empty()
    } else {
        warning_entries(cat, k - 1) + if service_warnings(cat, cat[k - 1]).len() > 0 {
            seq![(cat[k - 1].name@, service_warnings(cat, cat[k - 1]))]
        } else {
            Seq::<(Seq<char>, Seq<Seq<char>>)>::empty()
        }
    }
}

/// The services of the catalog, by unique name.
pub struct ServiceRegistry {
    pub services: Vec<Service>,
}

impl ServiceRegistry {
    pub open spec fn wf(&self) -> bool {
        names_unique(self.services@)
    }

    pub fn new() -> (r: Self)
        ensures
            r.wf(),
            r.services@.len() == 0,
    {
        ServiceRegistry { services: Vec::new() }
    }

    /// Adds a service, or replaces the one of the same name in place.
    pub fn register_service(&mut self, service: Service)
        requires
            old(self).wf(),
        ensures
            final(self).wf(),
            has_service(old(self).services@, service.name@) ==> final(self).services@ == old(self).services@.update(
                service_index(old(self).services@, service.name@),
                service,
            ),
            !has_service(old(self).services@, service.name@) ==> final(self).services@ == old(self).services@.push(
                service,
            ),
    {
        let ghost cat = self.services@;
        match find_service(&self.services, service.name.as_str()) {
            Some(k) => {
                self.services.set(k, service);
                proof {
                    assert forall|i: int, j: int|
                        0 <= i < self.services@.len() && 0 <= j < self.services@.len() && i != j implies self.services@[i].name@
                        != self.services@[j].name@ by {
                        if i != k && j != k {
                            assert(self.services@[i] == cat[i] && self.services@[j] == cat[j]);
                        } else if i == k {
                            assert(self.services@[j] == cat[j]);
                            assert(cat[k as int].name@ == service.name@);
                        } else {
                            assert(self.services@[i] == cat[i]);
                            assert(cat[k as int].name@ == service.name@);
                        }
                    }
                }
            },
            None => {
                self.services.push(service);
                proof {
                    assert forall|i: int, j: int|
                        0 <= i < self.services@.len() && 0 <= j < self.services@.len() && i != j implies self.services@[i].name@
                        != self.services@[j].name@ by {
                        if i < cat.len() && j < cat.len() {
                            assert(self.services@[i] == cat[i] && self.services@[j] == cat[j]);
                        } else if i < cat.len() {
                            assert(self.services@[i] == cat[i]);
                        } else {
                            assert(self.services@[j] == cat[j]);
                        }
                    }
                }
            },
        }
    }

    /// The service named `name`.
    pub fn get_service(&self, name: &str) -> (r: Result<&Service, AureaCoreError>)
        requires
            self.wf(),
        ensures
            has_service(self.services@, name@) ==> (r matches Ok(s) && *s == self.services@[service_index(
                self.services@,
                name@,
            )]),
            !has_service(self.services@, name@) ==> (r matches Err(AureaCoreError::ServiceNotFound(n)) && n@
                == name@),
    {
        match find_service(&self.services, name) {
            Some(k) => Ok(&self.services[k]),
            None => Err(AureaCoreError::ServiceNotFound(String::from_str(name))),
        }
    }

    /// The names of the services, in catalog order.
    pub fn list_services(&self) -> (r: Vec<String>)
        ensures
            r@.len() == self.services@.len(),
            forall|k: int| 0 <= k < r@.len() ==> #[trigger] r@[k]@ == self.services@[k].name@,
    {
        let mut r: Vec<String> = Vec::new();
        let mut i: usize = 0;
        while i < self.services.len()
            invariant
                i <= self.services@.len(),
                r@.len() == i,
                forall|k: int| 0 <= k < i ==> #[trigger] r@[k]@ == self.services@[k].name@,
            decreases self.services@.len() - i,
        {
            r.push(self.services[i].name.clone());
            i = i + 1;
        }
        r
    }

    /// The dependency graph of the services as they are now.
    pub fn build_dependency_graph(&self) -> (g: DependencyGraph)
        requires
            self.wf(),
        ensures
            g.built_from(self.services@),
    {
        build_graph(&self.services)
    }

    /// Validates every service: rebuilds the dependency graph, reports a
    /// cycle as a catalog-wide warning under "system", validates each
    /// service against the catalog, and sets each service's status to
    /// `Active` or `Error` with its warnings.
    pub fn validate_all_services(&mut self, now: i64) -> (summary: ValidationSummary)
        requires
            old(self).wf(),
        ensures
            final(self).wf(),
            final(self).services@.len() == old(self).services@.len(),
            forall|i: int|
                0 <= i < old(self).services@.len() ==> {
                    let s = #[trigger] final(self).services@[i];
                    let o = old(self).services@[i];
                    let cat = old(self).services@;
                    &&& s.name == o.name && s.config == o.config && s.profile == o.profile
                    &&& s.status.last_checked == now
                    &&& view_names(s.status.warnings@) == service_warnings(cat, o)
                    &&& fails(cat, i) ==> s.status.state == ServiceState::Error && (s.status.error_message matches Some(
                        m,
                    ) && m@ == service_errors(cat, o)[0])
                    &&& !fails(cat, i) ==> s.status.state == ServiceState::Active && s.status.error_message is None
                },
            view_names(summary.successful@) == passing_names(old(self).services@, old(self).services@.len() as int),
            pair_views(summary.failed@) == failures(old(self).services@, old(self).services@.len() as int),
            summary.timestamp == now,
            forall|g: DependencyGraph| #[trigger]
                g.built_from(old(self).services@) ==> {
                    let entries = warning_entries(old(self).services@, old(self).services@.len() as int);
                    &&& !g.has_cycle() ==> entry_views(summary.warnings@) == entries
                    &&& g.has_cycle() ==> {
                        &&& summary.warnings@.len() >= 1
                        &&& summary.warnings@[0].0@ == "system"@
                        &&& summary.warnings@[0].1@.len() == 1
                        &&& entry_views(summary.warnings@.drop_first()) == entries
                        &&& exists|path: Seq<String>|
                            g.is_cycle(g.indices_of(path)) && summary.warnings@[0].1@[0]@ == cycle_description(
                                view_names(path),
                            )
                    }
                },
    {
        let ghost cat = self.services@;
        let n = self.services.len();
        let mut reports: Vec<(Vec<String>, Vec<String>)> = Vec::new();
        let mut i: usize = 0;
        while i < n
            invariant
                self.services@ == cat,
                n == cat.len(),
                names_unique(cat),
                i <= n,
                reports@.len() == i,
                forall|k: int|
                    0 <= k < i ==> view_names((#[trigger] reports@[k]).0@) == service_errors(cat, cat[k])
                        && view_names(reports@[k].1@) == service_warnings(cat, cat[k]),
            decreases n - i,
        {
            let report = evaluate_service(&self.services[i], &self.services);
            reports.push(report);
            i = i + 1;
        }
        let graph = build_graph(&self.services);
        let mut summary = ValidationSummary::new(now);
        let cycle = graph.detect_cycles();
        let ghost found_cycle = cycle is Some;
        let ghost path: Seq<String> = Seq::empty();
        let ghost desc: Seq<char> = Seq::empty();
        match cycle {
            Some(c) => {
                let mut list: Vec<String> = Vec::new();
                proof {
                    path = c.cycle_path@;
                    desc = c.description@;
                }
                list.push(c.description);
                summary.warnings.push((String::from_str("system"), list));
            },
            None => {},
        }
        let ghost start = summary.warnings@;
        assert(found_cycle ==> start.len() == 1 && start[0].0@ == "system"@ && start[0].1@.len() == 1
            && start[0].1@[0]@ == desc && desc == cycle_description(view_names(path))
            && graph.is_cycle(graph.indices_of(path)));
        assert(found_cycle == graph.has_cycle());
        assert(!found_cycle ==> start.len() == 0);
        let mut i: usize = 0;
        while i < n
            invariant
                n == cat.len(),
                names_unique(cat),
                reports@.len() == n,
                forall|k: int|
                    0 <= k < n ==> view_names((#[trigger] reports@[k]).0@) == service_errors(cat, cat[k])
                        && view_names(reports@[k].1@) == service_warnings(cat, cat[k]),
                i <= n,
                self.services@.len() == n,
                forall|k: int| i <= k < n ==> #[trigger] self.services@[k] == cat[k],
                forall|k: int|
                    0 <= k < i ==> {
                        let s = #[trigger] self.services@[k];
                        let o = cat[k];
                        &&& s.name == o.name && s.config == o.config && s.profile == o.profile
                        &&& s.status.last_checked == now
                        &&& view_names(s.status.warnings@) == service_warnings(cat, o)
                        &&& fails(cat, k) ==> s.status.state == ServiceState::Error && (s.status.error_message matches Some(
                            m,
                        ) && m@ == service_errors(cat, o)[0])
                        &&& !fails(cat, k) ==> s.status.state == ServiceState::Active && s.status.error_message is None
                    },
                view_names(summary.successful@) == passing_names(cat, i as int),
                pair_views(summary.failed@) == failures(cat, i as int),
                summary.timestamp == now,
                summary.warnings@.len() >= start.len(),
                summary.warnings@.subrange(0, start.len() as int) == start,
                entry_views(summary.warnings@.subrange(start.len() as int, summary.warnings@.len() as int))
                    == warning_entries(cat, i as int),
            decreases n - i,
        {
            let name = self.services[i].name.clone();
            let errors = &reports[i].0;
            let warnings = copy_strings(&reports[i].1);
            let ghost w_before = summary.warnings@;
            let ghost succ_before = summary.successful@;
            let ghost fail_before = summary.failed@;
            proof {
                assert(view_names(errors@) == service_errors(cat, cat[i as int]));
                assert(view_names(warnings@) == service_warnings(cat, cat[i as int]));
            }
            let status = if errors.len() > 0 {
                let reason = errors[0].clone();
                summary.failed.push((name.clone(), errors[0].clone()));
                proof {
                    assert(view_names(errors@)[0] == errors@[0]@);
                    assert(pair_views(summary.failed@) =~= pair_views(fail_before).push((name@, reason@)));
                    assert(summary.successful@ == succ_before);
                }
                ServiceStatus { state: ServiceState::Error, last_checked: now, error_message: Some(reason), warnings }
            } else {
                summary.successful.push(name.clone());
                proof {
                    assert(view_names(summary.successful@) =~= view_names(succ_before).push(name@));
                    assert(summary.failed@ == fail_before);
                }
                ServiceStatus { state: ServiceState::Active, last_checked: now, error_message: None, warnings }
            };
            if status.warnings.len() > 0 {
                let w = copy_strings(&status.warnings);
                summary.warnings.push((name, w));
                proof {
                    assert(summary.warnings@.subrange(0, start.len() as int) =~= w_before.subrange(0, start.len() as int));
                    assert(summary.warnings@.subrange(start.len() as int, summary.warnings@.len() as int)
                        =~= w_before.subrange(start.len() as int, w_before.len() as int).push((name, w)));
                }
            } else {
                proof {
                    assert(summary.warnings@ == w_before);
                }
            }
            self.services[i].status = status;
            proof {
                assert(warning_entries(cat, i + 1) == warning_entries(cat, i as int) + if service_warnings(
                    cat,
                    cat[i as int],
                ).len() > 0 {
                    seq![(cat[i as int].name@, service_warnings(cat, cat[i as int]))]
                } else {
                    Seq::<(Seq<char>, Seq<Seq<char>>)>::empty()
                });
                assert(entry_views(summary.warnings@.subrange(start.len() as int, summary.warnings@.len() as int))
                    =~= warning_entries(cat, i + 1));
                assert(view_names(summary.successful@) =~= passing_names(cat, i + 1));
                assert(pair_views(summary.failed@) =~= failures(cat, i + 1));
            }
            i = i + 1;
        }
        proof {
            assert forall|a: int, b: int|
                0 <= a < self.services@.len() && 0 <= b < self.services@.len() && a != b implies self.services@[a].name@
                != self.services@[b].name@ by {
                assert(self.services@[a].name == cat[a].name);
                assert(self.services@[b].name == cat[b].name);
            }
            assert forall|g: DependencyGraph| #[trigger] g.built_from(cat) implies {
                let entries = warning_entries(cat, cat.len() as int);
                &&& !g.has_cycle() ==> entry_views(summary.warnings@) == entries
                &&& g.has_cycle() ==> {
                    &&& summary.warnings@.len() >= 1
                    &&& summary.warnings@[0].0@ == "system"@
                    &&& summary.warnings@[0].1@.len() == 1
                    &&& entry_views(summary.warnings@.drop_first()) == entries
                    &&& exists|path: Seq<String>|
                        g.is_cycle(g.indices_of(path)) && summary.warnings@[0].1@[0]@ == cycle_description(
                            view_names(path),
                        )
                }
            } by {
                graph.lemma_built_same_shape(&g, cat);
                graph.lemma_same_shape(&g);
                if found_cycle {
                    assert(summary.warnings@.subrange(start.len() as int, summary.warnings@.len() as int)
                        =~= summary.warnings@.drop_first());
                    assert(summary.warnings@[0] == start[0]);
                    assert(graph.is_cycle(graph.indices_of(path)));
                    assert forall|k: int| 0 <= k < path.len() implies graph.has_node(#[trigger] path[k]@) by {
                        assert(graph.is_node(graph.indices_of(path)[k]));
                        graph.lemma_index_of(graph.indices_of(path)[k]);
                        assert(graph.name(graph.indices_of(path)[k]) == path[k]@);
                    }
                    assert(g.indices_of(path) =~= graph.indices_of(path));
                } else {
                    assert(summary.warnings@.subrange(0, summary.warnings@.len() as int) =~= summary.warnings@);
                }
            }
        }
        summary
    }

    /// The services that `service_names` need, dependencies first.
    pub fn get_ordered_services(&self, service_names: &[String]) -> (r: Result<Vec<String>, AureaCoreError>)
        requires
            self.wf(),
        ensures
            (forall|k: int| 0 <= k < service_names@.len() ==> has_service(self.services@, #[trigger] service_names@[k]@))
                ==> !(r matches Err(AureaCoreError::ServiceNotFound(_))),
            (exists|k: int| 0 <= k < service_names@.len() && !has_service(self.services@, #[trigger] service_names@[k]@))
                ==> (r matches Err(AureaCoreError::ServiceNotFound(_))),
            r matches Ok(v) ==> forall|k: int| 0 <= k < v@.len() ==> has_service(self.services@, #[trigger] v@[k]@),
            exists|g: DependencyGraph| #[trigger]
                g.built_from(self.services@) && (r matches Ok(v) ==> g.is_closure_order(
                    g.indices_of(service_names@),
                    g.indices_of(v@),
                )) && (r matches Err(e) ==> (e is ServiceNotFound || e is CircularDependency)) && (r matches Err(
                    AureaCoreError::CircularDependency(d),
                ) ==> g.cycle_reported(g.indices_of(service_names@), d@)) && (r is Err <==> (exists|k: int|
                0 <= k < service_names@.len() && !g.has_node(#[trigger] service_names@[k]@)) || (exists|
                p: Seq<int>,
            | #[trigger] g.is_cycle(p) && g.in_closure(g.indices_of(service_names@), p[0]))),
    {
        let graph = build_graph(&self.services);
        let resolver = DependencyResolver::new();
        let r = resolver.resolve_order(&graph, service_names);
        proof {
            lemma_built_names(&graph, self.services@);
            if forall|k: int| 0 <= k < service_names@.len() ==> has_service(self.services@, #[trigger] service_names@[k]@) {
                assert(forall|k: int| 0 <= k < service_names@.len() ==> graph.has_node(#[trigger] service_names@[k]@));
            }
            assert(graph.built_from(self.services@));
        }
        r
    }

    /// The same services in the opposite order: dependents first.
    pub fn get_reverse_ordered_services(&self, service_names: &[String]) -> (r: Result<Vec<String>, AureaCoreError>)
        requires
            self.wf(),
        ensures
            r matches Ok(v) ==> forall|k: int| 0 <= k < v@.len() ==> has_service(self.services@, #[trigger] v@[k]@),
            exists|g: DependencyGraph| #[trigger]
                g.built_from(self.services@) && (r matches Ok(v) ==> g.is_closure_order(
                    g.indices_of(service_names@),
                    g.indices_of(v@).reverse(),
                )) && (r matches Err(AureaCoreError::CircularDependency(d)) ==> g.cycle_reported(
                    g.indices_of(service_names@),
                    d@,
                )) && (r is Err <==> (exists|k: int|
                0 <= k < service_names@.len() && !g.has_node(#[trigger] service_names@[k]@)) || (exists|p: Seq<int>|
                #[trigger] g.is_cycle(p) && g.in_closure(g.indices_of(service_names@), p[0]))),
    {
        let graph = build_graph(&self.services);
        let resolver = DependencyResolver::new();
        proof {
            lemma_built_names(&graph, self.services@);
        }
        match resolver.resolve_order(&graph, service_names) {
            Ok(v) => {
                let mut out: Vec<String> = Vec::new();
                let mut i: usize = v.len();
                while i > 0
                    invariant
                        i <= v@.len(),
                        out@.len() == v@.len() - i,
                        forall|k: int| 0 <= k < out@.len() ==> #[trigger] out@[k] == v@[v@.len() - 1 - k],
                    decreases i,
                {
                    i = i - 1;
                    out.push(v[i].clone());
                }
                proof {
                    assert(graph.indices_of(out@).reverse() =~= graph.indices_of(v@));
                    assert forall|k: int| 0 <= k < out@.len() implies has_service(self.services@, #[trigger] out@[k]@) by {
                        assert(graph.has_node(v@[v@.len() - 1 - k]@));
                    }
                    assert(graph.built_from(self.services@));
                }
                Ok(out)
            },
            Err(e) => {
                proof {
                    assert(graph.built_from(self.services@));
                }
                Err(e)
            },
        }
    }

    /// Every service that depends on `service_name`, each once. Fails where
    /// there is no such service.
    pub fn get_impacted_services(&self, service_name: &str) -> (r: Result<Vec<String>, AureaCoreError>)
        requires
            self.wf(),
        ensures
            !has_service(self.services@, service_name@) ==> (r matches Err(AureaCoreError::ServiceNotFound(n))
                && n@ == service_name@),
            has_service(self.services@, service_name@) ==> (r matches Ok(v) && forall|g: DependencyGraph| #[trigger]
                g.built_from(self.services@) ==> g.names_exactly(
                    self.services@,
                    v@,
                    g.ancestors(g.index_of(service_name@)),
                )),
    {
        if find_service(&self.services, service_name).is_none() {
            return Err(AureaCoreError::ServiceNotFound(String::from_str(service_name)));
        }
        let graph = build_graph(&self.services);
        let resolver = DependencyResolver::new();
        let v = resolver.find_impact_path(&graph, service_name);
        proof {
            lemma_built_names(&graph, self.services@);
            assert(graph.has_node(service_name@));
            assert forall|g: DependencyGraph| #[trigger] g.built_from(self.services@) implies g.names_exactly(
                self.services@,
                v@,
                g.ancestors(g.index_of(service_name@)),
            ) by {
                graph.lemma_built_same_shape(&g, self.services@);
                graph.lemma_same_shape(&g);
                assert(g.indices_of(v@) =~= graph.indices_of(v@));
            }
        }
        Ok(v)
    }

    /// The impact of a change to `service_name`, service by service, with
    /// the walk that reaches each one, the flag of its last edge, and a
    /// description.
    pub fn get_detailed_impact(&self, service_name: &str) -> (r: Result<Vec<ImpactInfo>, AureaCoreError>)
        requires
            self.wf(),
        ensures
            !has_service(self.services@, service_name@) ==> (r matches Err(AureaCoreError::ServiceNotFound(n))
                && n@ == service_name@),
            has_service(self.services@, service_name@) ==> (r matches Ok(v) && forall|g: DependencyGraph| #[trigger]
                g.built_from(self.services@) ==> {
                    let x = g.index_of(service_name@);
                    &&& g.names_exactly(self.services@, impact_services(v@), g.ancestors(x))
                    &&& forall|k: int| 0 <= k < v@.len() ==> g.impact_entry(x, #[trigger] v@[k])
                    &&& forall|k: int, m: int|
                        0 <= k < v@.len() && 0 <= m < v@[k].impact_path@.len() ==> has_service(
                            self.services@,
                            #[trigger] v@[k].impact_path@[m]@,
                        )
                }),
    {
        if find_service(&self.services, service_name).is_none() {
            return Err(AureaCoreError::ServiceNotFound(String::from_str(service_name)));
        }
        let graph = build_graph(&self.services);
        let resolver = DependencyResolver::new();
        let v = resolver.analyze_impact_details(&graph, service_name);
        proof {
            lemma_built_names(&graph, self.services@);
            assert(graph.has_node(service_name@));
            let x0 = graph.index_of(service_name@);
            assert forall|k: int| 0 <= k < v@.len() implies graph.has_node(#[trigger] impact_services(v@)[k]@) by {
                assert(graph.impact_entry(x0, v@[k]));
            }
            assert forall|g: DependencyGraph| #[trigger] g.built_from(self.services@) implies {
                let x = g.index_of(service_name@);
                &&& g.names_exactly(self.services@, impact_services(v@), g.ancestors(x))
                &&& forall|k: int| 0 <= k < v@.len() ==> g.impact_entry(x, #[trigger] v@[k])
                &&& forall|k: int, m: int|
                    0 <= k < v@.len() && 0 <= m < v@[k].impact_path@.len() ==> has_service(
                        self.services@,
                        #[trigger] v@[k].impact_path@[m]@,
                    )
            } by {
                graph.lemma_built_same_shape(&g, self.services@);
                graph.lemma_same_shape(&g);
                assert(g.indices_of(impact_services(v@)) =~= graph.indices_of(impact_services(v@)));
                assert forall|k: int| 0 <= k < v@.len() implies g.impact_entry(x0, #[trigger] v@[k]) by {
                    graph.lemma_same_shape_entry(&g, x0, v@[k]);
                }
                assert forall|k: int, m: int|
                    0 <= k < v@.len() && 0 <= m < v@[k].impact_path@.len() implies has_service(
                        self.services@,
                        #[trigger] v@[k].impact_path@[m]@,
                    ) by {
                    assert(graph.impact_entry(x0, v@[k]));
                    assert(graph.has_node(v@[k].impact_path@[m]@));
                }
            }
        }
        Ok(v)
    }

    /// The services that depend on `service_name` through required edges only.
    pub fn get_critical_impacts(&self, service_name: &str) -> (r: Result<Vec<String>, AureaCoreError>)
        requires
            self.wf(),
        ensures
            !has_service(self.services@, service_name@) ==> (r matches Err(AureaCoreError::ServiceNotFound(n))
                && n@ == service_name@),
            has_service(self.services@, service_name@) ==> (r matches Ok(v) && forall|g: DependencyGraph| #[trigger]
                g.built_from(self.services@) ==> g.names_exactly(
                    self.services@,
                    v@,
                    g.required_ancestors(g.index_of(service_name@)),
                )),
    {
        if find_service(&self.services, service_name).is_none() {
            return Err(AureaCoreError::ServiceNotFound(String::from_str(service_name)));
        }
        let graph = build_graph(&self.services);
        let resolver = DependencyResolver::new();
        let v = resolver.critical_impact(&graph, service_name);
        proof {
            lemma_built_names(&graph, self.services@);
            assert(graph.has_node(service_name@));
            assert forall|g: DependencyGraph| #[trigger] g.built_from(self.services@) implies g.names_exactly(
                self.services@,
                v@,
                g.required_ancestors(g.index_of(service_name@)),
            ) by {
                graph.lemma_built_same_shape(&g, self.services@);
                graph.lemma_same_shape(&g);
                assert(g.indices_of(v@) =~= graph.indices_of(v@));
            }
        }
        Ok(v)
    }

    /// Removes a service and returns every service that depended on it.
    /// Without `force`, refuses while any service depends on it through
    /// required edges only, naming those services.
    pub fn delete_service(&mut self, name: &str, force: bool) -> (r: Result<Vec<String>, AureaCoreError>)
        requires
            old(self).wf(),
        ensures
            final(self).wf(),
            !has_service(old(self).services@, name@) ==> (r matches Err(AureaCoreError::ServiceNotFound(n)) && n@
                == name@) && final(self).services@ == old(self).services@,
            has_service(old(self).services@, name@) ==> forall|g: DependencyGraph| #[trigger]
                g.built_from(old(self).services@) ==> {
                    let x = g.index_of(name@);
                    &&& (!force && !g.required_ancestors(x).is_empty()) ==> (r matches Err(
                        AureaCoreError::ValidationError(m),
                    ) && g.refusal_names_blockers(old(self).services@, name@, m@)) && final(self).services@
                        == old(self).services@
                    &&& (force || g.required_ancestors(x).is_empty()) ==> (r matches Ok(v) && g.names_exactly(
                        old(self).services@,
                        v@,
                        g.ancestors(x),
                    )) && final(self).services@ == old(self).services@.remove(x)
                },
    {
        let ghost cat = self.services@;
        let k = match find_service(&self.services, name) {
            Some(k) => k,
            None => {
                return Err(AureaCoreError::ServiceNotFound(String::from_str(name)));
            },
        };
        let graph = build_graph(&self.services);
        let resolver = DependencyResolver::new();
        let critical = resolver.critical_impact(&graph, name);
        proof {
            lemma_built_names(&graph, cat);
            assert(graph.name(k as int) == name@);
            assert(graph.has_node(name@));
            graph.lemma_index_of(k as int);
            if critical@.len() > 0 {
                assert(graph.indices_of(critical@).to_set().contains(graph.indices_of(critical@)[0]));
            } else {
                assert(graph.indices_of(critical@).to_set() =~= Set::<int>::empty());
            }
        }
        if !force && critical.len() > 0 {
            let mut msg = String::from_str("Cannot delete service '");
            msg.append(name);
            msg.append("' because it is required by: ");
            let blocking = crate::graph::join_strings(&critical, ", ");
            msg.append(blocking.as_str());
            proof {
                assert(msg@ == deletion_refusal(name@, critical@));
                assert(!graph.required_ancestors(k as int).is_empty());
                assert forall|g: DependencyGraph| #[trigger] g.built_from(cat) implies g.index_of(name@) == k
                    && g.refusal_names_blockers(cat, name@, msg@) && !g.required_ancestors(k as int).is_empty() by {
                    graph.lemma_built_same_shape(&g, cat);
                    graph.lemma_same_shape(&g);
                    assert(g.required_ancestors(k as int) == graph.required_ancestors(k as int));
                    assert(g.indices_of(critical@) =~= graph.indices_of(critical@));
                    assert(g.names_exactly(cat, critical@, g.required_ancestors(g.index_of(name@))));
                }
            }
            return Err(AureaCoreError::ValidationError(msg));
        }
        let impacted = resolver.find_impact_path(&graph, name);
        self.services.remove(k);
        proof {
            assert forall|a: int, b: int|
                0 <= a < self.services@.len() && 0 <= b < self.services@.len() && a != b implies self.services@[a].name@
                != self.services@[b].name@ by {
                let a0 = if a < k { a } else { a + 1 };
                let b0 = if b < k { b } else { b + 1 };
                assert(self.services@[a] == cat[a0]);
                assert(self.services@[b] == cat[b0]);
            }
            assert forall|g: DependencyGraph| #[trigger] g.built_from(cat) implies g.index_of(name@) == k
                && g.required_ancestors(k as int) == graph.required_ancestors(k as int) && g.names_exactly(
                cat,
                impacted@,
                g.ancestors(k as int),
            ) by {
                graph.lemma_built_same_shape(&g, cat);
                graph.lemma_same_shape(&g);
                assert(g.indices_of(impacted@) =~= graph.indices_of(impacted@));
            }
        }
        Ok(impacted)
    }
}

} // verus!
