use vstd::prelude::*;
use vstd::string::StringExecFns;

use crate::graph::{join_strings, joined, view_names};
use crate::schema::{Dependency, ServiceType};
use crate::error::AureaCoreError;
use crate::service::{deps_of, Service, ServiceState, ServiceStatus};
use crate::version::{check_version_compatibility, compatibility_of, parsed_version, VersionCompatibility};

verus! {

/// No two services of the catalog share a name.
pub open spec fn names_unique(cat: Seq<Service>) -> bool {
    forall|i: int, k: int| 0 <= i < cat.len() && 0 <= k < cat.len() && i != k ==> cat[i].name@ != cat[k].name@
}

pub open spec fn has_service(cat: Seq<Service>, name: Seq<char>) -> bool {
    exists|k: int| 0 <= k < cat.len() && cat[k].name@ == name
}

/// The position of the service that carries `name`.
pub open spec fn service_index(cat: Seq<Service>, name: Seq<char>) -> int {
    choose|k: int| 0 <= k < cat.len() && cat[k].name@ == name
}

/// The position of the service named `name`, if the catalog has one.
pub fn find_service(cat: &Vec<Service>, name: &str) -> (r: Option<usize>)
    requires
        names_unique(cat@),
    ensures
        r is None <==> !has_service(cat@, name@),
        r matches Some(k) ==> k < cat@.len() && cat@[k as int].name@ == name@ && service_index(cat@, name@) == k,
{
    let key = String::from_str(name);
    let mut i: usize = 0;
    while i < cat.len()
        invariant
            names_unique(cat@),
            i <= cat@.len(),
            key@ == name@,
            forall|k: int| 0 <= k < i ==> cat@[k].name@ != name@,
        decreases cat@.len() - i,
    {
        if cat[i].name == key {
            proof {
                assert(has_service(cat@, name@));
                let k = service_index(cat@, name@);
                assert(cat@[k].name@ == name@);
                assert(k == i as int);
            }
            return Some(i);
        }
        i = i + 1;
    }
    None
}

/// What is wrong with one declared dependency.
#[derive(Debug, Clone, Copy, PartialEq, Eq, Structural)]
pub enum DependencyIssue {
    MissingRequired,
    MissingOptional,
    MinorVersionMismatch,
    MajorVersionMismatchRequired,
    MajorVersionMismatchOptional,
}

impl DependencyIssue {
    /// Issues that fail the dependent service; the others are warnings.
    pub open spec fn blocks(self) -> bool {
        self is MissingRequired || self is MajorVersionMismatchRequired
    }

    pub fn is_error(&self) -> (r: bool)
        ensures
            r == self.blocks(),
    {
        match self {
            DependencyIssue::MissingRequired => true,
            DependencyIssue::MajorVersionMismatchRequired => true,
            _ => false,
        }
    }
}

/// The dependency policy: an absent dependency, or one whose version does
/// not match the constraint, is an error where the dependency is required
/// (a minor mismatch never is) and a warning otherwise. `compat` is absent
/// where no constraint is declared.
pub open spec fn issue_for(present: bool, compat: Option<VersionCompatibility>, required: bool) -> Option<
    DependencyIssue,
> {
    if !present {
        Some(
            if required {
                DependencyIssue::MissingRequired
            } else {
                DependencyIssue::MissingOptional
            },
        )
    } else {
        match compat {
            None => None,
            Some(VersionCompatibility::Compatible) => None,
            Some(VersionCompatibility::MinorIncompatible) => Some(DependencyIssue::MinorVersionMismatch),
            Some(VersionCompatibility::MajorIncompatible) => Some(
                if required {
                    DependencyIssue::MajorVersionMismatchRequired
                } else {
                    DependencyIssue::MajorVersionMismatchOptional
                },
            ),
        }
    }
}

/// Applies the dependency policy to one dependency.
pub fn classify_dependency(present: bool, compat: Option<VersionCompatibility>, required: bool) -> (r: Option<
    DependencyIssue,
>)
    ensures
        r == issue_for(present, compat, required),
{
    if !present {
        if required {
            Some(DependencyIssue::MissingRequired)
        } else {
            Some(DependencyIssue::MissingOptional)
        }
    } else {
        match compat {
            None => None,
            Some(VersionCompatibility::Compatible) => None,
            Some(VersionCompatibility::MinorIncompatible) => Some(DependencyIssue::MinorVersionMismatch),
            Some(VersionCompatibility::MajorIncompatible) => {
                if required {
                    Some(DependencyIssue::MajorVersionMismatchRequired)
                } else {
                    Some(DependencyIssue::MajorVersionMismatchOptional)
                }
            },
        }
    }
}

/// The declared version of the service that `d` names; empty where it declares none.
pub open spec fn found_version(cat: Seq<Service>, d: Dependency) -> Seq<char> {
    match cat[service_index(cat, d.service@)].profile.version {
        Some(v) => v@,
        None => Seq::empty(),
    }
}

pub open spec fn constraint_text(d: Dependency) -> Seq<char> {
    match d.version_constraint {
        Some(c) => c@,
        None => Seq::empty(),
    }
}

/// How the version of the dependency `d` stands to its constraint, where
/// it has one and the service it names declares a version.
pub open spec fn dependency_compat(cat: Seq<Service>, d: Dependency) -> Option<VersionCompatibility> {
    match (d.version_constraint, cat[service_index(cat, d.service@)].profile.version) {
        (Some(c), Some(v)) => Some(compatibility_of(parsed_version(v@), parsed_version(c@))),
        _ => None,
    }
}

pub open spec fn dependency_issue(cat: Seq<Service>, d: Dependency) -> Option<DependencyIssue> {
    issue_for(has_service(cat, d.service@), dependency_compat(cat, d), d.required)
}

pub open spec fn major_text(dep: Seq<char>, expected: Seq<char>, found: Seq<char>) -> Seq<char> {
    "Major version incompatibility for dependency '"@ + dep + "': expected "@ + expected + " but found "@ + found
}

/// How an issue with dependency `dep` is reported.
pub open spec fn issue_message(issue: DependencyIssue, dep: Seq<char>, expected: Seq<char>, found: Seq<char>) -> Seq<
    char,
> {
    match issue {
        DependencyIssue::MissingRequired => "Required dependency '"@ + dep + "' not found"@,
        DependencyIssue::MissingOptional => "Optional dependency '"@ + dep + "' not found"@,
        DependencyIssue::MinorVersionMismatch => "Minor version incompatibility for dependency '"@ + dep
            + "': expected "@ + expected + " but found "@ + found,
        DependencyIssue::MajorVersionMismatchRequired => major_text(dep, expected, found),
        DependencyIssue::MajorVersionMismatchOptional => "Optional dependency '"@ + dep
            + "' has incompatible version: "@ + major_text(dep, expected, found),
    }
}

fn major_message(dep: &String, expected: &String, found: &String) -> (r: String)
    ensures
        r@ == major_text(dep@, expected@, found@),
{
    let mut r = String::from_str("Major version incompatibility for dependency '");
    r.append(dep.as_str());
    r.append("': expected ");
    r.append(expected.as_str());
    r.append(" but found ");
    r.append(found.as_str());
    r
}

/// The report of an issue with dependency `dep`.
pub fn issue_text(issue: DependencyIssue, dep: &String, expected: &String, found: &String) -> (r: String)
    ensures
        r@ == issue_message(issue, dep@, expected@, found@),
{
    match issue {
        DependencyIssue::MissingRequired => {
            let mut r = String::from_str("Required dependency '");
            r.append(dep.as_str());
            r.append("' not found");
            r
        },
        DependencyIssue::MissingOptional => {
            let mut r = String::from_str("Optional dependency '");
            r.append(dep.as_str());
            r.append("' not found");
            r
        },
        DependencyIssue::MinorVersionMismatch => {
            let mut r = String::from_str("Minor version incompatibility for dependency '");
            r.append(dep.as_str());
            r.append("': expected ");
            r.append(expected.as_str());
            r.append(" but found ");
            r.append(found.as_str());
            r
        },
        DependencyIssue::MajorVersionMismatchRequired => major_message(dep, expected, found),
        DependencyIssue::MajorVersionMismatchOptional => {
            let mut r = String::from_str("Optional dependency '");
            r.append(dep.as_str());
            r.append("' has incompatible version: ");
            let m = major_message(dep, expected, found);
            r.append(m.as_str());
            r
        },
    }
}

/// The report of one dependency's issue, if it has one that `errors`
/// selects (errors where it holds, warnings where not).
pub open spec fn dependency_report(cat: Seq<Service>, d: Dependency, errors: bool) -> Seq<Seq<char>> {
    match dependency_issue(cat, d) {
        Some(i) => if i.blocks() == errors {
            seq![issue_message(i, d.service@, constraint_text(d), found_version(cat, d))]
        } else {
            Seq::empty()
        },
        None => Seq::empty(),
    }
}

/// The reports of the dependencies' issues that `errors` selects, in order.
pub open spec fn dependency_reports(cat: Seq<Service>, deps: Seq<Dependency>, errors: bool) -> Seq<Seq<char>>
    decreases deps.len(),
{
    if deps.len() == 0 {
        Seq::empty()
    } else {
        dependency_reports(cat, deps.drop_last(), errors) + dependency_report(cat, deps.last(), errors)
    }
}

/// Checks each dependency that `service` declares against the catalog:
/// the hard errors and the warnings, each in declaration order.
pub fn validate_dependencies(service: &Service, catalog: &Vec<Service>) -> (r: (Vec<String>, Vec<String>))
    requires
        names_unique(catalog@),
    ensures
        view_names(r.0@) == dependency_reports(catalog@, deps_of(*service), true),
        view_names(r.1@) == dependency_reports(catalog@, deps_of(*service), false),
{
    let mut errors: Vec<String> = Vec::new();
    let mut warnings: Vec<String> = Vec::new();
    let empty: Vec<Dependency> = Vec::new();
    let deps = match &service.config.dependencies {
        Some(v) => v,
        None => &empty,
    };
    let ghost ds = deps_of(*service);
    proof {
        assert(deps@ =~= ds);
    }
    let mut i: usize = 0;
    while i < deps.len()
        invariant
            names_unique(catalog@),
            deps@ == ds,
            i <= ds.len(),
            view_names(errors@) == dependency_reports(catalog@, ds.subrange(0, i as int), true),
            view_names(warnings@) == dependency_reports(catalog@, ds.subrange(0, i as int), false),
        decreases ds.len() - i,
    {
        let d = &deps[i];
        let ghost before_e = view_names(errors@);
        let ghost before_w = view_names(warnings@);
        let pos = find_service(catalog, d.service.as_str());
        let mut found = String::new();
        let compat = match pos {
            Some(k) => {
                match &catalog[k].profile.version {
                    Some(v) => {
                        found = v.clone();
                        match &d.version_constraint {
                            Some(c) => Some(check_version_compatibility(found.as_str(), c.as_str())),
                            None => None,
                        }
                    },
                    None => None,
                }
            },
            None => None,
        };
        let issue = classify_dependency(pos.is_some(), compat, d.required);
        proof {
            assert(ds.subrange(0, i + 1).drop_last() =~= ds.subrange(0, i as int));
            assert(ds.subrange(0, i + 1).last() == *d);
            if pos is Some {
                assert(issue == dependency_issue(catalog@, *d));
                assert(found@ == found_version(catalog@, *d));
            } else {
                assert(issue == dependency_issue(catalog@, *d));
            }
        }
        match issue {
            Some(kind) => {
                let expected = match &d.version_constraint {
                    Some(c) => c.clone(),
                    None => String::new(),
                };
                let text = issue_text(kind, &d.service, &expected, &found);
                proof {
                    if kind is MissingRequired || kind is MissingOptional {
                    } else {
                        assert(found@ == found_version(catalog@, *d));
                    }
                    assert(expected@ == constraint_text(*d));
                }
                if kind.is_error() {
                    errors.push(text);
                    proof {
                        assert(view_names(errors@) =~= before_e.push(text@));
                        assert(view_names(warnings@) =~= before_w + Seq::<Seq<char>>::empty());
                    }
                } else {
                    warnings.push(text);
                    proof {
                        assert(view_names(warnings@) =~= before_w.push(text@));
                        assert(view_names(errors@) =~= before_e + Seq::<Seq<char>>::empty());
                    }
                }
            },
            None => {
                proof {
                    assert(view_names(errors@) =~= before_e + Seq::<Seq<char>>::empty());
                    assert(view_names(warnings@) =~= before_w + Seq::<Seq<char>>::empty());
                }
            },
        }
        i = i + 1;
    }
    proof {
        assert(ds.subrange(0, ds.len() as int) =~= ds);
    }
    (errors, warnings)
}

pub open spec fn digit_text(d: nat) -> Seq<char> {
    if d == 0 {
        "0"@
    } else if d == 1 {
        "1"@
    } else if d == 2 {
        "2"@
    } else if d == 3 {
        "3"@
    } else if d == 4 {
        "4"@
    } else if d == 5 {
        "5"@
    } else if d == 6 {
        "6"@
    } else if d == 7 {
        "7"@
    } else if d == 8 {
        "8"@
    } else {
        "9"@
    }
}

/// The decimal digits of `n`.
pub open spec fn decimal(n: nat) -> Seq<char>
    decreases n,
{
    if n < 10 {
        digit_text(n)
    } else {
        decimal(n / 10) + digit_text(n % 10)
    }
}

fn digit_str(d: usize) -> (r: &'static str)
    requires
        d < 10,
    ensures
        r@ == digit_text(d as nat),
{
    if d == 0 {
        "0"
    } else if d == 1 {
        "1"
    } else if d == 2 {
        "2"
    } else if d == 3 {
        "3"
    } else if d == 4 {
        "4"
    } else if d == 5 {
        "5"
    } else if d == 6 {
        "6"
    } else if d == 7 {
        "7"
    } else if d == 8 {
        "8"
    } else {
        "9"
    }
}

/// `n` written in decimal.
pub fn decimal_text(n: usize) -> (r: String)
    ensures
        r@ == decimal(n as nat),
    decreases n,
{
    if n < 10 {
        String::from_str(digit_str(n))
    } else {
        let mut r = decimal_text(n / 10);
        r.append(digit_str(n % 10));
        r
    }
}

/// Warnings for the endpoints of a REST service that declare no method,
/// numbered from one.
pub open spec fn rest_warnings(name: Seq<char>, methods: Seq<bool>) -> Seq<Seq<char>>
    decreases methods.len(),
{
    if methods.len() == 0 {
        Seq::empty()
    } else {
        rest_warnings(name, methods.drop_last()) + if methods.last() {
            Seq::<Seq<char>>::empty()
        } else {
            seq![
                "Service '"@ + name + "' is a REST service but endpoint #"@ + decimal(methods.len() as nat)
                    + " doesn't specify an HTTP method"@,
            ]
        }
    }
}

pub open spec fn has_key(keys: Seq<String>, key: Seq<char>) -> bool {
    exists|k: int| 0 <= k < keys.len() && keys[k]@ == key
}

/// A warning where the metadata lacks `key`.
pub open spec fn key_warning(keys: Seq<String>, key: Seq<char>, text: Seq<char>) -> Seq<Seq<char>> {
    if has_key(keys, key) {
        Seq::empty()
    } else {
        seq![text]
    }
}

/// What each kind of service is expected to declare, and the warnings
/// where it does not.
pub open spec fn type_warnings(s: Service) -> Seq<Seq<char>> {
    let name = s.name@;
    let keys = s.profile.metadata_keys@;
    match s.profile.service_type {
        None => Seq::empty(),
        Some(ServiceType::Rest) => rest_warnings(name, s.profile.endpoint_methods@),
        Some(ServiceType::GraphQL) => key_warning(
            keys,
            "graphql_schema"@,
            "Service '"@ + name + "' is a GraphQL service but doesn't specify a graphql_schema in metadata"@,
        ),
        Some(ServiceType::Grpc) => key_warning(
            keys,
            "proto_files"@,
            "Service '"@ + name + "' is a gRPC service but doesn't specify proto_files in metadata"@,
        ),
        Some(ServiceType::EventDriven) => key_warning(
            keys,
            "topics"@,
            "Service '"@ + name + "' is an event-driven service but doesn't specify topics in metadata"@,
        ),
        Some(ServiceType::Other(t)) => if s.profile.has_description {
            Seq::empty()
        } else {
            seq![
                "Service '"@ + name + "' uses a custom service type '"@ + t@
                    + "' but doesn't provide a description"@,
            ]
        },
    }
}

fn has_metadata_key(keys: &Vec<String>, key: &str) -> (r: bool)
    ensures
        r == has_key(keys@, key@),
{
    let k = String::from_str(key);
    let mut i: usize = 0;
    while i < keys.len()
        invariant
            i <= keys@.len(),
            k@ == key@,
            forall|m: int| 0 <= m < i ==> keys@[m]@ != key@,
        decreases keys@.len() - i,
    {
        if keys[i] == k {
            return true;
        }
        i = i + 1;
    }
    false
}

fn service_text(name: &String, tail: &str) -> (r: String)
    ensures
        r@ == "Service '"@ + name@ + tail@,
{
    let mut r = String::from_str("Service '");
    r.append(name.as_str());
    r.append(tail);
    r
}

/// The warnings of the service-kind heuristics.
pub fn check_service_type(service: &Service) -> (r: Vec<String>)
    ensures
        view_names(r@) == type_warnings(*service),
{
    let mut r: Vec<String> = Vec::new();
    let name = &service.name;
    let keys = &service.profile.metadata_keys;
    match &service.profile.service_type {
        None => {},
        Some(ServiceType::Rest) => {
            let methods = &service.profile.endpoint_methods;
            let mut i: usize = 0;
            while i < methods.len()
                invariant
                    i <= methods@.len(),
                    view_names(r@) == rest_warnings(name@, methods@.subrange(0, i as int)),
                decreases methods@.len() - i,
            {
                let ghost before = view_names(r@);
                let ghost sub = methods@.subrange(0, i + 1);
                proof {
                    assert(sub.drop_last() =~= methods@.subrange(0, i as int));
                    assert(sub.last() == methods@[i as int]);
                }
                if !methods[i] {
                    let mut w = service_text(name, "' is a REST service but endpoint #");
                    let num = decimal_text(i + 1);
                    w.append(num.as_str());
                    w.append(" doesn't specify an HTTP method");
                    r.push(w);
                    proof {
                        assert(view_names(r@) =~= before.push(w@));
                        assert(rest_warnings(name@, sub) =~= before.push(w@));
                    }
                } else {
                    proof {
                        assert(rest_warnings(name@, sub) =~= before);
                    }
                }
                i = i + 1;
            }
            proof {
                assert(methods@.subrange(0, methods@.len() as int) =~= methods@);
            }
        },
        Some(ServiceType::GraphQL) => {
            if !has_metadata_key(keys, "graphql_schema") {
                r.push(service_text(name, "' is a GraphQL service but doesn't specify a graphql_schema in metadata"));
            }
            proof {
                assert(view_names(r@) =~= type_warnings(*service));
            }
        },
        Some(ServiceType::Grpc) => {
            if !has_metadata_key(keys, "proto_files") {
                r.push(service_text(name, "' is a gRPC service but doesn't specify proto_files in metadata"));
            }
            proof {
                assert(view_names(r@) =~= type_warnings(*service));
            }
        },
        Some(ServiceType::EventDriven) => {
            if !has_metadata_key(keys, "topics") {
                r.push(service_text(name, "' is an event-driven service but doesn't specify topics in metadata"));
            }
            proof {
                assert(view_names(r@) =~= type_warnings(*service));
            }
        },
        Some(ServiceType::Other(t)) => {
            if !service.profile.has_description {
                let mut w = service_text(name, "' uses a custom service type '");
                w.append(t.as_str());
                w.append("' but doesn't provide a description");
                r.push(w);
            }
            proof {
                assert(view_names(r@) =~= type_warnings(*service));
            }
        },
    }
    proof {
        if service.profile.service_type is None {
            assert(view_names(r@) =~= type_warnings(*service));
        }
    }
    r
}

/// How the service's schema version stands to the current one, "1.0.0".
pub open spec fn schema_compat(s: Service) -> VersionCompatibility {
    compatibility_of(parsed_version(s.config.schema_version@), parsed_version("1.0.0"@))
}

/// Errors of the structural checks: an incompatible schema version stops
/// them; otherwise what the schema check reported.
pub open spec fn structural_errors(s: Service) -> Seq<Seq<char>> {
    if schema_compat(s) == VersionCompatibility::MajorIncompatible {
        seq!["Schema version "@ + s.config.schema_version@ + " is incompatible with current version 1.0.0"@]
    } else if s.profile.schema_errors@.len() > 0 {
        seq!["Schema validation failed: "@ + joined(view_names(s.profile.schema_errors@), ", "@)]
    } else {
        Seq::empty()
    }
}

/// The warning for a schema version of another minor version.
pub open spec fn minor_schema_warning(s: Service) -> Seq<char> {
    "Service '"@ + s.name@ + "' uses schema version "@ + s.config.schema_version@
        + " which has minor differences from the current version 1.0.0. Some features may not be validated correctly."@
}

/// The schema check's own warning for a schema version of another minor
/// version, where the check passed.
pub open spec fn minor_schema_check_warning(s: Service) -> Seq<char> {
    "Minor schema version incompatibility: config version "@ + s.config.schema_version@ + " vs current 1.0.0"@
}

/// Warnings of the structural checks: none where the schema version is
/// incompatible; otherwise a warning for a schema version of another minor
/// version, the service-kind heuristics, and the schema check's own warning
/// for that minor version where the schema check passed.
pub open spec fn structural_warnings(s: Service) -> Seq<Seq<char>> {
    if schema_compat(s) == VersionCompatibility::MajorIncompatible {
        Seq::empty()
    } else if schema_compat(s) == VersionCompatibility::MinorIncompatible {
        seq![minor_schema_warning(s)] + type_warnings(s) + if s.profile.schema_errors@.len() > 0 {
            Seq::<Seq<char>>::empty()
        } else {
            seq![minor_schema_check_warning(s)]
        }
    } else {
        type_warnings(s)
    }
}

/// The structural checks of a service: its errors and its warnings.
pub fn check_structure(service: &Service) -> (r: (Vec<String>, Vec<String>))
    ensures
        view_names(r.0@) == structural_errors(*service),
        view_names(r.1@) == structural_warnings(*service),
{
    let mut errors: Vec<String> = Vec::new();
    let mut warnings: Vec<String> = Vec::new();
    let v = &service.config.schema_version;
    let compat = check_version_compatibility(v.as_str(), "1.0.0");
    if compat == VersionCompatibility::MajorIncompatible {
        let mut e = String::from_str("Schema version ");
        e.append(v.as_str());
        e.append(" is incompatible with current version 1.0.0");
        errors.push(e);
        proof {
            assert(view_names(errors@) =~= structural_errors(*service));
            assert(view_names(warnings@) =~= structural_warnings(*service));
        }
        return (errors, warnings);
    }
    let minor = compat == VersionCompatibility::MinorIncompatible;
    if minor {
        let mut w = service_text(&service.name, "' uses schema version ");
        w.append(v.as_str());
        w.append(
            " which has minor differences from the current version 1.0.0. Some features may not be validated correctly.",
        );
        warnings.push(w);
    }
    let ghost w_before = view_names(warnings@);
    let tw = check_service_type(service);
    let mut i: usize = 0;
    while i < tw.len()
        invariant
            i <= tw@.len(),
            view_names(warnings@) == w_before + view_names(tw@).subrange(0, i as int),
        decreases tw@.len() - i,
    {
        let ghost prev = warnings@;
        let c = tw[i].clone();
        warnings.push(c);
        proof {
            assert(c@ == view_names(tw@)[i as int]);
            assert(warnings@ == prev.push(c));
            assert(view_names(warnings@) =~= view_names(prev).push(c@));
            assert(view_names(tw@).subrange(0, i + 1) =~= view_names(tw@).subrange(0, i as int).push(c@));
            assert(view_names(warnings@) =~= w_before + view_names(tw@).subrange(0, i + 1));
        }
        i = i + 1;
    }
    proof {
        assert(view_names(tw@).subrange(0, tw@.len() as int) =~= view_names(tw@));
    }
    let ghost w_mid = view_names(warnings@);
    if service.profile.schema_errors.len() > 0 {
        let mut e = String::from_str("Schema validation failed: ");
        let joined_errors = join_strings(&service.profile.schema_errors, ", ");
        e.append(joined_errors.as_str());
        errors.push(e);
        proof {
            assert(view_names(errors@) =~= seq![e@]);
        }
    } else if minor {
        let mut w = String::from_str("Minor schema version incompatibility: config version ");
        w.append(v.as_str());
        w.append(" vs current 1.0.0");
        warnings.push(w);
        proof {
            assert(view_names(warnings@) =~= w_mid.push(w@));
        }
    }
    proof {
        assert(view_names(errors@) =~= structural_errors(*service));
        if minor {
            assert(view_names(warnings@) =~= structural_warnings(*service));
        } else {
            assert(w_before =~= Seq::<Seq<char>>::empty());
            assert(view_names(warnings@) =~= structural_warnings(*service));
        }
    }
    (errors, warnings)
}

/// The hard errors of a service: those of its dependencies, or, where
/// there are none, those of the structural checks.
pub open spec fn service_errors(cat: Seq<Service>, s: Service) -> Seq<Seq<char>> {
    let de = dependency_reports(cat, deps_of(s), true);
    if de.len() > 0 {
        de
    } else {
        structural_errors(s)
    }
}

/// The warnings of a service: those of its dependencies, then, where its
/// dependencies raised no error, those of the structural checks.
pub open spec fn service_warnings(cat: Seq<Service>, s: Service) -> Seq<Seq<char>> {
    let de = dependency_reports(cat, deps_of(s), true);
    dependency_reports(cat, deps_of(s), false) + if de.len() > 0 {
        Seq::<Seq<char>>::empty()
    } else {
        structural_warnings(s)
    }
}

/// Validates one service against the catalog: its hard errors and its warnings.
pub fn evaluate_service(service: &Service, catalog: &Vec<Service>) -> (r: (Vec<String>, Vec<String>))
    requires
        names_unique(catalog@),
    ensures
        view_names(r.0@) == service_errors(catalog@, *service),
        view_names(r.1@) == service_warnings(catalog@, *service),
{
    let (errors, mut warnings) = validate_dependencies(service, catalog);
    if errors.len() > 0 {
        proof {
            assert(view_names(warnings@) =~= service_warnings(catalog@, *service));
        }
        return (errors, warnings);
    }
    let (s_errors, s_warnings) = check_structure(service);
    let ghost w_before = view_names(warnings@);
    let mut i: usize = 0;
    while i < s_warnings.len()
        invariant
            i <= s_warnings@.len(),
            view_names(warnings@) == w_before + view_names(s_warnings@).subrange(0, i as int),
        decreases s_warnings@.len() - i,
    {
        let ghost prev = warnings@;
        let c = s_warnings[i].clone();
        warnings.push(c);
        proof {
            assert(c@ == view_names(s_warnings@)[i as int]);
            assert(warnings@ == prev.push(c));
            assert(view_names(warnings@) =~= view_names(prev).push(c@));
            assert(view_names(s_warnings@).subrange(0, i + 1) =~= view_names(s_warnings@).subrange(0, i as int).push(c@));
            assert(view_names(warnings@) =~= w_before + view_names(s_warnings@).subrange(0, i + 1));
        }
        i = i + 1;
    }
    proof {
        assert(view_names(s_warnings@).subrange(0, s_warnings@.len() as int) =~= view_names(s_warnings@));
    }
    (s_errors, warnings)
}

impl Service {
    /// Validates the service against the catalog and sets its status:
    /// `Error` with the first hard error, or `Active`; with the warnings
    /// either way.
    pub fn validate(&mut self, catalog: &Vec<Service>, now: i64) -> (r: Result<(), AureaCoreError>)
        requires
            names_unique(catalog@),
        ensures
            final(self).name == old(self).name,
            final(self).config == old(self).config,
            final(self).profile == old(self).profile,
            final(self).status.last_checked == now,
            view_names(final(self).status.warnings@) == service_warnings(catalog@, *old(self)),
            service_errors(catalog@, *old(self)).len() > 0 ==> {
                &&& final(self).status.state == ServiceState::Error
                &&& final(self).status.error_message matches Some(m) && m@ == service_errors(catalog@, *old(self))[0]
                &&& r matches Err(AureaCoreError::ValidationError(m)) && m@ == service_errors(catalog@, *old(self))[0]
            },
            service_errors(catalog@, *old(self)).len() == 0 ==> {
                &&& final(self).status.state == ServiceState::Active
                &&& final(self).status.error_message is None
                &&& r is Ok
            },
    {
        let (errors, warnings) = evaluate_service(self, catalog);
        if errors.len() > 0 {
            let reason = errors[0].clone();
            let detail = errors[0].clone();
            self.status = ServiceStatus { state: ServiceState::Error, last_checked: now, error_message: Some(reason), warnings };
            Err(AureaCoreError::ValidationError(detail))
        } else {
            self.status = ServiceStatus { state: ServiceState::Active, last_checked: now, error_message: None, warnings };
            Ok(())
        }
    }
}

} // verus!
