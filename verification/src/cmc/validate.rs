use vstd::prelude::*;
use vstd::string::StringExecFns;

verus! {

/// A name for what `std::path::Path::parent` gives for the path `p`: the path
/// without its final component, or nothing where `p` ends in a root or is empty.
pub uninterp spec fn path_parent(p: Seq<char>) -> Option<Seq<char>>;

/// Calls `std::path::Path::new(p).parent()`. Its result is claimed to be
/// `path_parent` of the characters of `p`, and nothing else; a `Path` made
/// from a `str` is valid UTF-8, so its parent converts back without loss.
#[verifier::external_body]
fn parent_of_path(p: &str) -> (r: Option<String>)
    ensures
        match r {
            None => path_parent(p@) is None,
            Some(s) => path_parent(p@) == Some(s@),
        },
{
    std::path::Path::new(p).parent().map(|q| q.to_string_lossy().into_owned())
}

/// The identifier of a capability of a component manifest. Capabilities of
/// different kinds live in different namespaces, so their names may collide;
/// the kind disambiguates them.
#[derive(Debug, PartialEq, Eq, Hash, Clone)]
pub enum CapabilityId {
    Service(String),
    Protocol(String),
    Directory(String),
    Runner(String),
    Resolver(String),
    StorageType(String),
    Event(String),
    EventStream(String),
}

/// The name or path that a capability identifier holds.
pub open spec fn id_of(c: CapabilityId) -> Seq<char> {
    match c {
        CapabilityId::Service(p) => p@,
        CapabilityId::Protocol(p) => p@,
        CapabilityId::Directory(p) => p@,
        CapabilityId::Runner(n) => n@,
        CapabilityId::Resolver(n) => n@,
        CapabilityId::StorageType(s) => s@,
        CapabilityId::Event(n) => n@,
        CapabilityId::EventStream(p) => p@,
    }
}

/// The human readable description of the kind of a capability identifier.
pub open spec fn kind_description(c: CapabilityId) -> Seq<char> {
    match c {
        CapabilityId::Service(_) => "service"@,
        CapabilityId::Protocol(_) => "protocol"@,
        CapabilityId::Directory(_) => "directory"@,
        CapabilityId::Runner(_) => "runner"@,
        CapabilityId::Resolver(_) => "resolver"@,
        CapabilityId::StorageType(_) => "storage type"@,
        CapabilityId::Event(_) => "event"@,
        CapabilityId::EventStream(_) => "event_stream"@,
    }
}

impl CapabilityId {
    /// Returns the string identifier of this capability.
    pub fn as_str(&self) -> (r: &str)
        ensures
            r@ == id_of(*self),
    {
        match self {
            CapabilityId::Runner(n) | CapabilityId::Resolver(n) | CapabilityId::Event(n) => n.as_str(),
            CapabilityId::Service(p)
            | CapabilityId::Protocol(p)
            | CapabilityId::Directory(p)
            | CapabilityId::EventStream(p) => p.as_str(),
            CapabilityId::StorageType(s) => s.as_str(),
        }
    }

    /// Returns the human readable description of this capability's kind.
    pub fn type_str(&self) -> (r: &'static str)
        ensures
            r@ == kind_description(*self),
    {
        match self {
            CapabilityId::Service(_) => "service",
            CapabilityId::Protocol(_) => "protocol",
            CapabilityId::Directory(_) => "directory",
            CapabilityId::Runner(_) => "runner",
            CapabilityId::Resolver(_) => "resolver",
            CapabilityId::StorageType(_) => "storage type",
            CapabilityId::Event(_) => "event",
            CapabilityId::EventStream(_) => "event_stream",
        }
    }

    /// Returns the directory that contains the capability: a directory
    /// capability is its own directory, a service or protocol lives in the
    /// parent of its path, and other kinds have none.
    pub fn get_dir_path(&self) -> (r: Option<String>)
        ensures
            match *self {
                CapabilityId::Directory(p) => r is Some && r->0@ == p@,
                CapabilityId::Service(p) | CapabilityId::Protocol(p) => match r {
                    None => path_parent(p@) is None,
                    Some(s) => path_parent(p@) == Some(s@),
                },
                _ => r is None,
            },
    {
        match self {
            CapabilityId::Directory(p) => Some(p.clone()),
            CapabilityId::Service(p) | CapabilityId::Protocol(p) => parent_of_path(p.as_str()),
            _ => None,
        }
    }
}


/// The kind of a capability identifier, without the name or path it holds.
#[derive(Debug, PartialEq, Eq, Structural, Clone, Copy)]
pub enum IdKind {
    Service,
    Protocol,
    Directory,
    Runner,
    Resolver,
    StorageType,
    Event,
    EventStream,
}

/// The kind of a capability identifier.
pub open spec fn kind_of(c: CapabilityId) -> IdKind {
    match c {
        CapabilityId::Service(_) => IdKind::Service,
        CapabilityId::Protocol(_) => IdKind::Protocol,
        CapabilityId::Directory(_) => IdKind::Directory,
        CapabilityId::Runner(_) => IdKind::Runner,
        CapabilityId::Resolver(_) => IdKind::Resolver,
        CapabilityId::StorageType(_) => IdKind::StorageType,
        CapabilityId::Event(_) => IdKind::Event,
        CapabilityId::EventStream(_) => IdKind::EventStream,
    }
}

/// A capability identifier as a kind and the characters of its name or path.
pub open spec fn id_view(c: CapabilityId) -> (IdKind, Seq<char>) {
    (kind_of(c), id_of(c))
}

/// The path under which a component receives its event stream when the
/// clause that uses it gives no other.
pub const DEFAULT_EVENT_STREAM_PATH: &'static str = "/svc/fuchsia.sys2.EventStream";

/// Refusal of an alias for several protocols.
pub const AS_WITH_MANY_PROTOCOLS: &'static str =
    "\"as\" field can only be specified when one `protocol` is supplied.";

/// Refusal of an alias for several events.
pub const AS_WITH_MANY_EVENTS: &'static str =
    "\"as\" field can only be specified when one `event` is supplied";

/// Refusal of a filter for several events.
pub const FILTER_WITH_MANY_EVENTS: &'static str =
    "\"filter\" field can only be specified when one `event` is supplied";

/// Refusal of an alias and a filter for several events.
pub const AS_AND_FILTER_WITH_MANY_EVENTS: &'static str =
    "\"as\",\"filter\" fields can only be specified when one `event` is supplied";

/// A name or a path, as the `as` field of a clause holds either.
#[derive(Debug, PartialEq, Eq, Clone)]
pub enum NameOrPath {
    Name(String),
    Path(String),
}

/// One name or path, or a list of them.
#[derive(Debug, PartialEq, Eq, Clone)]
pub enum OneOrMany {
    One(String),
    Many(Vec<String>),
}

/// What a `use`, `offer` or `expose` clause of a component manifest says of
/// the capability it routes: the keyword that names it, the alias, the
/// events of the event stream it names and whether it carries a filter. `decl_type`
/// names the kind of clause and `supported` lists the capability keywords
/// that kind of clause accepts.
#[derive(Debug, Clone)]
pub struct CapabilityClause {
    pub decl_type: String,
    pub supported: Vec<String>,
    pub service: Option<String>,
    pub protocol: Option<OneOrMany>,
    pub directory: Option<String>,
    pub runner: Option<String>,
    pub resolver: Option<String>,
    pub event: Option<OneOrMany>,
    pub event_stream: Option<Vec<String>>,
    pub storage: Option<String>,
    pub alias: Option<NameOrPath>,
    pub filter: bool,
}

/// Why a component manifest is refused.
#[derive(Debug, PartialEq, Eq, Clone)]
pub enum ManifestError {
    /// The manifest breaks a rule; the message says which.
    Validate(String),
    /// An alias gives a path where a name is needed.
    ExpectedName,
    /// An alias gives a name where a path is needed.
    ExpectedPath,
    /// The request itself is wrong (such as a file that is no manifest).
    InvalidArgs(String),
}

/// The mathematical value of a `ManifestError`.
pub enum ManifestErrorView {
    Validate(Seq<char>),
    ExpectedName,
    ExpectedPath,
    InvalidArgs(Seq<char>),
}

impl View for ManifestError {
    type V = ManifestErrorView;

    open spec fn view(&self) -> ManifestErrorView {
        match self {
            ManifestError::Validate(m) => ManifestErrorView::Validate(m@),
            ManifestError::ExpectedName => ManifestErrorView::ExpectedName,
            ManifestError::ExpectedPath => ManifestErrorView::ExpectedPath,
            ManifestError::InvalidArgs(m) => ManifestErrorView::InvalidArgs(m@),
        }
    }
}

/// The path that an alias gives, or why it gives none.
pub open spec fn alias_as_path(a: NameOrPath) -> Result<Seq<char>, ManifestErrorView> {
    match a {
        NameOrPath::Path(p) => Ok(p@),
        NameOrPath::Name(_) => Err(ManifestErrorView::ExpectedPath),
    }
}

/// The name that an alias gives, or why it gives none.
pub open spec fn alias_as_name(a: NameOrPath) -> Result<Seq<char>, ManifestErrorView> {
    match a {
        NameOrPath::Name(n) => Ok(n@),
        NameOrPath::Path(_) => Err(ManifestErrorView::ExpectedName),
    }
}

/// The path a capability is known by: the alias where there is one, else `p`.
pub open spec fn alias_or_path(alias: Option<NameOrPath>, p: Seq<char>) -> Result<Seq<char>, ManifestErrorView> {
    match alias {
        None => Ok(p),
        Some(a) => alias_as_path(a),
    }
}

/// The name a capability is known by: the alias where there is one, else `n`.
pub open spec fn alias_or_name(alias: Option<NameOrPath>, n: Seq<char>) -> Result<Seq<char>, ManifestErrorView> {
    match alias {
        None => Ok(n),
        Some(a) => alias_as_name(a),
    }
}

/// A single identifier of kind `k` for the name or path `r`, if there is one.
pub open spec fn single_id(k: IdKind, r: Result<Seq<char>, ManifestErrorView>) -> Result<Seq<(IdKind, Seq<char>)>, ManifestErrorView> {
    match r {
        Ok(x) => Ok(seq![(k, x)]),
        Err(e) => Err(e),
    }
}

/// One identifier of kind `k` for each of `names`, in order.
pub open spec fn ids_of_kind(k: IdKind, names: Seq<String>) -> Seq<(IdKind, Seq<char>)> {
    names.map_values(|s: String| (k, s@))
}

/// The keywords `ks`, each in double quotes, separated by a comma and a space.
pub open spec fn quoted_list(ks: Seq<String>) -> Seq<char>
    decreases ks.len(),
{
    if ks.len() == 0 {
        Seq::empty()
    } else if ks.len() == 1 {
        "\""@ + ks[0]@ + "\""@
    } else {
        quoted_list(ks.drop_last()) + ", \""@ + ks.last()@ + "\""@
    }
}

/// The message for a clause of kind `decl` that names no capability keyword.
pub open spec fn missing_keyword_message(decl: Seq<char>, ks: Seq<String>) -> Seq<char> {
    "`"@ + decl + "` declaration is missing a capability keyword, one of: "@ + quoted_list(ks)
}

/// The identifiers a list of events gives, with the alias and the filter
/// that the clause holds.
pub open spec fn event_list_ids(alias: Option<NameOrPath>, filter: bool, events: Seq<String>) -> Result<Seq<(IdKind, Seq<char>)>, ManifestErrorView> {
    match alias {
        Some(a) => if events.len() == 1 {
            single_id(IdKind::Event, alias_as_name(a))
        } else if filter {
            Err(ManifestErrorView::Validate(AS_AND_FILTER_WITH_MANY_EVENTS@))
        } else {
            Err(ManifestErrorView::Validate(AS_WITH_MANY_EVENTS@))
        },
        None => if filter {
            if events.len() == 1 {
                Ok(seq![(IdKind::Event, events[0]@)])
            } else {
                Err(ManifestErrorView::Validate(FILTER_WITH_MANY_EVENTS@))
            }
        } else {
            Ok(ids_of_kind(IdKind::Event, events))
        },
    }
}

/// The target identifiers of a clause: the first capability keyword it
/// holds decides their kind; a single name or path is renamed by the alias,
/// and a list keeps its names.
pub open spec fn clause_ids(c: CapabilityClause) -> Result<Seq<(IdKind, Seq<char>)>, ManifestErrorView> {
    match c.service {
        Some(s) => single_id(IdKind::Service, alias_or_path(c.alias, s@)),
        None => match c.protocol {
            Some(OneOrMany::One(p)) => single_id(IdKind::Protocol, alias_or_path(c.alias, p@)),
            Some(OneOrMany::Many(ps)) => match c.alias {
                Some(a) => if ps@.len() == 1 {
                    single_id(IdKind::Protocol, alias_as_path(a))
                } else {
                    Err(ManifestErrorView::Validate(AS_WITH_MANY_PROTOCOLS@))
                },
                None => Ok(ids_of_kind(IdKind::Protocol, ps@)),
            },
            None => match c.directory {
                Some(d) => single_id(IdKind::Directory, alias_or_path(c.alias, d@)),
                None => match c.runner {
                    Some(n) => single_id(IdKind::Runner, alias_or_name(c.alias, n@)),
                    None => match c.resolver {
                        Some(n) => single_id(IdKind::Resolver, alias_or_name(c.alias, n@)),
                        None => match c.event {
                            Some(OneOrMany::One(n)) => single_id(IdKind::Event, alias_or_name(c.alias, n@)),
                            Some(OneOrMany::Many(ns)) => event_list_ids(c.alias, c.filter, ns@),
                            None => if c.event_stream is Some {
                                single_id(IdKind::EventStream, alias_or_path(c.alias, DEFAULT_EVENT_STREAM_PATH@))
                            } else {
                                match c.storage {
                                    Some(s) => Ok(seq![(IdKind::StorageType, s@)]),
                                    None => Err(ManifestErrorView::Validate(
                                        missing_keyword_message(c.decl_type@, c.supported@),
                                    )),
                                }
                            },
                        },
                    },
                },
            },
        },
    }
}

/// The views of a list of capability identifiers.
pub open spec fn ids_view(ids: Seq<CapabilityId>) -> Seq<(IdKind, Seq<char>)> {
    ids.map_values(|c: CapabilityId| id_view(c))
}

/// The view of a computed name or path, or of the reason there is none.
pub open spec fn str_result_view(r: Result<String, ManifestError>) -> Result<Seq<char>, ManifestErrorView> {
    match r {
        Ok(s) => Ok(s@),
        Err(e) => Err(e@),
    }
}

/// The view of computed identifiers, or of the reason there are none.
pub open spec fn ids_result_view(r: Result<Vec<CapabilityId>, ManifestError>) -> Result<Seq<(IdKind, Seq<char>)>, ManifestErrorView> {
    match r {
        Ok(ids) => Ok(ids_view(ids@)),
        Err(e) => Err(e@),
    }
}

/// Makes the identifier of kind `k` for the name or path `s`.
fn make_id(k: IdKind, s: String) -> (r: CapabilityId)
    ensures
        id_view(r) == (k, s@),
{
    match k {
        IdKind::Service => CapabilityId::Service(s),
        IdKind::Protocol => CapabilityId::Protocol(s),
        IdKind::Directory => CapabilityId::Directory(s),
        IdKind::Runner => CapabilityId::Runner(s),
        IdKind::Resolver => CapabilityId::Resolver(s),
        IdKind::StorageType => CapabilityId::StorageType(s),
        IdKind::Event => CapabilityId::Event(s),
        IdKind::EventStream => CapabilityId::EventStream(s),
    }
}

/// The single identifier of kind `k` for a computed name or path.
fn single(k: IdKind, r: Result<String, ManifestError>) -> (out: Result<Vec<CapabilityId>, ManifestError>)
    ensures
        ids_result_view(out) == single_id(k, str_result_view(r)),
{
    match r {
        Ok(s) => {
            let ghost sv = s@;
            let mut v: Vec<CapabilityId> = Vec::new();
            v.push(make_id(k, s));
            assert(ids_view(v@) =~= seq![(k, sv)]);
            Ok(v)
        },
        Err(e) => Err(e),
    }
}

/// The path a capability is known by: the alias where there is one, else `p`.
fn path_or_alias(alias: &Option<NameOrPath>, p: &str) -> (r: Result<String, ManifestError>)
    ensures
        str_result_view(r) == alias_or_path(*alias, p@),
{
    match alias {
        None => Ok(String::from_str(p)),
        Some(NameOrPath::Path(a)) => Ok(a.clone()),
        Some(NameOrPath::Name(_)) => Err(ManifestError::ExpectedPath),
    }
}

/// The name a capability is known by: the alias where there is one, else `n`.
pub(crate) fn name_or_alias(alias: &Option<NameOrPath>, n: &str) -> (r: Result<String, ManifestError>)
    ensures
        str_result_view(r) == alias_or_name(*alias, n@),
{
    match alias {
        None => Ok(String::from_str(n)),
        Some(NameOrPath::Name(a)) => Ok(a.clone()),
        Some(NameOrPath::Path(_)) => Err(ManifestError::ExpectedName),
    }
}

/// One identifier of kind `k` for each of `names`, in order.
fn all_of_kind(k: IdKind, names: &Vec<String>) -> (r: Vec<CapabilityId>)
    ensures
        ids_view(r@) == ids_of_kind(k, names@),
{
    let mut out: Vec<CapabilityId> = Vec::new();
    let mut i: usize = 0;
    while i < names.len()
        invariant
            i <= names.len(),
            out@.len() == i,
            ids_view(out@) =~= ids_of_kind(k, names@.take(i as int)),
        decreases names.len() - i,
    {
        let ghost prev = out@;
        let id = make_id(k, names[i].clone());
        out.push(id);
        proof {
            let want = ids_of_kind(k, names@.take(i + 1));
            assert(ids_view(prev) =~= ids_of_kind(k, names@.take(i as int)));
            assert forall|j: int| 0 <= j < i + 1 implies ids_view(out@)[j] == want[j] by {
                if j < i {
                    assert(out@[j] == prev[j]);
                    assert(ids_view(prev)[j] == ids_of_kind(k, names@.take(i as int))[j]);
                } else {
                    assert(out@[j] == id);
                }
            }
            assert(ids_view(out@) =~= want);
        }
        i = i + 1;
    }
    assert(names@.take(names.len() as int) =~= names@);
    out
}

/// The keywords `ks`, each in double quotes, separated by a comma and a space.
fn quoted_keywords(ks: &Vec<String>) -> (r: String)
    ensures
        r@ == quoted_list(ks@),
{
    let mut out = String::new();
    let mut i: usize = 0;
    while i < ks.len()
        invariant
            i <= ks.len(),
            out@ == quoted_list(ks@.take(i as int)),
        decreases ks.len() - i,
    {
        let ghost before = out@;
        if i > 0 {
            out.append(", \"");
        } else {
            out.append("\"");
        }
        out.append(ks[i].as_str());
        out.append("\"");
        proof {
            let t = ks@.take(i + 1);
            assert(t.drop_last() =~= ks@.take(i as int));
            assert(t.last() == ks@[i as int]);
            if i == 0 {
                assert(before =~= Seq::<char>::empty());
                assert(out@ =~= "\""@ + t[0]@ + "\""@);
            } else {
                assert(out@ =~= quoted_list(t.drop_last()) + ", \""@ + t.last()@ + "\""@);
            }
        }
        i = i + 1;
    }
    assert(ks@.take(ks.len() as int) =~= ks@);
    out
}

/// The identifiers a list of events gives, with the alias and the filter
/// that the clause holds.
fn event_list(alias: &Option<NameOrPath>, filter: bool, events: &Vec<String>) -> (r: Result<Vec<CapabilityId>, ManifestError>)
    ensures
        ids_result_view(r) == event_list_ids(*alias, filter, events@),
{
    match alias {
        Some(a) => {
            if events.len() == 1 {
                let name = match a {
                    NameOrPath::Name(n) => Ok(n.clone()),
                    NameOrPath::Path(_) => Err(ManifestError::ExpectedName),
                };
                single(IdKind::Event, name)
            } else if filter {
                Err(ManifestError::Validate(String::from_str(AS_AND_FILTER_WITH_MANY_EVENTS)))
            } else {
                Err(ManifestError::Validate(String::from_str(AS_WITH_MANY_EVENTS)))
            }
        },
        None => {
            if filter {
                if events.len() == 1 {
                    single(IdKind::Event, Ok(events[0].clone()))
                } else {
                    Err(ManifestError::Validate(String::from_str(FILTER_WITH_MANY_EVENTS)))
                }
            } else {
                Ok(all_of_kind(IdKind::Event, events))
            }
        },
    }
}

impl CapabilityId {
    /// Returns the target identifiers of a `use`, `offer` or `expose` clause.
    ///
    /// The first capability keyword that the clause holds, in the order
    /// service, protocol, directory, runner, resolver, event, event stream,
    /// storage, decides the kind. A single name or path is renamed by the
    /// clause's alias (`as`); a list keeps its own names, and an alias or a
    /// filter is refused beside a list of more than one. A clause with no
    /// keyword is refused with a message that lists the keywords it may use.
    pub fn from_clause(clause: &CapabilityClause) -> (r: Result<Vec<CapabilityId>, ManifestError>)
        ensures
            ids_result_view(r) == clause_ids(*clause),
    {
        let alias = &clause.alias;
        if let Some(svc) = &clause.service {
            return single(IdKind::Service, path_or_alias(alias, svc.as_str()));
        }
        match &clause.protocol {
            Some(OneOrMany::One(p)) => {
                return single(IdKind::Protocol, path_or_alias(alias, p.as_str()));
            },
            Some(OneOrMany::Many(ps)) => {
                return match alias {
                    Some(a) => {
                        if ps.len() == 1 {
                            let path = match a {
                                NameOrPath::Path(p) => Ok(p.clone()),
                                NameOrPath::Name(_) => Err(ManifestError::ExpectedPath),
                            };
                            single(IdKind::Protocol, path)
                        } else {
                            Err(ManifestError::Validate(String::from_str(AS_WITH_MANY_PROTOCOLS)))
                        }
                    },
                    None => Ok(all_of_kind(IdKind::Protocol, ps)),
                };
            },
            None => {},
        }
        if let Some(d) = &clause.directory {
            return single(IdKind::Directory, path_or_alias(alias, d.as_str()));
        }
        if let Some(n) = &clause.runner {
            return single(IdKind::Runner, name_or_alias(alias, n.as_str()));
        }
        if let Some(n) = &clause.resolver {
            return single(IdKind::Resolver, name_or_alias(alias, n.as_str()));
        }
        match &clause.event {
            Some(OneOrMany::One(n)) => {
                return single(IdKind::Event, name_or_alias(alias, n.as_str()));
            },
            Some(OneOrMany::Many(ns)) => {
                return event_list(alias, clause.filter, ns);
            },
            None => {},
        }
        if clause.event_stream.is_some() {
            return single(IdKind::EventStream, path_or_alias(alias, DEFAULT_EVENT_STREAM_PATH));
        }
        if let Some(st) = &clause.storage {
            return single(IdKind::StorageType, Ok(st.clone()));
        }
        let mut msg = String::from_str("`");
        msg.append(clause.decl_type.as_str());
        msg.append("` declaration is missing a capability keyword, one of: ");
        let keywords = quoted_keywords(&clause.supported);
        msg.append(keywords.as_str());
        Err(ManifestError::Validate(msg))
    }
}

/// The characters of each of `vs`.
pub open spec fn strs_view(vs: Seq<String>) -> Seq<Seq<char>> {
    vs.map_values(|s: String| s@)
}

/// The characters of each pair of `vs`.
pub open spec fn pairs_view(vs: Seq<(String, String)>) -> Seq<(Seq<char>, Seq<char>)> {
    vs.map_values(|p: (String, String)| (p.0@, p.1@))
}

/// The name most recently given, among the first `k` entries of `vs`, to
/// the key `key`.
pub open spec fn name_before(vs: Seq<(Seq<char>, Seq<char>)>, key: Seq<char>, k: int) -> Option<Seq<char>>
    decreases k,
{
    if k <= 0 {
        None
    } else if vs[k - 1].0 == key {
        Some(vs[k - 1].1)
    } else {
        name_before(vs, key, k - 1)
    }
}

/// The message for a key defined under `name` and, earlier, under `previous`.
pub open spec fn defined_twice_message(key: Seq<char>, name: Seq<char>, previous: Seq<char>) -> Seq<char> {
    "identifier \""@ + key + "\" is defined twice, once in \""@ + name + "\" and once in \""@ + previous
        + "\""@
}

/// The refusal for the first of the first `n` entries of `vs` whose key an
/// earlier entry already has, if there is one.
pub open spec fn duplicate_name_message(vs: Seq<(Seq<char>, Seq<char>)>, n: int) -> Option<Seq<char>>
    decreases n,
{
    if n <= 0 {
        None
    } else {
        match duplicate_name_message(vs, n - 1) {
            Some(m) => Some(m),
            None => match name_before(vs, vs[n - 1].0, n - 1) {
                Some(previous) => Some(defined_twice_message(vs[n - 1].0, vs[n - 1].1, previous)),
                None => None,
            },
        }
    }
}

/// Once a duplicate key is found among the first `n` entries, looking at
/// more entries finds the same one.
pub proof fn lemma_duplicate_name_stays(vs: Seq<(Seq<char>, Seq<char>)>, n: int, k: int)
    requires
        n <= k,
        duplicate_name_message(vs, n) is Some,
    ensures
        duplicate_name_message(vs, k) == duplicate_name_message(vs, n),
    decreases k - n,
{
    if n < k {
        lemma_duplicate_name_stays(vs, n, k - 1);
    }
}

/// Checks that no key occurs twice among `(key, name)` entries, where the
/// name says in which part of a manifest the key was declared. The first
/// entry whose key was seen before is refused, naming it, its part and the
/// part of the latest earlier entry with that key.
pub fn ensure_no_duplicate_names(values: &Vec<(String, String)>) -> (r: Result<(), ManifestError>)
    ensures
        match duplicate_name_message(pairs_view(values@), values@.len() as int) {
            None => r is Ok,
            Some(m) => r matches Err(ManifestError::Validate(e)) && e@ == m,
        },
{
    let mut j: usize = 0;
    while j < values.len()
        invariant
            j <= values.len(),
            duplicate_name_message(pairs_view(values@), j as int) is None,
        decreases values.len() - j,
    {
        let key = &values[j].0;
        let mut i: usize = j;
        while i > 0
            invariant
                i <= j < values.len(),
                duplicate_name_message(pairs_view(values@), j as int) is None,
                key == values@[j as int].0,
                name_before(pairs_view(values@), key@, j as int) == name_before(pairs_view(values@), key@, i as int),
            decreases i,
        {
            i = i - 1;
            if values[i].0 == *key {
                let mut msg = String::from_str("identifier \"");
                msg.append(key.as_str());
                msg.append("\" is defined twice, once in \"");
                msg.append(values[j].1.as_str());
                msg.append("\" and once in \"");
                msg.append(values[i].1.as_str());
                msg.append("\"");
                assert(msg@ =~= defined_twice_message(key@, values@[j as int].1@, values@[i as int].1@));
                proof {
                    assert(name_before(pairs_view(values@), key@, i + 1) == Some(values@[i as int].1@));
                    assert(duplicate_name_message(pairs_view(values@), j + 1) == Some(msg@));
                    lemma_duplicate_name_stays(pairs_view(values@), j + 1, values@.len() as int);
                }
                return Err(ManifestError::Validate(msg));
            }
        }
        j = j + 1;
    }
    Ok(())
}

/// Whether the value `v` is among the first `k` entries of `vs`.
pub open spec fn seen_before(vs: Seq<Seq<char>>, v: Seq<char>, k: int) -> bool
    decreases k,
{
    if k <= 0 {
        false
    } else {
        vs[k - 1] == v || seen_before(vs, v, k - 1)
    }
}

/// The first of the first `n` entries of `vs` that an earlier entry equals,
/// if there is one.
pub open spec fn first_duplicate_value(vs: Seq<Seq<char>>, n: int) -> Option<Seq<char>>
    decreases n,
{
    if n <= 0 {
        None
    } else {
        match first_duplicate_value(vs, n - 1) {
            Some(v) => Some(v),
            None => if seen_before(vs, vs[n - 1], n - 1) {
                Some(vs[n - 1])
            } else {
                None
            },
        }
    }
}

/// Once a duplicate is found among the first `n` entries, looking at more
/// entries finds the same one.
pub proof fn lemma_duplicate_value_stays(vs: Seq<Seq<char>>, n: int, k: int)
    requires
        n <= k,
        first_duplicate_value(vs, n) is Some,
    ensures
        first_duplicate_value(vs, k) == first_duplicate_value(vs, n),
    decreases k - n,
{
    if n < k {
        lemma_duplicate_value_stays(vs, n, k - 1);
    }
}

/// The message for a value that occurs twice in a list.
pub open spec fn duplicate_value_message(v: Seq<char>) -> Seq<char> {
    "Found duplicate value \""@ + v + "\" in array."@
}

/// Checks that no value occurs twice in `values`; the first value that was
/// seen before is refused by name.
pub fn ensure_no_duplicate_values(values: &Vec<String>) -> (r: Result<(), ManifestError>)
    ensures
        match first_duplicate_value(strs_view(values@), values@.len() as int) {
            None => r is Ok,
            Some(v) => r matches Err(ManifestError::Validate(e)) && e@ == duplicate_value_message(v),
        },
{
    let mut j: usize = 0;
    while j < values.len()
        invariant
            j <= values.len(),
            first_duplicate_value(strs_view(values@), j as int) is None,
        decreases values.len() - j,
    {
        let mut i: usize = j;
        while i > 0
            invariant
                i <= j < values.len(),
                first_duplicate_value(strs_view(values@), j as int) is None,
                seen_before(strs_view(values@), values@[j as int]@, j as int) == seen_before(strs_view(values@), values@[j as int]@, i as int),
            decreases i,
        {
            i = i - 1;
            if values[i] == values[j] {
                let mut msg = String::from_str("Found duplicate value \"");
                msg.append(values[j].as_str());
                msg.append("\" in array.");
                assert(msg@ =~= duplicate_value_message(values@[j as int]@));
                proof {
                    assert(seen_before(strs_view(values@), values@[j as int]@, i + 1));
                    assert(first_duplicate_value(strs_view(values@), j + 1) == Some(values@[j as int]@));
                    lemma_duplicate_value_stays(strs_view(values@), j + 1, values@.len() as int);
                }
                return Err(ManifestError::Validate(msg));
            }
        }
        j = j + 1;
    }
    Ok(())
}

/// A node of the graph of strong dependencies between the children and
/// environments of a component.
#[derive(Debug, PartialEq, Eq, Hash, Clone)]
pub enum DependencyNode {
    Child(String),
    Environment(String),
}

impl DependencyNode {
    /// Describes the node: `child` or `environment`, a space, and its name.
    pub fn describe(&self) -> (r: String)
        ensures
            r@ == match *self {
                DependencyNode::Child(n) => "child "@ + n@,
                DependencyNode::Environment(n) => "environment "@ + n@,
            },
    {
        match self {
            DependencyNode::Child(n) => {
                let mut s = String::from_str("child ");
                s.append(n.as_str());
                s
            },
            DependencyNode::Environment(n) => {
                let mut s = String::from_str("environment ");
                s.append(n.as_str());
                s
            },
        }
    }
}


/// A clause whose first keyword names one capability by path (a service, a
/// single protocol or a directory) and that renames it with a path alias
/// gives exactly one identifier of that kind, and it carries the alias.
pub proof fn law_path_alias_renames(c: CapabilityClause, p: String, a: String)
    requires
        c.alias == Some(NameOrPath::Path(a)),
    ensures
        c.service == Some(p) ==> clause_ids(c) == Ok::<Seq<(IdKind, Seq<char>)>, ManifestErrorView>(
            seq![(IdKind::Service, a@)],
        ),
        c.service is None && c.protocol == Some(OneOrMany::One(p)) ==> clause_ids(c) == Ok::<
            Seq<(IdKind, Seq<char>)>,
            ManifestErrorView,
        >(seq![(IdKind::Protocol, a@)]),
        c.service is None && c.protocol is None && c.directory == Some(p) ==> clause_ids(c) == Ok::<
            Seq<(IdKind, Seq<char>)>,
            ManifestErrorView,
        >(seq![(IdKind::Directory, a@)]),
{
}

/// Without an alias, a clause whose first keyword names one capability by
/// path gives exactly one identifier of that kind, carrying that path.
pub proof fn law_unaliased_keeps_path(c: CapabilityClause, p: String)
    requires
        c.alias is None,
    ensures
        c.service == Some(p) ==> clause_ids(c) == Ok::<Seq<(IdKind, Seq<char>)>, ManifestErrorView>(
            seq![(IdKind::Service, p@)],
        ),
        c.service is None && c.protocol == Some(OneOrMany::One(p)) ==> clause_ids(c) == Ok::<
            Seq<(IdKind, Seq<char>)>,
            ManifestErrorView,
        >(seq![(IdKind::Protocol, p@)]),
        c.service is None && c.protocol is None && c.directory == Some(p) ==> clause_ids(c) == Ok::<
            Seq<(IdKind, Seq<char>)>,
            ManifestErrorView,
        >(seq![(IdKind::Directory, p@)]),
{
}

/// A clause whose first keyword names one capability by name (a runner, a
/// resolver or a single event) and that renames it with a name alias gives
/// exactly one identifier of that kind, and it carries the alias.
pub proof fn law_name_alias_renames(c: CapabilityClause, n: String, a: String)
    requires
        c.alias == Some(NameOrPath::Name(a)),
        c.service is None,
        c.protocol is None,
        c.directory is None,
    ensures
        c.runner == Some(n) ==> clause_ids(c) == Ok::<Seq<(IdKind, Seq<char>)>, ManifestErrorView>(
            seq![(IdKind::Runner, a@)],
        ),
        c.runner is None && c.resolver == Some(n) ==> clause_ids(c) == Ok::<
            Seq<(IdKind, Seq<char>)>,
            ManifestErrorView,
        >(seq![(IdKind::Resolver, a@)]),
        c.runner is None && c.resolver is None && c.event == Some(OneOrMany::One(n)) ==> clause_ids(c)
            == Ok::<Seq<(IdKind, Seq<char>)>, ManifestErrorView>(seq![(IdKind::Event, a@)]),
{
}

} // verus!
