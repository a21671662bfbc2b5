use vstd::prelude::*;
use vstd::string::StringExecFns;
use super::graph::{
    cycles_text, cycles_view, edges_view, find_cycles, format_cycles, is_acyclic, is_cycle, node_view,
    nodes_view, strong_dependencies_acyclic,
};
use super::validate::{
    name_or_alias, str_result_view,
    id_of, kind_of,
    alias_or_name, clause_ids, ensure_no_duplicate_names, ensure_no_duplicate_values, id_view,
    ids_view, path_parent, pairs_view, strs_view, duplicate_name_message,
    first_duplicate_value, duplicate_value_message, CapabilityClause, CapabilityId, DependencyNode,
    IdKind, ManifestError, ManifestErrorView, OneOrMany,
};

verus! {

/// A reference to where a capability comes from: a named child (or storage
/// declaration), the parent realm, the framework, or the component itself.
#[derive(Debug, Clone, PartialEq, Eq)]
pub enum Ref {
    Named(String),
    Realm,
    Framework,
    Self_,
}

/// How a reference is written in a manifest.
pub open spec fn ref_text(r: Ref) -> Seq<char> {
    match r {
        Ref::Named(n) => "#"@ + n@,
        Ref::Realm => "realm"@,
        Ref::Framework => "framework"@,
        Ref::Self_ => "self"@,
    }
}

/// Writes a reference as a manifest does.
pub fn ref_display(r: &Ref) -> (s: String)
    ensures
        s@ == ref_text(*r),
{
    match r {
        Ref::Named(n) => {
            let mut s = String::from_str("#");
            s.append(n.as_str());
            s
        },
        Ref::Realm => String::from_str("realm"),
        Ref::Framework => String::from_str("framework"),
        Ref::Self_ => String::from_str("self"),
    }
}

/// One reference, or a list of them.
#[derive(Debug, Clone, PartialEq, Eq)]
pub enum Refs {
    One(Ref),
    Many(Vec<Ref>),
}

/// The references of `r`, in order.
pub open spec fn refs_seq(r: Refs) -> Seq<Ref> {
    match r {
        Refs::One(x) => seq![x],
        Refs::Many(v) => v@,
    }
}

/// Whether one of the references is the component itself.
pub open spec fn any_self(r: Refs) -> bool {
    exists|i: int| 0 <= i < refs_seq(r).len() && (#[trigger] refs_seq(r)[i]) is Self_
}

/// The number of references in `r`.
fn refs_len(r: &Refs) -> (n: usize)
    ensures
        n == refs_seq(*r).len(),
{
    match r {
        Refs::One(_) => 1,
        Refs::Many(v) => v.len(),
    }
}

/// The reference at position `i` of `r`.
fn refs_get(r: &Refs, i: usize) -> (x: &Ref)
    requires
        i < refs_seq(*r).len(),
    ensures
        *x == refs_seq(*r)[i as int],
{
    match r {
        Refs::One(x) => x,
        Refs::Many(v) => &v[i],
    }
}

/// Whether one of the references is the component itself.
fn refs_any_self(r: &Refs) -> (b: bool)
    ensures
        b == any_self(*r),
{
    let n = refs_len(r);
    let mut i: usize = 0;
    while i < n
        invariant
            n == refs_seq(*r).len(),
            i <= n,
            forall|j: int| 0 <= j < i ==> !(refs_seq(*r)[j] is Self_),
        decreases n - i,
    {
        if matches!(refs_get(r, i), Ref::Self_) {
            return true;
        }
        i = i + 1;
    }
    false
}

/// A child component: its name and the environment it runs in, if named.
#[derive(Debug, Clone)]
pub struct Child {
    pub name: String,
    pub environment: Option<String>,
}

/// A collection of dynamic children: its name and environment, if named.
#[derive(Debug, Clone)]
pub struct Collection {
    pub name: String,
    pub environment: Option<String>,
}

/// A storage declaration: its name and where its backing directory comes from.
#[derive(Debug, Clone)]
pub struct Storage {
    pub name: String,
    pub from: Ref,
}

/// A runner declaration: its name and where it comes from.
#[derive(Debug, Clone)]
pub struct Runner {
    pub name: String,
    pub from: Ref,
}

/// A resolver declaration: its name and where it comes from.
#[derive(Debug, Clone)]
pub struct Resolver {
    pub name: String,
    pub from: Ref,
}

/// A token of a rights clause, as written, with the rights it stands for.
#[derive(Debug, Clone)]
pub struct RightToken {
    pub token: String,
    pub rights: Vec<String>,
}

/// A `use` clause: the capability, where it comes from, and its rights.
#[derive(Debug, Clone)]
pub struct Use {
    pub clause: CapabilityClause,
    pub from: Option<Ref>,
    pub rights: Option<Vec<RightToken>>,
}

/// Where an `expose` clause sends a capability.
#[derive(Debug, Clone, Copy, PartialEq, Eq, Structural)]
pub enum ExposeTo {
    Realm,
    Framework,
}

/// How an `expose` target is written in a manifest.
pub open spec fn expose_to_text(t: ExposeTo) -> Seq<char> {
    match t {
        ExposeTo::Realm => "realm"@,
        ExposeTo::Framework => "framework"@,
    }
}

/// An `expose` clause: the capability, its sources, its target, its rights
/// and the subdirectory it exposes, if any.
#[derive(Debug, Clone)]
pub struct Expose {
    pub clause: CapabilityClause,
    pub from: Refs,
    pub to: Option<ExposeTo>,
    pub rights: Option<Vec<RightToken>>,
    pub subdir: Option<String>,
}

/// Whether a target depends on the source of an offer strongly or weakly.
#[derive(Debug, Clone, Copy, PartialEq, Eq, Structural)]
pub enum Dependency {
    Strong,
    WeakForMigration,
}

/// An `offer` clause: the capability, its sources, the children or
/// collections it goes to, its rights and the kind of dependency.
#[derive(Debug, Clone)]
pub struct Offer {
    pub clause: CapabilityClause,
    pub from: Refs,
    pub to: Vec<String>,
    pub rights: Option<Vec<RightToken>>,
    pub dependency: Option<Dependency>,
}

/// What an environment extends: the realm's environment, or nothing.
#[derive(Debug, Clone, Copy, PartialEq, Eq, Structural)]
pub enum Extends {
    Realm,
    Nothing,
}

/// A runner made available in an environment, under its alias if it has one.
#[derive(Debug, Clone)]
pub struct RunnerRegistration {
    pub runner: String,
    pub from: Ref,
    pub alias: Option<String>,
}

/// A resolver registered in an environment for a URL scheme.
#[derive(Debug, Clone)]
pub struct ResolverRegistration {
    pub resolver: String,
    pub scheme: String,
    pub from: Ref,
}

/// An environment declaration.
#[derive(Debug, Clone)]
pub struct Environment {
    pub name: String,
    pub extends: Option<Extends>,
    pub stop_timeout_ms: Option<u32>,
    pub runners: Vec<RunnerRegistration>,
    pub resolvers: Vec<ResolverRegistration>,
}

/// A component manifest: whether it has a program, and its declarations.
#[derive(Debug, Clone)]
pub struct Document {
    pub program: bool,
    pub uses: Vec<Use>,
    pub exposes: Vec<Expose>,
    pub offers: Vec<Offer>,
    pub children: Vec<Child>,
    pub collections: Vec<Collection>,
    pub storage: Vec<Storage>,
    pub runners: Vec<Runner>,
    pub resolvers: Vec<Resolver>,
    pub environments: Vec<Environment>,
}

/// Whether the manifest declares a child called `n`.
pub open spec fn has_child(doc: Document, n: Seq<char>) -> bool {
    exists|i: int| 0 <= i < doc.children@.len() && (#[trigger] doc.children@[i]).name@ == n
}

/// Whether the manifest declares a child called `n`.
fn find_child(doc: &Document, n: &String) -> (r: bool)
    ensures
        r == has_child(*doc, n@),
{
    let mut i: usize = 0;
    while i < doc.children.len()
        invariant
            i <= doc.children@.len(),
            forall|j: int| 0 <= j < i ==> (#[trigger] doc.children@[j]).name@ != n@,
        decreases doc.children@.len() - i,
    {
        if doc.children[i].name == *n {
            assert(doc.children@[i as int].name@ == n@);
            return true;
        }
        i = i + 1;
    }
    false
}

/// Whether the manifest declares a collection called `n`.
pub open spec fn has_collection(doc: Document, n: Seq<char>) -> bool {
    exists|i: int| 0 <= i < doc.collections@.len() && (#[trigger] doc.collections@[i]).name@ == n
}

/// Whether the manifest declares a collection called `n`.
fn find_collection(doc: &Document, n: &String) -> (r: bool)
    ensures
        r == has_collection(*doc, n@),
{
    let mut i: usize = 0;
    while i < doc.collections.len()
        invariant
            i <= doc.collections@.len(),
            forall|j: int| 0 <= j < i ==> (#[trigger] doc.collections@[j]).name@ != n@,
        decreases doc.collections@.len() - i,
    {
        if doc.collections[i].name == *n {
            assert(doc.collections@[i as int].name@ == n@);
            return true;
        }
        i = i + 1;
    }
    false
}

/// Whether the manifest declares a storage declaration called `n`.
pub open spec fn has_storage(doc: Document, n: Seq<char>) -> bool {
    exists|i: int| 0 <= i < doc.storage@.len() && (#[trigger] doc.storage@[i]).name@ == n
}

/// Whether the manifest declares a storage declaration called `n`.
fn find_storage(doc: &Document, n: &String) -> (r: bool)
    ensures
        r == has_storage(*doc, n@),
{
    let mut i: usize = 0;
    while i < doc.storage.len()
        invariant
            i <= doc.storage@.len(),
            forall|j: int| 0 <= j < i ==> (#[trigger] doc.storage@[j]).name@ != n@,
        decreases doc.storage@.len() - i,
    {
        if doc.storage[i].name == *n {
            assert(doc.storage@[i as int].name@ == n@);
            return true;
        }
        i = i + 1;
    }
    false
}

/// Whether the manifest declares a runner called `n`.
pub open spec fn has_runner(doc: Document, n: Seq<char>) -> bool {
    exists|i: int| 0 <= i < doc.runners@.len() && (#[trigger] doc.runners@[i]).name@ == n
}

/// Whether the manifest declares a runner called `n`.
fn find_runner(doc: &Document, n: &String) -> (r: bool)
    ensures
        r == has_runner(*doc, n@),
{
    let mut i: usize = 0;
    while i < doc.runners.len()
        invariant
            i <= doc.runners@.len(),
            forall|j: int| 0 <= j < i ==> (#[trigger] doc.runners@[j]).name@ != n@,
        decreases doc.runners@.len() - i,
    {
        if doc.runners[i].name == *n {
            assert(doc.runners@[i as int].name@ == n@);
            return true;
        }
        i = i + 1;
    }
    false
}

/// Whether the manifest declares a resolver called `n`.
pub open spec fn has_resolver(doc: Document, n: Seq<char>) -> bool {
    exists|i: int| 0 <= i < doc.resolvers@.len() && (#[trigger] doc.resolvers@[i]).name@ == n
}

/// Whether the manifest declares a resolver called `n`.
fn find_resolver(doc: &Document, n: &String) -> (r: bool)
    ensures
        r == has_resolver(*doc, n@),
{
    let mut i: usize = 0;
    while i < doc.resolvers.len()
        invariant
            i <= doc.resolvers@.len(),
            forall|j: int| 0 <= j < i ==> (#[trigger] doc.resolvers@[j]).name@ != n@,
        decreases doc.resolvers@.len() - i,
    {
        if doc.resolvers[i].name == *n {
            assert(doc.resolvers@[i as int].name@ == n@);
            return true;
        }
        i = i + 1;
    }
    false
}

/// Whether the manifest declares an environment called `n`.
pub open spec fn has_environment(doc: Document, n: Seq<char>) -> bool {
    exists|i: int| 0 <= i < doc.environments@.len() && (#[trigger] doc.environments@[i]).name@ == n
}

/// Whether the manifest declares an environment called `n`.
fn find_environment(doc: &Document, n: &String) -> (r: bool)
    ensures
        r == has_environment(*doc, n@),
{
    let mut i: usize = 0;
    while i < doc.environments.len()
        invariant
            i <= doc.environments@.len(),
            forall|j: int| 0 <= j < i ==> (#[trigger] doc.environments@[j]).name@ != n@,
        decreases doc.environments@.len() - i,
    {
        if doc.environments[i].name == *n {
            assert(doc.environments@[i as int].name@ == n@);
            return true;
        }
        i = i + 1;
    }
    false
}

/// A refusal with the message `m`.
pub open spec fn verr(m: Seq<char>) -> Option<ManifestErrorView> {
    Some(ManifestErrorView::Validate(m))
}

/// The refusal a check gave, if any.
pub open spec fn check_view(r: Result<(), ManifestError>) -> Option<ManifestErrorView> {
    match r {
        Ok(_) => None,
        Err(e) => Some(e@),
    }
}

/// What a component manifest is validated against: the manifest, and the
/// names of the events that its `use` clauses use.
pub struct ValidationContext<'a> {
    pub document: &'a Document,
    pub event_names: Vec<String>,
}

/// The refusal for a reference, described by `desc`, to a child that the
/// manifest does not declare.
pub open spec fn component_ref_check(doc: Document, desc: Seq<char>, r: Ref) -> Option<ManifestErrorView> {
    match r {
        Ref::Named(n) => if has_child(doc, n@) {
            None
        } else {
            verr(desc + " \""@ + ref_text(r) + "\" does not appear in \"children\""@)
        },
        _ => None,
    }
}

/// The refusal for a reference, described by `desc`, to a storage
/// declaration that the manifest does not hold.
pub open spec fn storage_ref_check(doc: Document, desc: Seq<char>, r: Ref) -> Option<ManifestErrorView> {
    match r {
        Ref::Named(n) => if has_storage(doc, n@) {
            None
        } else {
            verr(desc + " \""@ + ref_text(r) + "\" does not appear in \"storage\""@)
        },
        _ => None,
    }
}

/// Whether a right of `rs`, from position `k` on, occurs in `prev` or
/// earlier in `rs`.
pub open spec fn repeats_from(prev: Seq<Seq<char>>, rs: Seq<String>, k: int) -> bool
    decreases rs.len() - k,
{
    if k < 0 || k >= rs.len() {
        false
    } else {
        prev.contains(rs[k]@) || repeats_from(prev.push(rs[k]@), rs, k + 1)
    }
}

/// The rights of the first `t` tokens, in order.
pub open spec fn flat_rights(ts: Seq<RightToken>, t: int) -> Seq<Seq<char>>
    decreases t,
{
    if t <= 0 {
        Seq::empty()
    } else {
        flat_rights(ts, t - 1) + strs_view(ts[t - 1].rights@)
    }
}

/// The refusal for the first token, from position `t` on, that repeats a
/// right given before it.
pub open spec fn rights_check_from(ts: Seq<RightToken>, t: int) -> Option<ManifestErrorView>
    decreases ts.len() - t,
{
    if t < 0 || t >= ts.len() {
        None
    } else if repeats_from(flat_rights(ts, t), ts[t].rights@, 0) {
        verr("\""@ + ts[t].token@ + "\" is duplicated in the rights clause."@)
    } else {
        rights_check_from(ts, t + 1)
    }
}

/// The refusal for an environment reference to an environment that the
/// manifest does not declare.
pub open spec fn environment_ref_check(doc: Document, env: Option<String>) -> Option<ManifestErrorView> {
    match env {
        Some(e) => if has_environment(doc, e@) {
            None
        } else {
            verr("\""@ + e@ + "\" does not appear in \"environments\""@)
        },
        None => None,
    }
}

/// Whether `x` is among `v`.
fn contains_str(v: &Vec<String>, x: &String) -> (r: bool)
    ensures
        r == strs_view(v@).contains(x@),
{
    let mut i: usize = 0;
    while i < v.len()
        invariant
            i <= v@.len(),
            forall|j: int| 0 <= j < i ==> v@[j]@ != x@,
        decreases v@.len() - i,
    {
        if v[i] == *x {
            assert(strs_view(v@)[i as int] == x@);
            return true;
        }
        i = i + 1;
    }
    proof {
        if strs_view(v@).contains(x@) {
            let j = choose|j: int| 0 <= j < strs_view(v@).len() && strs_view(v@)[j] == x@;
            assert(v@[j]@ == x@);
        }
    }
    false
}

impl<'a> ValidationContext<'a> {
    /// Checks that a reference to a child names a child of the manifest;
    /// `desc` says what refers to it.
    pub fn validate_component_ref(&self, desc: &str, r: &Ref) -> (res: Result<(), ManifestError>)
        ensures
            check_view(res) == component_ref_check(*self.document, desc@, *r),
    {
        if let Ref::Named(n) = r {
            if !find_child(self.document, n) {
                let mut m = String::from_str(desc);
                m.append(" \"");
                let t = ref_display(r);
                m.append(t.as_str());
                m.append("\" does not appear in \"children\"");
                return Err(ManifestError::Validate(m));
            }
        }
        Ok(())
    }

    /// Checks that a reference to storage names a storage declaration of the
    /// manifest; `desc` says what refers to it.
    pub fn validate_storage_ref(&self, desc: &str, r: &Ref) -> (res: Result<(), ManifestError>)
        ensures
            check_view(res) == storage_ref_check(*self.document, desc@, *r),
    {
        if let Ref::Named(n) = r {
            if !find_storage(self.document, n) {
                let mut m = String::from_str(desc);
                m.append(" \"");
                let t = ref_display(r);
                m.append(t.as_str());
                m.append("\" does not appear in \"storage\"");
                return Err(ManifestError::Validate(m));
            }
        }
        Ok(())
    }

    /// Checks that no right is given twice in a rights clause; the first
    /// token that repeats a right is refused.
    pub fn validate_directory_rights(&self, ts: &Vec<RightToken>) -> (res: Result<(), ManifestError>)
        ensures
            check_view(res) == rights_check_from(ts@, 0),
    {
        let mut seen: Vec<String> = Vec::new();
        let mut t: usize = 0;
        while t < ts.len()
            invariant
                t <= ts@.len(),
                strs_view(seen@) == flat_rights(ts@, t as int),
                rights_check_from(ts@, 0) == rights_check_from(ts@, t as int),
            decreases ts@.len() - t,
        {
            let rs = &ts[t].rights;
            let mut k: usize = 0;
            while k < rs.len()
                invariant
                    t < ts@.len(),
                    *rs == ts@[t as int].rights,
                    k <= rs@.len(),
                    strs_view(seen@) == flat_rights(ts@, t as int) + strs_view(rs@.take(k as int)),
                    repeats_from(flat_rights(ts@, t as int), rs@, 0) == repeats_from(strs_view(seen@), rs@, k as int),
                    rights_check_from(ts@, 0) == rights_check_from(ts@, t as int),
                decreases rs@.len() - k,
            {
                if contains_str(&seen, &rs[k]) {
                    let mut m = String::from_str("\"");
                    m.append(ts[t].token.as_str());
                    m.append("\" is duplicated in the rights clause.");
                    return Err(ManifestError::Validate(m));
                }
                let ghost before = seen@;
                seen.push(rs[k].clone());
                proof {
                    assert(strs_view(seen@) =~= strs_view(before).push(rs@[k as int]@));
                    assert(rs@.take(k + 1) =~= rs@.take(k as int).push(rs@[k as int]));
                    assert(strs_view(rs@.take(k + 1)) =~= strs_view(rs@.take(k as int)).push(rs@[k as int]@));
                    assert(strs_view(seen@) =~= flat_rights(ts@, t as int) + strs_view(rs@.take(k + 1)));
                }
                k = k + 1;
            }
            proof {
                assert(rs@.take(k as int) =~= rs@);
                assert(strs_view(seen@) =~= flat_rights(ts@, t + 1));
            }
            t = t + 1;
        }
        Ok(())
    }

    /// Checks that a child's environment, if it names one, is declared.
    pub fn validate_child(&self, c: &Child) -> (res: Result<(), ManifestError>)
        ensures
            check_view(res) == environment_ref_check(*self.document, c.environment),
    {
        self.validate_environment_ref(&c.environment)
    }

    /// Checks that a collection's environment, if it names one, is declared.
    pub fn validate_collection(&self, c: &Collection) -> (res: Result<(), ManifestError>)
        ensures
            check_view(res) == environment_ref_check(*self.document, c.environment),
    {
        self.validate_environment_ref(&c.environment)
    }

    /// Checks that an environment reference, if there is one, is declared.
    fn validate_environment_ref(&self, env: &Option<String>) -> (res: Result<(), ManifestError>)
        ensures
            check_view(res) == environment_ref_check(*self.document, *env),
    {
        if let Some(e) = env {
            if !find_environment(self.document, e) {
                let mut m = String::from_str("\"");
                m.append(e.as_str());
                m.append("\" does not appear in \"environments\"");
                return Err(ManifestError::Validate(m));
            }
        }
        Ok(())
    }
}

/// Refusal of an alias beside a runner.
pub const AS_WITH_RUNNER: &'static str = "\"as\" field cannot be used with \"runner\"";

/// Refusal of an event used from nowhere.
pub const EVENT_WITHOUT_FROM: &'static str = "\"from\" should be present with \"event\"";

/// Refusal of a filter without an event.
pub const FILTER_WITHOUT_EVENT: &'static str = "\"filter\" can only be used with \"event\"";

/// Refusal of an alias for the `meta` storage.
pub const AS_WITH_META: &'static str = "\"as\" field cannot be used with storage type \"meta\"";

/// Refusal of a source for used storage.
pub const FROM_WITH_STORAGE: &'static str = "\"from\" field cannot be used with \"storage\"";

/// Refusal of a used directory without rights.
pub const USE_RIGHTS_REQUIRED: &'static str = "Rights required for this use statement.";

/// A name for what `std::path::Path::new(p).starts_with(base)` gives: whether
/// the components of `base` begin the components of `p`.
pub uninterp spec fn path_within(p: Seq<char>, base: Seq<char>) -> bool;

/// A name for what `std::path::Path::new(a) == std::path::Path::new(b)`
/// gives: whether the two paths have the same components.
pub uninterp spec fn path_same(a: Seq<char>, b: Seq<char>) -> bool;

/// Calls `std::path::Path::starts_with`; the result is claimed to be
/// `path_within` of the two paths' characters, and nothing more.
#[verifier::external_body]
fn path_starts_with(p: &str, base: &str) -> (r: bool)
    ensures
        r == path_within(p@, base@),
{
    std::path::Path::new(p).starts_with(std::path::Path::new(base))
}

/// Compares two paths with `==` on `std::path::Path`; the result is claimed
/// to be `path_same` of the two paths' characters, and nothing more.
#[verifier::external_body]
fn paths_equal(a: &str, b: &str) -> (r: bool)
    ensures
        r == path_same(a@, b@),
{
    std::path::Path::new(a) == std::path::Path::new(b)
}

/// The human readable description of a kind of capability.
pub open spec fn kind_text(k: IdKind) -> Seq<char> {
    match k {
        IdKind::Service => "service"@,
        IdKind::Protocol => "protocol"@,
        IdKind::Directory => "directory"@,
        IdKind::Runner => "runner"@,
        IdKind::Resolver => "resolver"@,
        IdKind::StorageType => "storage type"@,
        IdKind::Event => "event"@,
        IdKind::EventStream => "event_stream"@,
    }
}

/// The directory that holds a capability, if its kind has one.
pub open spec fn dir_of(c: (IdKind, Seq<char>)) -> Option<Seq<char>> {
    match c.0 {
        IdKind::Directory => Some(c.1),
        IdKind::Service | IdKind::Protocol => path_parent(c.1),
        _ => None,
    }
}

/// Whether the directories of two used capabilities collide: directories
/// may not be the same as or contain another's directory; services and
/// protocols may share a directory but not nest one in another.
pub open spec fn dirs_overlap(c: (IdKind, Seq<char>), u: (IdKind, Seq<char>)) -> bool {
    match (dir_of(c), dir_of(u)) {
        (Some(dc), Some(du)) => if c.0 == IdKind::Directory || u.0 == IdKind::Directory {
            path_same(dc, du) || path_within(dc, du) || path_within(du, dc)
        } else {
            !path_same(dc, du) && (path_within(dc, du) || path_within(du, dc))
        },
        _ => false,
    }
}

/// Whether one of `used` has the name or path `key`.
pub open spec fn key_used(used: Seq<(IdKind, Seq<char>)>, key: Seq<char>) -> bool {
    exists|j: int| 0 <= j < used.len() && (#[trigger] used[j]).1 == key
}

/// The refusal for a capability that an earlier capability of `used`, from
/// position `j` on, collides with.
pub open spec fn prefix_conflict_from(c: (IdKind, Seq<char>), used: Seq<(IdKind, Seq<char>)>, j: int) -> Option<ManifestErrorView>
    decreases used.len() - j,
{
    if j < 0 || j >= used.len() {
        None
    } else if c != used[j] && dirs_overlap(c, used[j]) {
        verr(kind_text(c.0) + " \""@ + c.1 + "\" is a prefix of \"use\" target "@ + kind_text(used[j].0) + " \""@
            + used[j].1 + "\""@)
    } else {
        prefix_conflict_from(c, used, j + 1)
    }
}

/// The used capabilities after adding `ids` from position `k` on to `used`,
/// or the refusal of the first that repeats a name or collides.
pub open spec fn use_ids_from(ids: Seq<(IdKind, Seq<char>)>, used: Seq<(IdKind, Seq<char>)>, k: int) -> Result<Seq<(IdKind, Seq<char>)>, ManifestErrorView>
    decreases ids.len() - k,
{
    if k < 0 || k >= ids.len() {
        Ok(used)
    } else if key_used(used, ids[k].1) {
        Err(ManifestErrorView::Validate("\""@ + ids[k].1 + "\" is a duplicate \"use\" target "@ + kind_text(ids[k].0)))
    } else {
        match prefix_conflict_from(ids[k], used, 0) {
            Some(e) => Err(e),
            None => use_ids_from(ids, used.push(ids[k]), k + 1),
        }
    }
}

/// Whether the storage of a clause is the `meta` storage.
pub open spec fn is_meta(s: Option<String>) -> bool {
    match s {
        Some(x) => x@ == "meta"@,
        None => false,
    }
}

/// The refusal for fields of a `use` clause that do not go together.
pub open spec fn use_field_check(u: Use) -> Option<ManifestErrorView> {
    if u.clause.runner is Some && u.clause.alias is Some {
        verr(AS_WITH_RUNNER@)
    } else if u.clause.event is Some && u.from is None {
        verr(EVENT_WITHOUT_FROM@)
    } else if u.clause.event is None && u.clause.filter {
        verr(FILTER_WITHOUT_EVENT@)
    } else if is_meta(u.clause.storage) && u.clause.alias is Some {
        verr(AS_WITH_META@)
    } else if u.clause.storage is Some && u.from is Some {
        verr(FROM_WITH_STORAGE@)
    } else {
        None
    }
}

/// The refusal for the first event of an event stream, from position `k`
/// on, that no `use` clause uses.
pub open spec fn stream_check_from(events: Seq<Seq<char>>, es: Seq<String>, k: int) -> Option<ManifestErrorView>
    decreases es.len() - k,
{
    if k < 0 || k >= es.len() {
        None
    } else if !events.contains(es[k]@) {
        verr("Event \""@ + es[k]@ + "\" in event stream not found in any \"use\" declaration."@)
    } else {
        stream_check_from(events, es, k + 1)
    }
}

/// The refusal for an event of the event stream of a `use` clause that no
/// `use` clause uses.
pub open spec fn use_stream_check(events: Seq<Seq<char>>, u: Use) -> Option<ManifestErrorView> {
    match u.clause.event_stream {
        Some(es) => stream_check_from(events, es@, 0),
        None => None,
    }
}

/// The used capabilities after a `use` clause, or its refusal; `events`
/// are the names of the events the manifest uses.
pub open spec fn use_check(doc: Document, events: Seq<Seq<char>>, used: Seq<(IdKind, Seq<char>)>, u: Use) -> Result<Seq<(IdKind, Seq<char>)>, ManifestErrorView> {
    match use_field_check(u) {
        Some(e) => Err(e),
        None => match use_stream_check(events, u) {
            Some(e) => Err(e),
            None => match clause_ids(u.clause) {
                Err(e) => Err(e),
                Ok(ids) => match use_ids_from(ids, used, 0) {
                    Err(e) => Err(e),
                    Ok(u2) => if u.clause.directory is Some {
                        match u.rights {
                            Some(ts) => match rights_check_from(ts@, 0) {
                                Some(e) => Err(e),
                                None => Ok(u2),
                            },
                            None => Err(ManifestErrorView::Validate(USE_RIGHTS_REQUIRED@)),
                        }
                    } else {
                        Ok(u2)
                    },
                },
            },
        },
    }
}

/// The name or path a capability identifier holds.
fn id_string(c: &CapabilityId) -> (r: &String)
    ensures
        r@ == id_of(*c),
{
    match c {
        CapabilityId::Service(p) => p,
        CapabilityId::Protocol(p) => p,
        CapabilityId::Directory(p) => p,
        CapabilityId::Runner(n) => n,
        CapabilityId::Resolver(n) => n,
        CapabilityId::StorageType(s) => s,
        CapabilityId::Event(n) => n,
        CapabilityId::EventStream(p) => p,
    }
}

/// The kind of a capability identifier.
fn id_kind(c: &CapabilityId) -> (r: IdKind)
    ensures
        r == kind_of(*c),
{
    match c {
        CapabilityId::Service(_) => IdKind::Service,
        CapabilityId::Protocol(_) => IdKind::Protocol,
        CapabilityId::Directory(_) => IdKind::Directory,
        CapabilityId::Runner(_) => IdKind::Runner,
        CapabilityId::Resolver(_) => IdKind::Resolver,
        CapabilityId::StorageType(_) => IdKind::StorageType,
        CapabilityId::Event(_) => IdKind::Event,
        CapabilityId::EventStream(_) => IdKind::EventStream,
    }
}

/// A copy of a capability identifier.
fn copy_id(c: &CapabilityId) -> (r: CapabilityId)
    ensures
        id_view(r) == id_view(*c),
{
    match c {
        CapabilityId::Service(p) => CapabilityId::Service(p.clone()),
        CapabilityId::Protocol(p) => CapabilityId::Protocol(p.clone()),
        CapabilityId::Directory(p) => CapabilityId::Directory(p.clone()),
        CapabilityId::Runner(n) => CapabilityId::Runner(n.clone()),
        CapabilityId::Resolver(n) => CapabilityId::Resolver(n.clone()),
        CapabilityId::StorageType(s) => CapabilityId::StorageType(s.clone()),
        CapabilityId::Event(n) => CapabilityId::Event(n.clone()),
        CapabilityId::EventStream(p) => CapabilityId::EventStream(p.clone()),
    }
}

/// Whether one of `used` has the name or path `key`.
fn find_key(used: &Vec<CapabilityId>, key: &String) -> (r: bool)
    ensures
        r == key_used(ids_view(used@), key@),
{
    let mut i: usize = 0;
    while i < used.len()
        invariant
            i <= used@.len(),
            forall|j: int| 0 <= j < i ==> id_of(#[trigger] used@[j]) != key@,
        decreases used@.len() - i,
    {
        if *id_string(&used[i]) == *key {
            assert(ids_view(used@)[i as int].1 == key@);
            return true;
        }
        i = i + 1;
    }
    proof {
        if key_used(ids_view(used@), key@) {
            let j = choose|j: int| 0 <= j < ids_view(used@).len() && (#[trigger] ids_view(used@)[j]).1 == key@;
            assert(id_of(used@[j]) == key@);
        }
    }
    false
}

/// Whether the directories of two used capabilities collide.
fn overlapping(c: &CapabilityId, u: &CapabilityId) -> (r: bool)
    ensures
        r == dirs_overlap(id_view(*c), id_view(*u)),
{
    let dc = c.get_dir_path();
    let du = u.get_dir_path();
    match (dc, du) {
        (Some(dc), Some(du)) => {
            let same = paths_equal(dc.as_str(), du.as_str());
            let within = path_starts_with(dc.as_str(), du.as_str()) || path_starts_with(du.as_str(), dc.as_str());
            if id_kind(c) == IdKind::Directory || id_kind(u) == IdKind::Directory {
                same || within
            } else {
                !same && within
            }
        },
        _ => false,
    }
}

/// The description of the kind of `c`.
fn kind_string(c: &CapabilityId) -> (r: &'static str)
    ensures
        r@ == kind_text(kind_of(*c)),
{
    c.type_str()
}

impl<'a> ValidationContext<'a> {
    /// Checks a `use` clause and adds the capabilities it uses to `used`.
    ///
    /// Fields that do not go together are refused; an event stream may
    /// only name events that are used; no two used capabilities may have
    /// the same name or path, and the directories of paths-based
    /// capabilities may not collide; a used directory needs rights, with no
    /// right given twice.
    pub fn validate_use(&self, u: &Use, used: &mut Vec<CapabilityId>) -> (res: Result<(), ManifestError>)
        ensures
            match use_check(*self.document, strs_view(self.event_names@), ids_view(old(used)@), *u) {
                Ok(u2) => res is Ok && ids_view(final(used)@) == u2,
                Err(e) => res matches Err(x) && x@ == e,
            },
    {
        let c = &u.clause;
        if c.runner.is_some() && c.alias.is_some() {
            return Err(ManifestError::Validate(String::from_str(AS_WITH_RUNNER)));
        }
        if c.event.is_some() && u.from.is_none() {
            return Err(ManifestError::Validate(String::from_str(EVENT_WITHOUT_FROM)));
        }
        if c.event.is_none() && c.filter {
            return Err(ManifestError::Validate(String::from_str(FILTER_WITHOUT_EVENT)));
        }
        let meta = match &c.storage {
            Some(st) => *st == String::from_str("meta"),
            None => false,
        };
        if meta && c.alias.is_some() {
            return Err(ManifestError::Validate(String::from_str(AS_WITH_META)));
        }
        if c.storage.is_some() && u.from.is_some() {
            return Err(ManifestError::Validate(String::from_str(FROM_WITH_STORAGE)));
        }
        if let Some(es) = &c.event_stream {
            let ghost events = strs_view(self.event_names@);
            let mut k: usize = 0;
            while k < es.len()
                invariant
                    k <= es@.len(),
                    events == strs_view(self.event_names@),
                    use_field_check(*u) is None,
                    u.clause.event_stream == Some(*es),
                    stream_check_from(events, es@, 0) == stream_check_from(events, es@, k as int),
                decreases es@.len() - k,
            {
                if !contains_str(&self.event_names, &es[k]) {
                    let mut m = String::from_str("Event \"");
                    m.append(es[k].as_str());
                    m.append("\" in event stream not found in any \"use\" declaration.");
                    assert(m@ =~= "Event \""@ + es@[k as int]@ + "\" in event stream not found in any \"use\" declaration."@);
                    assert(stream_check_from(events, es@, k as int) == verr(m@));
                    return Err(ManifestError::Validate(m));
                }
                k = k + 1;
            }
        }
        let ids = match CapabilityId::from_clause(c) {
            Ok(ids) => ids,
            Err(e) => return Err(e),
        };
        let ghost idv = ids_view(ids@);
        let ghost stream = use_stream_check(strs_view(self.event_names@), *u);
        assert(use_field_check(*u) is None);
        assert(stream is None);
        let mut k: usize = 0;
        while k < ids.len()
            invariant
                k <= ids@.len(),
                idv == ids_view(ids@),
                c == &u.clause,
                use_field_check(*u) is None,
                stream is None,
                stream == use_stream_check(strs_view(self.event_names@), *u),
                clause_ids(u.clause) == Ok::<Seq<(IdKind, Seq<char>)>, ManifestErrorView>(idv),
                use_ids_from(idv, ids_view(old(used)@), 0) == use_ids_from(idv, ids_view(used@), k as int),
            decreases ids@.len() - k,
        {
            let cid = &ids[k];
            if find_key(used, id_string(cid)) {
                let mut m = String::from_str("\"");
                m.append(id_string(cid).as_str());
                m.append("\" is a duplicate \"use\" target ");
                m.append(kind_string(cid));
                proof {
                    assert(idv[k as int] == id_view(ids@[k as int]));
                    assert(m@ =~= "\""@ + idv[k as int].1 + "\" is a duplicate \"use\" target "@ + kind_text(idv[k as int].0));
                }
                return Err(ManifestError::Validate(m));
            }
            let mut j: usize = 0;
            while j < used.len()
                invariant
                    k < ids@.len(),
                    idv == ids_view(ids@),
                    *cid == ids@[k as int],
                    use_field_check(*u) is None,
                    stream is None,
                    stream == use_stream_check(strs_view(self.event_names@), *u),
                    clause_ids(u.clause) == Ok::<Seq<(IdKind, Seq<char>)>, ManifestErrorView>(idv),
                    use_ids_from(idv, ids_view(old(used)@), 0) == use_ids_from(idv, ids_view(used@), k as int),
                    !key_used(ids_view(used@), idv[k as int].1),
                    j <= used@.len(),
                    prefix_conflict_from(id_view(*cid), ids_view(used@), 0) == prefix_conflict_from(id_view(*cid), ids_view(used@), j as int),
                decreases used@.len() - j,
            {
                let other = &used[j];
                let same = id_kind(cid) == id_kind(other) && *id_string(cid) == *id_string(other);
                if !same && overlapping(cid, other) {
                    let mut m = String::from_str(kind_string(cid));
                    m.append(" \"");
                    m.append(id_string(cid).as_str());
                    m.append("\" is a prefix of \"use\" target ");
                    m.append(kind_string(other));
                    m.append(" \"");
                    m.append(id_string(other).as_str());
                    m.append("\"");
                    proof {
                        let cv = id_view(*cid);
                        let uv = ids_view(used@)[j as int];
                        assert(uv == id_view(*other));
                        assert(cv != uv);
                        assert(m@ =~= kind_text(cv.0) + " \""@ + cv.1 + "\" is a prefix of \"use\" target "@
                            + kind_text(uv.0) + " \""@ + uv.1 + "\""@);
                        assert(idv[k as int] == cv);
                    }
                    return Err(ManifestError::Validate(m));
                }
                j = j + 1;
            }
            let ghost before = used@;
            used.push(copy_id(cid));
            assert(ids_view(used@) =~= ids_view(before).push(idv[k as int]));
            k = k + 1;
        }
        if c.directory.is_some() {
            match &u.rights {
                Some(rights) => {
                    return self.validate_directory_rights(rights);
                },
                None => {
                    return Err(ManifestError::Validate(String::from_str(USE_RIGHTS_REQUIRED)));
                },
            }
        }
        Ok(())
    }
}

/// The keyword of the capability a clause routes, as its refusals name it.
pub open spec fn capability_name(c: CapabilityClause) -> Seq<char> {
    if c.service is Some {
        "service"@
    } else if c.protocol is Some {
        "protocol"@
    } else if c.directory is Some {
        "directory"@
    } else if c.storage is Some {
        "storage"@
    } else if c.runner is Some {
        "runner"@
    } else if c.resolver is Some {
        "resolver"@
    } else if c.event is Some {
        "event"@
    } else if c.event_stream is Some {
        "event_stream"@
    } else {
        Seq::empty()
    }
}

/// The keyword of the capability a clause routes.
fn capability_name_of(c: &CapabilityClause) -> (r: &'static str)
    ensures
        r@ == capability_name(*c),
{
    if c.service.is_some() {
        "service"
    } else if c.protocol.is_some() {
        "protocol"
    } else if c.directory.is_some() {
        "directory"
    } else if c.storage.is_some() {
        "storage"
    } else if c.runner.is_some() {
        "runner"
    } else if c.resolver.is_some() {
        "resolver"
    } else if c.event.is_some() {
        "event"
    } else if c.event_stream.is_some() {
        "event_stream"
    } else {
        proof {
            reveal_strlit("");
        }
        ""
    }
}

/// How each of a list of references is written.
pub open spec fn refs_texts(r: Refs) -> Seq<Seq<char>> {
    refs_seq(r).map_values(|x: Ref| ref_text(x))
}

/// The refusal for the first reference of `rs`, from position `i` on, that
/// names a storage declaration (where `storage`) or a child (otherwise)
/// that the manifest lacks.
pub open spec fn source_refs_check_from(doc: Document, desc: Seq<char>, storage: bool, rs: Seq<Ref>, i: int) -> Option<ManifestErrorView>
    decreases rs.len() - i,
{
    if i < 0 || i >= rs.len() {
        None
    } else {
        match (if storage {
            storage_ref_check(doc, desc, rs[i])
        } else {
            component_ref_check(doc, desc, rs[i])
        }) {
            Some(e) => Some(e),
            None => source_refs_check_from(doc, desc, storage, rs, i + 1),
        }
    }
}

/// The refusal for the sources of an `offer` or `expose` clause (`verb`):
/// only services may come from several sources, no source may be given
/// twice, and each source must be declared.
pub open spec fn from_clause_check(doc: Document, verb: Seq<char>, c: CapabilityClause, from: Refs) -> Option<ManifestErrorView> {
    if c.service is None && from is Many {
        verr("\""@ + capability_name(c) + "\" capabilities cannot have multiple \"from\" clauses"@)
    } else if from is Many && first_duplicate_value(refs_texts(from), refs_texts(from).len() as int) is Some {
        verr(duplicate_value_message(first_duplicate_value(refs_texts(from), refs_texts(from).len() as int)->0))
    } else {
        source_refs_check_from(doc, "\""@ + verb + "\" source"@, c.storage is Some, refs_seq(from), 0)
    }
}

impl<'a> ValidationContext<'a> {
    /// Checks the sources of an `offer` or `expose` clause; `verb` names the
    /// kind of clause in refusals.
    pub fn validate_from_clause(&self, verb: &str, c: &CapabilityClause, from: &Refs) -> (res: Result<(), ManifestError>)
        ensures
            check_view(res) == from_clause_check(*self.document, verb@, *c, *from),
    {
        let many = match from {
            Refs::Many(_) => true,
            Refs::One(_) => false,
        };
        if c.service.is_none() && many {
            let mut m = String::from_str("\"");
            m.append(capability_name_of(c));
            m.append("\" capabilities cannot have multiple \"from\" clauses");
            return Err(ManifestError::Validate(m));
        }
        let n = refs_len(from);
        if many {
            let mut texts: Vec<String> = Vec::new();
            let mut i: usize = 0;
            while i < n
                invariant
                    n == refs_seq(*from).len(),
                    i <= n,
                    strs_view(texts@) =~= refs_texts(*from).take(i as int),
                decreases n - i,
            {
                let t = ref_display(refs_get(from, i));
                let ghost before = texts@;
                texts.push(t);
                assert(strs_view(texts@) =~= strs_view(before).push(refs_texts(*from)[i as int]));
                i = i + 1;
            }
            assert(refs_texts(*from).take(n as int) =~= refs_texts(*from));
            match ensure_no_duplicate_values(&texts) {
                Ok(()) => {},
                Err(e) => return Err(e),
            }
        }
        let mut desc = String::from_str("\"");
        desc.append(verb);
        desc.append("\" source");
        let storage = c.storage.is_some();
        let mut i: usize = 0;
        while i < n
            invariant
                n == refs_seq(*from).len(),
                i <= n,
                storage == c.storage is Some,
                desc@ == "\""@ + verb@ + "\" source"@,
                from_clause_check(*self.document, verb@, *c, *from) == source_refs_check_from(*self.document, desc@, storage, refs_seq(*from), i as int),
            decreases n - i,
        {
            let r = if storage {
                self.validate_storage_ref(desc.as_str(), refs_get(from, i))
            } else {
                self.validate_component_ref(desc.as_str(), refs_get(from, i))
            };
            if r.is_err() {
                return r;
            }
            i = i + 1;
        }
        Ok(())
    }
}

/// Refusal of an expose to the framework from elsewhere than the component.
pub const EXPOSE_FRAMEWORK_FROM_SELF: &'static str = "Expose to framework can only be done from self.";

/// Refusal of a directory exposed from the component without rights.
pub const EXPOSE_RIGHTS_REQUIRED: &'static str =
    "Rights required for this expose statement as it is exposing from self.";

/// Refusal of a subdirectory exposed to the framework.
pub const EXPOSE_SUBDIR_TO_FRAMEWORK: &'static str =
    "`subdir` is not supported for expose to framework. Directly expose the subdirectory instead.";

/// Whether every source of an expose to the framework is the component itself.
pub open spec fn framework_from_ok(from: Refs) -> bool {
    match from {
        Refs::One(r) => r is Self_,
        Refs::Many(v) => forall|i: int| 0 <= i < v@.len() ==> (#[trigger] v@[i]) is Self_,
    }
}

/// The refusal for the rights of a directory routed from the component (or
/// given rights): rights are required there and may not repeat; `missing`
/// is the refusal when there are none.
pub open spec fn routed_rights_check(c: CapabilityClause, from: Refs, rights: Option<Vec<RightToken>>, missing: Seq<char>) -> Option<ManifestErrorView> {
    if c.directory is Some && (any_self(from) || rights is Some) {
        match rights {
            Some(ts) => rights_check_from(ts@, 0),
            None => verr(missing),
        }
    } else {
        None
    }
}

/// The refusal for a resolver routed from the component that the manifest
/// does not declare; `tail` ends the refusal.
pub open spec fn resolver_self_check(doc: Document, resolver: Option<String>, from: Refs, tail: Seq<char>) -> Option<ManifestErrorView> {
    match resolver {
        Some(n) => if any_self(from) && !has_resolver(doc, n@) {
            verr("Resolver \""@ + n@ + tail)
        } else {
            None
        },
        None => None,
    }
}

/// The exposed capabilities after adding `ids` from position `k` on, or
/// the refusal of the first whose name was exposed before; `to` names the
/// target.
pub open spec fn expose_ids_from(ids: Seq<(IdKind, Seq<char>)>, used: Seq<(IdKind, Seq<char>)>, to: Seq<char>, k: int) -> Result<Seq<(IdKind, Seq<char>)>, ManifestErrorView>
    decreases ids.len() - k,
{
    if k < 0 || k >= ids.len() {
        Ok(used)
    } else if key_used(used, ids[k].1) {
        Err(ManifestErrorView::Validate("\""@ + ids[k].1 + "\" is a duplicate \"expose\" target "@ + kind_text(ids[k].0)
            + " for \""@ + to + "\""@))
    } else {
        expose_ids_from(ids, used.push(ids[k]), to, k + 1)
    }
}

/// The end of the refusal of a resolver exposed from the component but not declared.
pub const EXPOSED_RESOLVER_TAIL: &'static str = "\" is exposed from self, so it must be declared in \"resolvers\"";

/// The exposed capabilities after an `expose` clause, or its refusal.
pub open spec fn expose_check(doc: Document, used: Seq<(IdKind, Seq<char>)>, x: Expose) -> Result<Seq<(IdKind, Seq<char>)>, ManifestErrorView> {
    match from_clause_check(doc, "expose"@, x.clause, x.from) {
        Some(e) => Err(e),
        None => if x.to == Some(ExposeTo::Framework) && !framework_from_ok(x.from) {
            Err(ManifestErrorView::Validate(EXPOSE_FRAMEWORK_FROM_SELF@))
        } else {
            match routed_rights_check(x.clause, x.from, x.rights, EXPOSE_RIGHTS_REQUIRED@) {
                Some(e) => Err(e),
                None => if x.clause.directory is Some && x.to == Some(ExposeTo::Framework) && x.subdir is Some {
                    Err(ManifestErrorView::Validate(EXPOSE_SUBDIR_TO_FRAMEWORK@))
                } else {
                    match resolver_self_check(doc, x.clause.resolver, x.from, EXPOSED_RESOLVER_TAIL@) {
                        Some(e) => Err(e),
                        None => match clause_ids(x.clause) {
                            Err(e) => Err(e),
                            Ok(ids) => expose_ids_from(ids, used, expose_to_text(
                                match x.to {
                                    Some(t) => t,
                                    None => ExposeTo::Realm,
                                },
                            ), 0),
                        },
                    }
                },
            }
        },
    }
}

/// Whether every source of `from` is the component itself.
fn refs_all_self(from: &Refs) -> (b: bool)
    ensures
        b == framework_from_ok(*from),
{
    match from {
        Refs::One(r) => matches!(r, Ref::Self_),
        Refs::Many(v) => {
            let mut i: usize = 0;
            while i < v.len()
                invariant
                    i <= v@.len(),
                    framework_from_ok(*from) == forall|j: int| 0 <= j < v@.len() ==> (#[trigger] v@[j]) is Self_,
                    forall|j: int| 0 <= j < i ==> (#[trigger] v@[j]) is Self_,
                decreases v@.len() - i,
            {
                if !matches!(v[i], Ref::Self_) {
                    assert(!(v@[i as int] is Self_));
                    return false;
                }
                i = i + 1;
            }
            true
        },
    }
}

impl<'a> ValidationContext<'a> {
    /// Checks the rights of a directory routed from the component, or given
    /// rights; `missing` is the refusal when there are none.
    fn validate_routed_rights(&self, c: &CapabilityClause, from: &Refs, rights: &Option<Vec<RightToken>>, missing: &str) -> (res: Result<(), ManifestError>)
        ensures
            check_view(res) == routed_rights_check(*c, *from, *rights, missing@),
    {
        if c.directory.is_some() && (refs_any_self(from) || rights.is_some()) {
            match rights {
                Some(ts) => self.validate_directory_rights(ts),
                None => Err(ManifestError::Validate(String::from_str(missing))),
            }
        } else {
            Ok(())
        }
    }

    /// Checks that a resolver routed from the component is declared; `tail`
    /// ends the refusal.
    fn validate_resolver_from_self(&self, resolver: &Option<String>, from: &Refs, tail: &str) -> (res: Result<(), ManifestError>)
        ensures
            check_view(res) == resolver_self_check(*self.document, *resolver, *from, tail@),
    {
        if let Some(n) = resolver {
            if refs_any_self(from) && !find_resolver(self.document, n) {
                let mut m = String::from_str("Resolver \"");
                m.append(n.as_str());
                m.append(tail);
                return Err(ManifestError::Validate(m));
            }
        }
        Ok(())
    }

    /// Checks an `expose` clause and adds the capabilities it exposes to `used`.
    ///
    /// Its sources are checked; an expose to the framework must come from
    /// the component; a directory exposed from the component needs rights,
    /// and may not expose a subdirectory to the framework; a resolver
    /// exposed from the component must be declared; and no two exposed
    /// capabilities may have the same name.
    pub fn validate_expose(&self, x: &Expose, used: &mut Vec<CapabilityId>) -> (res: Result<(), ManifestError>)
        ensures
            match expose_check(*self.document, ids_view(old(used)@), *x) {
                Ok(u2) => res is Ok && ids_view(final(used)@) == u2,
                Err(e) => res matches Err(y) && y@ == e,
            },
    {
        let r = self.validate_from_clause("expose", &x.clause, &x.from);
        if r.is_err() {
            return r;
        }
        let to_framework = matches!(x.to, Some(ExposeTo::Framework));
        if to_framework && !refs_all_self(&x.from) {
            return Err(ManifestError::Validate(String::from_str(EXPOSE_FRAMEWORK_FROM_SELF)));
        }
        let r = self.validate_routed_rights(&x.clause, &x.from, &x.rights, EXPOSE_RIGHTS_REQUIRED);
        if r.is_err() {
            return r;
        }
        if x.clause.directory.is_some() && to_framework && x.subdir.is_some() {
            return Err(ManifestError::Validate(String::from_str(EXPOSE_SUBDIR_TO_FRAMEWORK)));
        }
        let r = self.validate_resolver_from_self(&x.clause.resolver, &x.from, EXPOSED_RESOLVER_TAIL);
        if r.is_err() {
            return r;
        }
        let ids = match CapabilityId::from_clause(&x.clause) {
            Ok(ids) => ids,
            Err(e) => return Err(e),
        };
        let to_text: &str = if to_framework {
            "framework"
        } else {
            "realm"
        };
        let ghost tv = expose_to_text(
            match x.to {
                Some(t) => t,
                None => ExposeTo::Realm,
            },
        );
        assert(to_text@ == tv);
        let ghost idv = ids_view(ids@);
        let mut k: usize = 0;
        while k < ids.len()
            invariant
                k <= ids@.len(),
                idv == ids_view(ids@),
                to_text@ == tv,
                expose_check(*self.document, ids_view(old(used)@), *x) == expose_ids_from(idv, ids_view(used@), tv, k as int),
            decreases ids@.len() - k,
        {
            let cid = &ids[k];
            if find_key(used, id_string(cid)) {
                let mut m = String::from_str("\"");
                m.append(id_string(cid).as_str());
                m.append("\" is a duplicate \"expose\" target ");
                m.append(kind_string(cid));
                m.append(" for \"");
                m.append(to_text);
                m.append("\"");
                proof {
                    assert(idv[k as int] == id_view(ids@[k as int]));
                    assert(m@ =~= "\""@ + idv[k as int].1 + "\" is a duplicate \"expose\" target "@ + kind_text(idv[k as int].0)
                        + " for \""@ + tv + "\""@);
                }
                return Err(ManifestError::Validate(m));
            }
            let ghost before = used@;
            used.push(copy_id(cid));
            assert(ids_view(used@) =~= ids_view(before).push(idv[k as int]));
            k = k + 1;
        }
        Ok(())
    }
}

/// Refusal of a directory offered from the component without rights.
pub const OFFER_RIGHTS_REQUIRED: &'static str = "Rights required for this offer as it is offering from self.";

/// The end of the refusal of a resolver offered from the component but not declared.
pub const OFFERED_RESOLVER_TAIL: &'static str = "\" is offered from self, so it must be declared in \"resolvers\"";

/// Refusal of a dependency kind on a capability that is no protocol or directory.
pub const DEPENDENCY_KIND: &'static str = "Dependency can only be provided for protocol and directory capabilities";

/// Refusal of an alias for offered storage.
pub const STORAGE_OFFER_ALIAS: &'static str = "\"as\" field cannot be used for storage offer targets";

/// The offered capabilities of `used`, each with the child or collection it goes to.
pub open spec fn offered_view(used: Seq<(String, CapabilityId)>) -> Seq<(Seq<char>, (IdKind, Seq<char>))> {
    used.map_values(|p: (String, CapabilityId)| (p.0@, id_view(p.1)))
}

/// Whether a capability named `key` was offered to `t` already.
pub open spec fn target_key_used(used: Seq<(Seq<char>, (IdKind, Seq<char>))>, t: Seq<char>, key: Seq<char>) -> bool {
    exists|j: int| 0 <= j < used.len() && (#[trigger] used[j]).0 == t && used[j].1.1 == key
}

/// The offered capabilities after offering `ids`, from position `k` on, to
/// `t`, or the refusal of the first that was offered to `t` before.
pub open spec fn offer_ids_from(ids: Seq<(IdKind, Seq<char>)>, used: Seq<(Seq<char>, (IdKind, Seq<char>))>, t: Seq<char>, k: int) -> Result<Seq<(Seq<char>, (IdKind, Seq<char>))>, ManifestErrorView>
    decreases ids.len() - k,
{
    if k < 0 || k >= ids.len() {
        Ok(used)
    } else if target_key_used(used, t, ids[k].1) {
        Err(ManifestErrorView::Validate("\""@ + ids[k].1 + "\" is a duplicate \"offer\" target "@ + kind_text(ids[k].0)
            + " for \"#"@ + t + "\""@))
    } else {
        offer_ids_from(ids, used.push((t, ids[k])), t, k + 1)
    }
}

/// Where the storage declaration called `name` among the first `k` of `st`
/// comes from; the latest such declaration counts.
pub open spec fn storage_source(st: Seq<Storage>, name: Seq<char>, k: int) -> Option<Ref>
    decreases k,
{
    if k <= 0 {
        None
    } else if st[k - 1].name@ == name {
        Some(st[k - 1].from)
    } else {
        storage_source(st, name, k - 1)
    }
}

/// Whether `r` names the child `t`.
pub open spec fn names(r: Ref, t: Seq<char>) -> bool {
    match r {
        Ref::Named(n) => n@ == t,
        _ => false,
    }
}

/// The refusal for the first source of `rs`, from position `k` on, that is
/// the target `t` itself.
pub open spec fn named_source_from(rs: Seq<Ref>, t: Seq<char>, k: int) -> Option<ManifestErrorView>
    decreases rs.len() - k,
{
    if k < 0 || k >= rs.len() {
        None
    } else if names(rs[k], t) {
        verr("Offer target \"#"@ + t + "\" is same as source"@)
    } else {
        named_source_from(rs, t, k + 1)
    }
}

/// The refusal for an offer to `t` of a capability that comes from `t`.
pub open spec fn same_source_check(doc: Document, o: Offer, t: Seq<char>) -> Option<ManifestErrorView> {
    if o.clause.storage is Some {
        match o.from {
            Refs::One(Ref::Named(name)) => match storage_source(doc.storage@, name@, doc.storage@.len() as int) {
                Some(Ref::Named(src)) => if src@ == t {
                    verr("Storage offer target \"#"@ + t + "\" is same as source"@)
                } else {
                    None
                },
                _ => None,
            },
            _ => None,
        }
    } else {
        named_source_from(refs_seq(o.from), t, 0)
    }
}

/// The offered capabilities after offering `o` to `t`, or the refusal.
pub open spec fn offer_target_check(doc: Document, used: Seq<(Seq<char>, (IdKind, Seq<char>))>, o: Offer, t: Seq<char>) -> Result<Seq<(Seq<char>, (IdKind, Seq<char>))>, ManifestErrorView> {
    if !has_child(doc, t) && !has_collection(doc, t) {
        Err(ManifestErrorView::Validate("\"#"@ + t + "\" is an \"offer\" target but it does not appear in \"children\" or \"collections\""@))
    } else if o.clause.storage is Some && o.clause.alias is Some {
        Err(ManifestErrorView::Validate(STORAGE_OFFER_ALIAS@))
    } else {
        match clause_ids(o.clause) {
            Err(e) => Err(e),
            Ok(ids) => match offer_ids_from(ids, used, t, 0) {
                Err(e) => Err(e),
                Ok(u2) => match same_source_check(doc, o, t) {
                    Some(e) => Err(e),
                    None => Ok(u2),
                },
            },
        }
    }
}

/// The offered capabilities after offering `o` to its targets from
/// position `k` on, or the refusal for the first target that fails.
pub open spec fn offer_targets_from(doc: Document, used: Seq<(Seq<char>, (IdKind, Seq<char>))>, o: Offer, k: int) -> Result<Seq<(Seq<char>, (IdKind, Seq<char>))>, ManifestErrorView>
    decreases o.to@.len() - k,
{
    if k < 0 || k >= o.to@.len() {
        Ok(used)
    } else {
        match offer_target_check(doc, used, o, o.to@[k]@) {
            Err(e) => Err(e),
            Ok(u2) => offer_targets_from(doc, u2, o, k + 1),
        }
    }
}

/// The refusal for an `offer` clause before its targets are looked at.
pub open spec fn offer_pre_check(doc: Document, o: Offer) -> Option<ManifestErrorView> {
    match from_clause_check(doc, "offer"@, o.clause, o.from) {
        Some(e) => Some(e),
        None => match routed_rights_check(o.clause, o.from, o.rights, OFFER_RIGHTS_REQUIRED@) {
            Some(e) => Some(e),
            None => match resolver_self_check(doc, o.clause.resolver, o.from, OFFERED_RESOLVER_TAIL@) {
                Some(e) => Some(e),
                None => if o.dependency is Some && o.clause.directory is None && o.clause.protocol is None {
                    verr(DEPENDENCY_KIND@)
                } else if o.clause.event is None && o.clause.filter {
                    verr(FILTER_WITHOUT_EVENT@)
                } else {
                    None
                },
            },
        },
    }
}

/// The offered capabilities after an `offer` clause, or its refusal.
pub open spec fn offer_check(doc: Document, used: Seq<(Seq<char>, (IdKind, Seq<char>))>, o: Offer) -> Result<Seq<(Seq<char>, (IdKind, Seq<char>))>, ManifestErrorView> {
    match offer_pre_check(doc, o) {
        Some(e) => Err(e),
        None => offer_targets_from(doc, used, o, 0),
    }
}

/// Whether a capability named `key` was offered to `t` already.
fn find_target_key(used: &Vec<(String, CapabilityId)>, t: &String, key: &String) -> (r: bool)
    ensures
        r == target_key_used(offered_view(used@), t@, key@),
{
    let mut i: usize = 0;
    while i < used.len()
        invariant
            i <= used@.len(),
            forall|j: int| 0 <= j < i ==> !((#[trigger] offered_view(used@)[j]).0 == t@ && offered_view(used@)[j].1.1 == key@),
        decreases used@.len() - i,
    {
        if used[i].0 == *t && *id_string(&used[i].1) == *key {
            assert(offered_view(used@)[i as int].0 == t@);
            return true;
        }
        i = i + 1;
    }
    false
}

/// Where the storage declaration called `name` comes from, if declared.
fn find_storage_source<'b>(doc: &'b Document, name: &String) -> (r: Option<&'b Ref>)
    ensures
        match storage_source(doc.storage@, name@, doc.storage@.len() as int) {
            Some(x) => r is Some && *r->0 == x,
            None => r is None,
        },
{
    let mut k: usize = doc.storage.len();
    while k > 0
        invariant
            k <= doc.storage@.len(),
            storage_source(doc.storage@, name@, doc.storage@.len() as int) == storage_source(doc.storage@, name@, k as int),
        decreases k,
    {
        if doc.storage[k - 1].name == *name {
            return Some(&doc.storage[k - 1].from);
        }
        k = k - 1;
    }
    None
}

impl<'a> ValidationContext<'a> {
    /// Checks that offering `o` to `t` does not send a capability back to
    /// its source.
    fn validate_offer_source(&self, o: &Offer, t: &String) -> (res: Result<(), ManifestError>)
        ensures
            check_view(res) == same_source_check(*self.document, *o, t@),
    {
        if o.clause.storage.is_some() {
            if let Refs::One(Ref::Named(name)) = &o.from {
                if let Some(Ref::Named(src)) = find_storage_source(self.document, name) {
                    if *src == *t {
                        let mut m = String::from_str("Storage offer target \"#");
                        m.append(t.as_str());
                        m.append("\" is same as source");
                        return Err(ManifestError::Validate(m));
                    }
                }
            }
            Ok(())
        } else {
            let n = refs_len(&o.from);
            let mut k: usize = 0;
            while k < n
                invariant
                    n == refs_seq(o.from).len(),
                    k <= n,
                    o.clause.storage is None,
                    same_source_check(*self.document, *o, t@) == named_source_from(refs_seq(o.from), t@, k as int),
                decreases n - k,
            {
                if let Ref::Named(f) = refs_get(&o.from, k) {
                    if *f == *t {
                        let mut m = String::from_str("Offer target \"#");
                        m.append(t.as_str());
                        m.append("\" is same as source");
                        return Err(ManifestError::Validate(m));
                    }
                }
                k = k + 1;
            }
            Ok(())
        }
    }

    /// Checks an `offer` clause and adds what it offers, per target, to `used`.
    ///
    /// Its sources are checked; a directory offered from the component needs
    /// rights; a resolver offered from the component must be declared; a
    /// dependency kind is only for protocols and directories; a filter only
    /// for events. Each target must be a child or collection; storage may
    /// not be aliased; no capability may be offered to a target twice; and
    /// no capability may be offered back to its source.
    pub fn validate_offer(&self, o: &Offer, used: &mut Vec<(String, CapabilityId)>) -> (res: Result<(), ManifestError>)
        ensures
            match offer_check(*self.document, offered_view(old(used)@), *o) {
                Ok(u2) => res is Ok && offered_view(final(used)@) == u2,
                Err(e) => res matches Err(y) && y@ == e,
            },
    {
        let r = self.validate_from_clause("offer", &o.clause, &o.from);
        if r.is_err() {
            return r;
        }
        let r = self.validate_routed_rights(&o.clause, &o.from, &o.rights, OFFER_RIGHTS_REQUIRED);
        if r.is_err() {
            return r;
        }
        let r = self.validate_resolver_from_self(&o.clause.resolver, &o.from, OFFERED_RESOLVER_TAIL);
        if r.is_err() {
            return r;
        }
        if o.dependency.is_some() && o.clause.directory.is_none() && o.clause.protocol.is_none() {
            return Err(ManifestError::Validate(String::from_str(DEPENDENCY_KIND)));
        }
        if o.clause.event.is_none() && o.clause.filter {
            return Err(ManifestError::Validate(String::from_str(FILTER_WITHOUT_EVENT)));
        }
        let mut m: usize = 0;
        while m < o.to.len()
            invariant
                m <= o.to@.len(),
                offer_check(*self.document, offered_view(old(used)@), *o) == offer_targets_from(*self.document, offered_view(used@), *o, m as int),
            decreases o.to@.len() - m,
        {
            let t = &o.to[m];
            if !find_child(self.document, t) && !find_collection(self.document, t) {
                let mut msg = String::from_str("\"#");
                msg.append(t.as_str());
                msg.append("\" is an \"offer\" target but it does not appear in \"children\" or \"collections\"");
                return Err(ManifestError::Validate(msg));
            }
            if o.clause.storage.is_some() && o.clause.alias.is_some() {
                return Err(ManifestError::Validate(String::from_str(STORAGE_OFFER_ALIAS)));
            }
            let ids = match CapabilityId::from_clause(&o.clause) {
                Ok(ids) => ids,
                Err(e) => return Err(e),
            };
            let ghost idv = ids_view(ids@);
            let ghost start = offered_view(used@);
            let mut k: usize = 0;
            while k < ids.len()
                invariant
                    m < o.to@.len(),
                    *t == o.to@[m as int],
                    k <= ids@.len(),
                    idv == ids_view(ids@),
                    clause_ids(o.clause) == Ok::<Seq<(IdKind, Seq<char>)>, ManifestErrorView>(idv),
                    has_child(*self.document, t@) || has_collection(*self.document, t@),
                    !(o.clause.storage is Some && o.clause.alias is Some),
                    offer_check(*self.document, offered_view(old(used)@), *o) == offer_targets_from(*self.document, start, *o, m as int),
                    offer_ids_from(idv, start, t@, 0) == offer_ids_from(idv, offered_view(used@), t@, k as int),
                decreases ids@.len() - k,
            {
                let cid = &ids[k];
                if find_target_key(used, t, id_string(cid)) {
                    let mut msg = String::from_str("\"");
                    msg.append(id_string(cid).as_str());
                    msg.append("\" is a duplicate \"offer\" target ");
                    msg.append(kind_string(cid));
                    msg.append(" for \"#");
                    msg.append(t.as_str());
                    msg.append("\"");
                    proof {
                        assert(idv[k as int] == id_view(ids@[k as int]));
                        assert(msg@ =~= "\""@ + idv[k as int].1 + "\" is a duplicate \"offer\" target "@ + kind_text(idv[k as int].0)
                            + " for \"#"@ + t@ + "\""@);
                    }
                    return Err(ManifestError::Validate(msg));
                }
                let ghost before = used@;
                used.push((t.clone(), copy_id(cid)));
                assert(offered_view(used@) =~= offered_view(before).push((t@, idv[k as int])));
                k = k + 1;
            }
            let r = self.validate_offer_source(o, t);
            if r.is_err() {
                return r;
            }
            m = m + 1;
        }
        Ok(())
    }
}

/// Refusal of an environment that extends nothing and gives no stop timeout.
pub const STOP_TIMEOUT_REQUIRED: &'static str =
    "'__stop_timeout_ms' must be provided if the environment does not extend another environment";

/// The name a runner is registered under: its alias, or else its own name.
pub open spec fn reg_name(r: RunnerRegistration) -> Seq<char> {
    match r.alias {
        Some(a) => a@,
        None => r.runner@,
    }
}

/// The runner most recently registered, among the first `k` of `rs`, under
/// the name `name`.
pub open spec fn runner_before(rs: Seq<RunnerRegistration>, name: Seq<char>, k: int) -> Option<Seq<char>>
    decreases k,
{
    if k <= 0 {
        None
    } else if reg_name(rs[k - 1]) == name {
        Some(rs[k - 1].runner@)
    } else {
        runner_before(rs, name, k - 1)
    }
}

/// The resolver most recently registered, among the first `k` of `rs`, for
/// the scheme `scheme`.
pub open spec fn resolver_before(rs: Seq<ResolverRegistration>, scheme: Seq<char>, k: int) -> Option<Seq<char>>
    decreases k,
{
    if k <= 0 {
        None
    } else if rs[k - 1].scheme@ == scheme {
        Some(rs[k - 1].resolver@)
    } else {
        resolver_before(rs, scheme, k - 1)
    }
}

/// The refusal for the first runner registration of an environment, from
/// position `k` on, that reuses a name, registers an undeclared runner of
/// the component, or comes from an undeclared child.
pub open spec fn env_runners_from(doc: Document, rs: Seq<RunnerRegistration>, k: int) -> Option<ManifestErrorView>
    decreases rs.len() - k,
{
    if k < 0 || k >= rs.len() {
        None
    } else {
        match runner_before(rs, reg_name(rs[k]), k) {
            Some(prev) => verr("Duplicate runners registered under name \""@ + reg_name(rs[k]) + "\": \""@ + rs[k].runner@
                + "\" and \""@ + prev + "\"."@),
            None => if rs[k].from is Self_ && !has_runner(doc, rs[k].runner@) {
                verr("Runner \""@ + rs[k].runner@ + "\" registered in environment is not in \"runners\""@)
            } else {
                match component_ref_check(doc, "\""@ + rs[k].runner@ + "\" runner source"@, rs[k].from) {
                    Some(e) => Some(e),
                    None => env_runners_from(doc, rs, k + 1),
                }
            },
        }
    }
}

/// The refusal for the first resolver registration of an environment, from
/// position `k` on, that reuses a scheme or comes from an undeclared child.
pub open spec fn env_resolvers_from(doc: Document, rs: Seq<ResolverRegistration>, k: int) -> Option<ManifestErrorView>
    decreases rs.len() - k,
{
    if k < 0 || k >= rs.len() {
        None
    } else {
        match resolver_before(rs, rs[k].scheme@, k) {
            Some(prev) => verr("scheme \""@ + rs[k].scheme@ + "\" for resolver \""@ + rs[k].resolver@
                + "\" is already registered; previously registered to resolver \""@ + prev + "\"."@),
            None => match component_ref_check(doc, "\""@ + rs[k].resolver@ + "\" resolver source"@, rs[k].from) {
                Some(e) => Some(e),
                None => env_resolvers_from(doc, rs, k + 1),
            },
        }
    }
}

/// The refusal for an environment declaration.
pub open spec fn env_check(doc: Document, e: Environment) -> Option<ManifestErrorView> {
    if e.extends == Some(Extends::Nothing) && e.stop_timeout_ms is None {
        verr(STOP_TIMEOUT_REQUIRED@)
    } else {
        match env_runners_from(doc, e.runners@, 0) {
            Some(x) => Some(x),
            None => env_resolvers_from(doc, e.resolvers@, 0),
        }
    }
}

impl<'a> ValidationContext<'a> {
    /// Checks an environment declaration: one that extends nothing needs a
    /// stop timeout; runners are registered under distinct names, runners of
    /// the component must be declared, and runners and resolvers must come
    /// from declared children; no scheme is given two resolvers.
    pub fn validate_environment(&self, e: &Environment) -> (res: Result<(), ManifestError>)
        ensures
            check_view(res) == env_check(*self.document, *e),
    {
        if matches!(e.extends, Some(Extends::Nothing)) && e.stop_timeout_ms.is_none() {
            return Err(ManifestError::Validate(String::from_str(STOP_TIMEOUT_REQUIRED)));
        }
        let rs = &e.runners;
        let mut k: usize = 0;
        while k < rs.len()
            invariant
                *rs == e.runners,
                k <= rs@.len(),
                !(e.extends == Some(Extends::Nothing) && e.stop_timeout_ms is None),
                env_runners_from(*self.document, rs@, 0) == env_runners_from(*self.document, rs@, k as int),
            decreases rs@.len() - k,
        {
            let reg = &rs[k];
            let name: &String = match &reg.alias {
                Some(a) => a,
                None => &reg.runner,
            };
            let mut j: usize = k;
            while j > 0
                invariant
                    j <= k < rs@.len(),
                    *reg == rs@[k as int],
                    name@ == reg_name(rs@[k as int]),
                    runner_before(rs@, name@, k as int) == runner_before(rs@, name@, j as int),
                    *rs == e.runners,
                    !(e.extends == Some(Extends::Nothing) && e.stop_timeout_ms is None),
                    env_runners_from(*self.document, rs@, 0) == env_runners_from(*self.document, rs@, k as int),
                decreases j,
            {
                let prev = &rs[j - 1];
                let prev_name: &String = match &prev.alias {
                    Some(a) => a,
                    None => &prev.runner,
                };
                if *prev_name == *name {
                    let mut m = String::from_str("Duplicate runners registered under name \"");
                    m.append(name.as_str());
                    m.append("\": \"");
                    m.append(reg.runner.as_str());
                    m.append("\" and \"");
                    m.append(prev.runner.as_str());
                    m.append("\".");
                    assert(runner_before(rs@, name@, j as int) == Some(prev.runner@));
                    assert(m@ =~= "Duplicate runners registered under name \""@ + reg_name(rs@[k as int]) + "\": \""@
                        + rs@[k as int].runner@ + "\" and \""@ + prev.runner@ + "\"."@);
                    return Err(ManifestError::Validate(m));
                }
                j = j - 1;
            }
            if matches!(reg.from, Ref::Self_) && !find_runner(self.document, &reg.runner) {
                let mut m = String::from_str("Runner \"");
                m.append(reg.runner.as_str());
                m.append("\" registered in environment is not in \"runners\"");
                return Err(ManifestError::Validate(m));
            }
            let mut desc = String::from_str("\"");
            desc.append(reg.runner.as_str());
            desc.append("\" runner source");
            let r = self.validate_component_ref(desc.as_str(), &reg.from);
            if r.is_err() {
                return r;
            }
            k = k + 1;
        }
        let rs = &e.resolvers;
        let mut k: usize = 0;
        while k < rs.len()
            invariant
                *rs == e.resolvers,
                k <= rs@.len(),
                env_check(*self.document, *e) == env_resolvers_from(*self.document, rs@, k as int),
            decreases rs@.len() - k,
        {
            let reg = &rs[k];
            let mut j: usize = k;
            while j > 0
                invariant
                    j <= k < rs@.len(),
                    *reg == rs@[k as int],
                    resolver_before(rs@, reg.scheme@, k as int) == resolver_before(rs@, reg.scheme@, j as int),
                    env_check(*self.document, *e) == env_resolvers_from(*self.document, rs@, k as int),
                decreases j,
            {
                let prev = &rs[j - 1];
                if prev.scheme == reg.scheme {
                    let mut m = String::from_str("scheme \"");
                    m.append(reg.scheme.as_str());
                    m.append("\" for resolver \"");
                    m.append(reg.resolver.as_str());
                    m.append("\" is already registered; previously registered to resolver \"");
                    m.append(prev.resolver.as_str());
                    m.append("\".");
                    assert(resolver_before(rs@, reg.scheme@, j as int) == Some(prev.resolver@));
                    assert(m@ =~= "scheme \""@ + rs@[k as int].scheme@ + "\" for resolver \""@ + rs@[k as int].resolver@
                        + "\" is already registered; previously registered to resolver \""@ + prev.resolver@ + "\"."@);
                    return Err(ManifestError::Validate(m));
                }
                j = j - 1;
            }
            let mut desc = String::from_str("\"");
            desc.append(reg.resolver.as_str());
            desc.append("\" resolver source");
            let r = self.validate_component_ref(desc.as_str(), &reg.from);
            if r.is_err() {
                return r;
            }
            k = k + 1;
        }
        Ok(())
    }
}

/// The names of the children of a manifest, each labelled `children`.
pub open spec fn child_entries(doc: Document) -> Seq<(Seq<char>, Seq<char>)> {
    doc.children@.map_values(|x: Child| (x.name@, "children"@))
}

/// Appends the names of the children of a manifest, each labelled `children`.
fn push_child_entries(doc: &Document, out: &mut Vec<(String, String)>)
    ensures
        pairs_view(final(out)@) == pairs_view(old(out)@) + child_entries(*doc),
{
    let ghost start = pairs_view(out@);
    let mut i: usize = 0;
    while i < doc.children.len()
        invariant
            i <= doc.children@.len(),
            pairs_view(out@) =~= start + child_entries(*doc).take(i as int),
        decreases doc.children@.len() - i,
    {
        let ghost before = out@;
        out.push((doc.children[i].name.clone(), String::from_str("children")));
        assert(pairs_view(out@) =~= pairs_view(before).push(child_entries(*doc)[i as int]));
        i = i + 1;
    }
    assert(child_entries(*doc).take(i as int) =~= child_entries(*doc));
}

/// The names of the collections of a manifest, each labelled `collections`.
pub open spec fn collection_entries(doc: Document) -> Seq<(Seq<char>, Seq<char>)> {
    doc.collections@.map_values(|x: Collection| (x.name@, "collections"@))
}

/// Appends the names of the collections of a manifest, each labelled `collections`.
fn push_collection_entries(doc: &Document, out: &mut Vec<(String, String)>)
    ensures
        pairs_view(final(out)@) == pairs_view(old(out)@) + collection_entries(*doc),
{
    let ghost start = pairs_view(out@);
    let mut i: usize = 0;
    while i < doc.collections.len()
        invariant
            i <= doc.collections@.len(),
            pairs_view(out@) =~= start + collection_entries(*doc).take(i as int),
        decreases doc.collections@.len() - i,
    {
        let ghost before = out@;
        out.push((doc.collections[i].name.clone(), String::from_str("collections")));
        assert(pairs_view(out@) =~= pairs_view(before).push(collection_entries(*doc)[i as int]));
        i = i + 1;
    }
    assert(collection_entries(*doc).take(i as int) =~= collection_entries(*doc));
}

/// The names of the storage of a manifest, each labelled `storage`.
pub open spec fn storage_entries(doc: Document) -> Seq<(Seq<char>, Seq<char>)> {
    doc.storage@.map_values(|x: Storage| (x.name@, "storage"@))
}

/// Appends the names of the storage of a manifest, each labelled `storage`.
fn push_storage_entries(doc: &Document, out: &mut Vec<(String, String)>)
    ensures
        pairs_view(final(out)@) == pairs_view(old(out)@) + storage_entries(*doc),
{
    let ghost start = pairs_view(out@);
    let mut i: usize = 0;
    while i < doc.storage.len()
        invariant
            i <= doc.storage@.len(),
            pairs_view(out@) =~= start + storage_entries(*doc).take(i as int),
        decreases doc.storage@.len() - i,
    {
        let ghost before = out@;
        out.push((doc.storage[i].name.clone(), String::from_str("storage")));
        assert(pairs_view(out@) =~= pairs_view(before).push(storage_entries(*doc)[i as int]));
        i = i + 1;
    }
    assert(storage_entries(*doc).take(i as int) =~= storage_entries(*doc));
}

/// The names of the runners of a manifest, each labelled `runners`.
pub open spec fn runner_entries(doc: Document) -> Seq<(Seq<char>, Seq<char>)> {
    doc.runners@.map_values(|x: Runner| (x.name@, "runners"@))
}

/// Appends the names of the runners of a manifest, each labelled `runners`.
fn push_runner_entries(doc: &Document, out: &mut Vec<(String, String)>)
    ensures
        pairs_view(final(out)@) == pairs_view(old(out)@) + runner_entries(*doc),
{
    let ghost start = pairs_view(out@);
    let mut i: usize = 0;
    while i < doc.runners.len()
        invariant
            i <= doc.runners@.len(),
            pairs_view(out@) =~= start + runner_entries(*doc).take(i as int),
        decreases doc.runners@.len() - i,
    {
        let ghost before = out@;
        out.push((doc.runners[i].name.clone(), String::from_str("runners")));
        assert(pairs_view(out@) =~= pairs_view(before).push(runner_entries(*doc)[i as int]));
        i = i + 1;
    }
    assert(runner_entries(*doc).take(i as int) =~= runner_entries(*doc));
}

/// The names of the resolvers of a manifest, each labelled `resolvers`.
pub open spec fn resolver_entries(doc: Document) -> Seq<(Seq<char>, Seq<char>)> {
    doc.resolvers@.map_values(|x: Resolver| (x.name@, "resolvers"@))
}

/// Appends the names of the resolvers of a manifest, each labelled `resolvers`.
fn push_resolver_entries(doc: &Document, out: &mut Vec<(String, String)>)
    ensures
        pairs_view(final(out)@) == pairs_view(old(out)@) + resolver_entries(*doc),
{
    let ghost start = pairs_view(out@);
    let mut i: usize = 0;
    while i < doc.resolvers.len()
        invariant
            i <= doc.resolvers@.len(),
            pairs_view(out@) =~= start + resolver_entries(*doc).take(i as int),
        decreases doc.resolvers@.len() - i,
    {
        let ghost before = out@;
        out.push((doc.resolvers[i].name.clone(), String::from_str("resolvers")));
        assert(pairs_view(out@) =~= pairs_view(before).push(resolver_entries(*doc)[i as int]));
        i = i + 1;
    }
    assert(resolver_entries(*doc).take(i as int) =~= resolver_entries(*doc));
}

/// The names of the environments of a manifest, each labelled `environments`.
pub open spec fn environment_entries(doc: Document) -> Seq<(Seq<char>, Seq<char>)> {
    doc.environments@.map_values(|x: Environment| (x.name@, "environments"@))
}

/// Appends the names of the environments of a manifest, each labelled `environments`.
fn push_environment_entries(doc: &Document, out: &mut Vec<(String, String)>)
    ensures
        pairs_view(final(out)@) == pairs_view(old(out)@) + environment_entries(*doc),
{
    let ghost start = pairs_view(out@);
    let mut i: usize = 0;
    while i < doc.environments.len()
        invariant
            i <= doc.environments@.len(),
            pairs_view(out@) =~= start + environment_entries(*doc).take(i as int),
        decreases doc.environments@.len() - i,
    {
        let ghost before = out@;
        out.push((doc.environments[i].name.clone(), String::from_str("environments")));
        assert(pairs_view(out@) =~= pairs_view(before).push(environment_entries(*doc)[i as int]));
        i = i + 1;
    }
    assert(environment_entries(*doc).take(i as int) =~= environment_entries(*doc));
}

/// The declared names of a manifest, each with the part that declares it.
pub open spec fn named_entries(doc: Document) -> Seq<(Seq<char>, Seq<char>)> {
    child_entries(doc) + collection_entries(doc) + storage_entries(doc) + runner_entries(doc)
        + resolver_entries(doc) + environment_entries(doc)
}

/// The names of the events a `use` clause uses, or why its alias fails.
pub open spec fn use_event_names(u: Use) -> Result<Seq<Seq<char>>, ManifestErrorView> {
    match u.clause.event {
        None => Ok(Seq::empty()),
        Some(OneOrMany::One(n)) => match alias_or_name(u.clause.alias, n@) {
            Ok(x) => Ok(seq![x]),
            Err(e) => Err(e),
        },
        Some(OneOrMany::Many(ns)) => if ns@.len() == 1 {
            match alias_or_name(u.clause.alias, ns@[0]@) {
                Ok(x) => Ok(seq![x]),
                Err(e) => Err(e),
            }
        } else {
            Ok(strs_view(ns@))
        },
    }
}

/// The names of the events that the `use` clauses from position `i` on
/// use, in order: a single event under its alias, a list under its own
/// names.
pub open spec fn event_names_from(uses: Seq<Use>, i: int) -> Result<Seq<Seq<char>>, ManifestErrorView>
    decreases uses.len() - i,
{
    if i < 0 || i >= uses.len() {
        Ok(Seq::empty())
    } else {
        match use_event_names(uses[i]) {
            Err(e) => Err(e),
            Ok(h) => match event_names_from(uses, i + 1) {
                Ok(rest) => Ok(h + rest),
                Err(e) => Err(e),
            },
        }
    }
}

/// Appends the names of the events a `use` clause uses.
fn push_use_event_names(u: &Use, out: &mut Vec<String>) -> (r: Result<(), ManifestError>)
    ensures
        match use_event_names(*u) {
            Ok(h) => r is Ok && strs_view(final(out)@) == strs_view(old(out)@) + h,
            Err(e) => r matches Err(x) && x@ == e,
        },
{
    match &u.clause.event {
        None => {
            assert(strs_view(out@) =~= strs_view(out@) + Seq::<Seq<char>>::empty());
            Ok(())
        },
        Some(OneOrMany::One(n)) => match name_or_alias(&u.clause.alias, n.as_str()) {
            Ok(x) => {
                let ghost before = out@;
                out.push(x);
                assert(strs_view(out@) =~= strs_view(before) + seq![str_result_view(Ok::<String, ManifestError>(out@[out@.len() - 1]))->Ok_0]);
                Ok(())
            },
            Err(e) => Err(e),
        },
        Some(OneOrMany::Many(ns)) => {
            if ns.len() == 1 {
                match name_or_alias(&u.clause.alias, ns[0].as_str()) {
                    Ok(x) => {
                        let ghost before = out@;
                        out.push(x);
                        assert(strs_view(out@) =~= strs_view(before) + seq![out@[out@.len() - 1]@]);
                        Ok(())
                    },
                    Err(e) => Err(e),
                }
            } else {
                let ghost start = strs_view(out@);
                let mut i: usize = 0;
                while i < ns.len()
                    invariant
                        i <= ns@.len(),
                        strs_view(out@) =~= start + strs_view(ns@.take(i as int)),
                    decreases ns@.len() - i,
                {
                    let ghost before = out@;
                    out.push(ns[i].clone());
                    assert(strs_view(ns@.take(i + 1)) =~= strs_view(ns@.take(i as int)).push(ns@[i as int]@));
                    assert(strs_view(out@) =~= strs_view(before).push(ns@[i as int]@));
                    i = i + 1;
                }
                assert(ns@.take(i as int) =~= ns@);
                Ok(())
            }
        },
    }
}

/// Returns the names of the events that the `use` clauses of a manifest use.
pub fn all_event_names(doc: &Document) -> (r: Result<Vec<String>, ManifestError>)
    ensures
        match event_names_from(doc.uses@, 0) {
            Ok(ns) => r matches Ok(v) && strs_view(v@) == ns,
            Err(e) => r matches Err(x) && x@ == e,
        },
{
    let mut out: Vec<String> = Vec::new();
    let mut i: usize = 0;
    while i < doc.uses.len()
        invariant
            i <= doc.uses@.len(),
            event_names_from(doc.uses@, 0) == match event_names_from(doc.uses@, i as int) {
                Ok(rest) => Ok(strs_view(out@) + rest),
                Err(e) => Err::<Seq<Seq<char>>, ManifestErrorView>(e),
            },
        decreases doc.uses@.len() - i,
    {
        let ghost before = strs_view(out@);
        match push_use_event_names(&doc.uses[i], &mut out) {
            Ok(()) => {},
            Err(e) => return Err(e),
        }
        proof {
            let h = use_event_names(doc.uses@[i as int])->Ok_0;
            match event_names_from(doc.uses@, i + 1) {
                Ok(rest) => {
                    assert(before + (h + rest) =~= (before + h) + rest);
                },
                Err(e) => {},
            }
        }
        i = i + 1;
    }
    assert(strs_view(out@) + Seq::<Seq<char>>::empty() =~= strs_view(out@));
    Ok(out)
}

/// A node of the dependency graph as a value.
pub open spec fn child_node(n: Seq<char>) -> (bool, Seq<char>) {
    (false, n)
}

/// An environment node of the dependency graph as a value.
pub open spec fn env_node(n: Seq<char>) -> (bool, Seq<char>) {
    (true, n)
}

/// The edges from the environments of children, from position `i` on, to the children.
pub open spec fn child_edges_from(cs: Seq<Child>, i: int) -> Seq<((bool, Seq<char>), (bool, Seq<char>))>
    decreases cs.len() - i,
{
    if i < 0 || i >= cs.len() {
        Seq::empty()
    } else {
        (match cs[i].environment {
            Some(e) => seq![(env_node(e@), child_node(cs[i].name@))],
            None => Seq::empty(),
        }) + child_edges_from(cs, i + 1)
    }
}

/// Whether the targets of an offer depend strongly on its sources: only
/// protocols and directories may be offered weakly.
pub open spec fn offer_is_strong(o: Offer) -> bool {
    if o.clause.directory is Some || o.clause.protocol is Some {
        match o.dependency {
            Some(d) => d == Dependency::Strong,
            None => true,
        }
    } else {
        true
    }
}

/// The edges from the named children among the sources `rs`, from position
/// `k` on, to the target `t`.
pub open spec fn from_edges(rs: Seq<Ref>, t: Seq<char>, k: int) -> Seq<((bool, Seq<char>), (bool, Seq<char>))>
    decreases rs.len() - k,
{
    if k < 0 || k >= rs.len() {
        Seq::empty()
    } else {
        (match rs[k] {
            Ref::Named(f) => seq![(child_node(f@), child_node(t))],
            _ => Seq::empty(),
        }) + from_edges(rs, t, k + 1)
    }
}

/// The strong edges of an offer to its targets from position `m` on.
pub open spec fn offer_edges_to(o: Offer, m: int) -> Seq<((bool, Seq<char>), (bool, Seq<char>))>
    decreases o.to@.len() - m,
{
    if m < 0 || m >= o.to@.len() {
        Seq::empty()
    } else {
        (if offer_is_strong(o) {
            from_edges(refs_seq(o.from), o.to@[m]@, 0)
        } else {
            Seq::empty()
        }) + offer_edges_to(o, m + 1)
    }
}

/// The strong edges of the offers from position `i` on.
pub open spec fn offer_edges_from(os: Seq<Offer>, i: int) -> Seq<((bool, Seq<char>), (bool, Seq<char>))>
    decreases os.len() - i,
{
    if i < 0 || i >= os.len() {
        Seq::empty()
    } else {
        offer_edges_to(os[i], 0) + offer_edges_from(os, i + 1)
    }
}

/// The edges from the children that provide runners, from position `k` on,
/// to the environment `env`.
pub open spec fn runner_edges_from(rs: Seq<RunnerRegistration>, env: Seq<char>, k: int) -> Seq<((bool, Seq<char>), (bool, Seq<char>))>
    decreases rs.len() - k,
{
    if k < 0 || k >= rs.len() {
        Seq::empty()
    } else {
        (match rs[k].from {
            Ref::Named(c) => seq![(child_node(c@), env_node(env))],
            _ => Seq::empty(),
        }) + runner_edges_from(rs, env, k + 1)
    }
}

/// The edges from the children that provide resolvers, from position `k`
/// on, to the environment `env`.
pub open spec fn resolver_edges_from(rs: Seq<ResolverRegistration>, env: Seq<char>, k: int) -> Seq<((bool, Seq<char>), (bool, Seq<char>))>
    decreases rs.len() - k,
{
    if k < 0 || k >= rs.len() {
        Seq::empty()
    } else {
        (match rs[k].from {
            Ref::Named(c) => seq![(child_node(c@), env_node(env))],
            _ => Seq::empty(),
        }) + resolver_edges_from(rs, env, k + 1)
    }
}

/// The edges into the environments from position `i` on.
pub open spec fn env_edges_from(es: Seq<Environment>, i: int) -> Seq<((bool, Seq<char>), (bool, Seq<char>))>
    decreases es.len() - i,
{
    if i < 0 || i >= es.len() {
        Seq::empty()
    } else {
        runner_edges_from(es[i].runners@, es[i].name@, 0) + resolver_edges_from(es[i].resolvers@, es[i].name@, 0)
            + env_edges_from(es, i + 1)
    }
}

/// The strong dependencies of a manifest: a child on its environment, a
/// target on the sources of what is offered to it strongly, and an
/// environment on the children that provide its runners and resolvers.
pub open spec fn strong_edges(doc: Document) -> Seq<((bool, Seq<char>), (bool, Seq<char>))> {
    child_edges_from(doc.children@, 0) + offer_edges_from(doc.offers@, 0) + env_edges_from(doc.environments@, 0)
}

/// A child node of the dependency graph.
fn child_node_of(n: &String) -> (r: DependencyNode)
    ensures
        node_view(r) == child_node(n@),
{
    DependencyNode::Child(n.clone())
}

/// An environment node of the dependency graph.
fn env_node_of(n: &String) -> (r: DependencyNode)
    ensures
        node_view(r) == env_node(n@),
{
    DependencyNode::Environment(n.clone())
}

/// Appends the edges from the environments of the children to the children.
fn push_child_edges(doc: &Document, out: &mut Vec<(DependencyNode, DependencyNode)>)
    ensures
        edges_view(final(out)@) == edges_view(old(out)@) + child_edges_from(doc.children@, 0),
{
    let ghost start = edges_view(out@);
    let cs = &doc.children;
    let mut i: usize = 0;
    while i < cs.len()
        invariant
            i <= cs@.len(),
            start + child_edges_from(cs@, 0) =~= edges_view(out@) + child_edges_from(cs@, i as int),
        decreases cs@.len() - i,
    {
        let ghost before = edges_view(out@);
        if let Some(e) = &cs[i].environment {
            out.push((env_node_of(e), child_node_of(&cs[i].name)));
        }
        assert(edges_view(out@) + child_edges_from(cs@, i + 1) =~= before + child_edges_from(cs@, i as int));
        i = i + 1;
    }
}

/// Appends the edges from the named children among the sources `rs` to `t`.
fn push_from_edges(rs: &Refs, t: &String, out: &mut Vec<(DependencyNode, DependencyNode)>)
    ensures
        edges_view(final(out)@) == edges_view(old(out)@) + from_edges(refs_seq(*rs), t@, 0),
{
    let ghost start = edges_view(out@);
    let n = refs_len(rs);
    let mut k: usize = 0;
    while k < n
        invariant
            n == refs_seq(*rs).len(),
            k <= n,
            start + from_edges(refs_seq(*rs), t@, 0) =~= edges_view(out@) + from_edges(refs_seq(*rs), t@, k as int),
        decreases n - k,
    {
        let ghost before = edges_view(out@);
        if let Ref::Named(f) = refs_get(rs, k) {
            out.push((child_node_of(f), child_node_of(t)));
        }
        assert(edges_view(out@) + from_edges(refs_seq(*rs), t@, k + 1) =~= before + from_edges(refs_seq(*rs), t@, k as int));
        k = k + 1;
    }
}

/// Appends the strong edges of the offers.
fn push_offer_edges(doc: &Document, out: &mut Vec<(DependencyNode, DependencyNode)>)
    ensures
        edges_view(final(out)@) == edges_view(old(out)@) + offer_edges_from(doc.offers@, 0),
{
    let ghost start = edges_view(out@);
    let os = &doc.offers;
    let mut i: usize = 0;
    while i < os.len()
        invariant
            i <= os@.len(),
            start + offer_edges_from(os@, 0) =~= edges_view(out@) + offer_edges_from(os@, i as int),
        decreases os@.len() - i,
    {
        let o = &os[i];
        let ghost at_offer = edges_view(out@);
        let strong = if o.clause.directory.is_some() || o.clause.protocol.is_some() {
            match o.dependency {
                Some(d) => d == Dependency::Strong,
                None => true,
            }
        } else {
            true
        };
        let mut m: usize = 0;
        while m < o.to.len()
            invariant
                i < os@.len(),
                *o == os@[i as int],
                strong == offer_is_strong(*o),
                m <= o.to@.len(),
                at_offer + offer_edges_to(*o, 0) =~= edges_view(out@) + offer_edges_to(*o, m as int),
            decreases o.to@.len() - m,
        {
            let ghost before = edges_view(out@);
            if strong {
                push_from_edges(&o.from, &o.to[m], out);
            }
            assert(edges_view(out@) + offer_edges_to(*o, m + 1) =~= before + offer_edges_to(*o, m as int));
            m = m + 1;
        }
        assert(edges_view(out@) + offer_edges_from(os@, i + 1) =~= at_offer + offer_edges_from(os@, i as int));
        i = i + 1;
    }
}

/// Appends the edges into the environments.
fn push_env_edges(doc: &Document, out: &mut Vec<(DependencyNode, DependencyNode)>)
    ensures
        edges_view(final(out)@) == edges_view(old(out)@) + env_edges_from(doc.environments@, 0),
{
    let ghost start = edges_view(out@);
    let es = &doc.environments;
    let mut i: usize = 0;
    while i < es.len()
        invariant
            i <= es@.len(),
            start + env_edges_from(es@, 0) =~= edges_view(out@) + env_edges_from(es@, i as int),
        decreases es@.len() - i,
    {
        let env = &es[i];
        let ghost at_env = edges_view(out@);
        let rs = &env.runners;
        let mut k: usize = 0;
        while k < rs.len()
            invariant
                *rs == env.runners,
                k <= rs@.len(),
                at_env + runner_edges_from(rs@, env.name@, 0) =~= edges_view(out@) + runner_edges_from(rs@, env.name@, k as int),
            decreases rs@.len() - k,
        {
            let ghost before = edges_view(out@);
            if let Ref::Named(c) = &rs[k].from {
                out.push((child_node_of(c), env_node_of(&env.name)));
            }
            assert(edges_view(out@) + runner_edges_from(rs@, env.name@, k + 1) =~= before + runner_edges_from(rs@, env.name@, k as int));
            k = k + 1;
        }
        let ghost mid = edges_view(out@);
        let rs = &env.resolvers;
        let mut k: usize = 0;
        while k < rs.len()
            invariant
                *rs == env.resolvers,
                k <= rs@.len(),
                mid + resolver_edges_from(rs@, env.name@, 0) =~= edges_view(out@) + resolver_edges_from(rs@, env.name@, k as int),
            decreases rs@.len() - k,
        {
            let ghost before = edges_view(out@);
            if let Ref::Named(c) = &rs[k].from {
                out.push((child_node_of(c), env_node_of(&env.name)));
            }
            assert(edges_view(out@) + resolver_edges_from(rs@, env.name@, k + 1) =~= before + resolver_edges_from(rs@, env.name@, k as int));
            k = k + 1;
        }
        assert(edges_view(out@) + env_edges_from(es@, i + 1) =~= at_env + env_edges_from(es@, i as int));
        i = i + 1;
    }
}

/// Returns the strong dependencies of a manifest.
pub fn strong_dependencies(doc: &Document) -> (r: Vec<(DependencyNode, DependencyNode)>)
    ensures
        edges_view(r@) == strong_edges(*doc),
{
    let mut out: Vec<(DependencyNode, DependencyNode)> = Vec::new();
    assert(edges_view(out@) =~= Seq::empty());
    push_child_edges(doc, &mut out);
    push_offer_edges(doc, &mut out);
    push_env_edges(doc, &mut out);
    assert(edges_view(out@) =~= strong_edges(*doc));
    out
}

/// Refusal of a component that has a program but uses no runner.
pub const PROGRAM_WITHOUT_RUNNER: &'static str =
    "Component has a 'program' block defined, but doesn't 'use' a runner capability. Components need to 'use' a runner to actually execute code.";

/// The start of the refusal of strong dependencies that form cycles; a
/// listing of cycles follows it.
pub const DEPENDENCY_CYCLE: &'static str =
    "Strong dependency cycles were found. Break the cycle by removing a dependency or marking an offer as weak.";

/// Whether one of the `use` clauses `uses` uses a runner.
pub open spec fn uses_runner(uses: Seq<Use>) -> bool {
    exists|i: int| 0 <= i < uses.len() && (#[trigger] uses[i]).clause.runner is Some
}

/// The refusal of a component with a program that uses no runner.
pub open spec fn runner_specified_check(has_program: bool, uses: Seq<Use>) -> Option<ManifestErrorView> {
    if has_program && !uses_runner(uses) {
        verr(PROGRAM_WITHOUT_RUNNER@)
    } else {
        None
    }
}

/// Checks that a component with a program (`has_program`) uses a runner
/// among its `use` clauses; a component without a program needs none.
pub fn validate_runner_specified(has_program: bool, uses: &Vec<Use>) -> (r: Result<(), ManifestError>)
    ensures
        check_view(r) == runner_specified_check(has_program, uses@),
{
    if !has_program {
        return Ok(());
    }
    let mut i: usize = 0;
    while i < uses.len()
        invariant
            i <= uses@.len(),
            forall|k: int| 0 <= k < i ==> (#[trigger] uses@[k]).clause.runner is None,
        decreases uses@.len() - i,
    {
        if uses[i].clause.runner.is_some() {
            assert(uses@[i as int].clause.runner is Some);
            return Ok(());
        }
        i = i + 1;
    }
    Err(ManifestError::Validate(String::from_str(PROGRAM_WITHOUT_RUNNER)))
}

/// The refusal for the first child, from position `i` on, whose environment is undeclared.
pub open spec fn children_check_from(doc: Document, cs: Seq<Child>, i: int) -> Option<ManifestErrorView>
    decreases cs.len() - i,
{
    if i < 0 || i >= cs.len() {
        None
    } else {
        match environment_ref_check(doc, cs[i].environment) {
            Some(e) => Some(e),
            None => children_check_from(doc, cs, i + 1),
        }
    }
}

/// The refusal for the first collection, from position `i` on, whose environment is undeclared.
pub open spec fn collections_check_from(doc: Document, cs: Seq<Collection>, i: int) -> Option<ManifestErrorView>
    decreases cs.len() - i,
{
    if i < 0 || i >= cs.len() {
        None
    } else {
        match environment_ref_check(doc, cs[i].environment) {
            Some(e) => Some(e),
            None => collections_check_from(doc, cs, i + 1),
        }
    }
}

/// The refusal for the first `use` clause, from position `i` on, that
/// fails, with the capabilities used before it in `used`.
pub open spec fn uses_check_from(doc: Document, events: Seq<Seq<char>>, us: Seq<Use>, i: int, used: Seq<(IdKind, Seq<char>)>) -> Option<ManifestErrorView>
    decreases us.len() - i,
{
    if i < 0 || i >= us.len() {
        None
    } else {
        match use_check(doc, events, used, us[i]) {
            Err(e) => Some(e),
            Ok(u2) => uses_check_from(doc, events, us, i + 1, u2),
        }
    }
}

/// The refusal for the first `expose` clause, from position `i` on, that
/// fails, with the capabilities exposed before it in `used`.
pub open spec fn exposes_check_from(doc: Document, xs: Seq<Expose>, i: int, used: Seq<(IdKind, Seq<char>)>) -> Option<ManifestErrorView>
    decreases xs.len() - i,
{
    if i < 0 || i >= xs.len() {
        None
    } else {
        match expose_check(doc, used, xs[i]) {
            Err(e) => Some(e),
            Ok(u2) => exposes_check_from(doc, xs, i + 1, u2),
        }
    }
}

/// The refusal for the first `offer` clause, from position `i` on, that
/// fails, with the capabilities offered before it in `used`.
pub open spec fn offers_check_from(doc: Document, os: Seq<Offer>, i: int, used: Seq<(Seq<char>, (IdKind, Seq<char>))>) -> Option<ManifestErrorView>
    decreases os.len() - i,
{
    if i < 0 || i >= os.len() {
        None
    } else {
        match offer_check(doc, used, os[i]) {
            Err(e) => Some(e),
            Ok(u2) => offers_check_from(doc, os, i + 1, u2),
        }
    }
}

/// The refusal for the first storage declaration, from position `i` on,
/// whose source is an undeclared child.
pub open spec fn storage_sources_from(doc: Document, st: Seq<Storage>, i: int) -> Option<ManifestErrorView>
    decreases st.len() - i,
{
    if i < 0 || i >= st.len() {
        None
    } else {
        match component_ref_check(doc, "\"storage\" source"@, st[i].from) {
            Some(e) => Some(e),
            None => storage_sources_from(doc, st, i + 1),
        }
    }
}

/// The refusal for the first runner declaration, from position `i` on,
/// whose source is an undeclared child.
pub open spec fn runner_sources_from(doc: Document, rs: Seq<Runner>, i: int) -> Option<ManifestErrorView>
    decreases rs.len() - i,
{
    if i < 0 || i >= rs.len() {
        None
    } else {
        match component_ref_check(doc, "\"runner\" source"@, rs[i].from) {
            Some(e) => Some(e),
            None => runner_sources_from(doc, rs, i + 1),
        }
    }
}

/// The refusal for the first environment declaration, from position `i` on, that fails.
pub open spec fn environments_check_from(doc: Document, es: Seq<Environment>, i: int) -> Option<ManifestErrorView>
    decreases es.len() - i,
{
    if i < 0 || i >= es.len() {
        None
    } else {
        match env_check(doc, es[i]) {
            Some(e) => Some(e),
            None => environments_check_from(doc, es, i + 1),
        }
    }
}

/// The first refusal of `a`, else that of `b`.
pub open spec fn first_of(a: Option<ManifestErrorView>, b: Option<ManifestErrorView>) -> Option<ManifestErrorView> {
    match a {
        Some(e) => Some(e),
        None => b,
    }
}

/// The checks of a manifest that follow its offers, in order: the sources
/// of storage and runners, the runner of a program, and environments.
pub open spec fn closing_checks(doc: Document) -> Option<ManifestErrorView> {
    let envs = environments_check_from(doc, doc.environments@, 0);
    let program = first_of(runner_specified_check(doc.program, doc.uses@), envs);
    let runners = first_of(runner_sources_from(doc, doc.runners@, 0), program);
    first_of(storage_sources_from(doc, doc.storage@, 0), runners)
}

/// The checks that follow the collection of the used event names `events`,
/// in order: children, collections, uses, exposes, offers, then
/// `closing_checks`.
pub open spec fn checks_with_events(doc: Document, events: Seq<Seq<char>>) -> Option<ManifestErrorView> {
    let offers = first_of(offers_check_from(doc, doc.offers@, 0, Seq::empty()), closing_checks(doc));
    let exposes = first_of(exposes_check_from(doc, doc.exposes@, 0, Seq::empty()), offers);
    let uses = first_of(uses_check_from(doc, events, doc.uses@, 0, Seq::empty()), exposes);
    let collections = first_of(collections_check_from(doc, doc.collections@, 0), uses);
    first_of(children_check_from(doc, doc.children@, 0), collections)
}

/// The first violation of a manifest other than a cycle of strong
/// dependencies, if there is one: a name declared twice, a failing alias of
/// a used event, then the checks of `checks_with_events`.
pub open spec fn first_violation(doc: Document) -> Option<ManifestErrorView> {
    match duplicate_name_message(named_entries(doc), named_entries(doc).len() as int) {
        Some(m) => verr(m),
        None => match event_names_from(doc.uses@, 0) {
            Err(e) => Some(e),
            Ok(events) => checks_with_events(doc, events),
        },
    }
}

/// Whether a manifest is valid: it has no violation, and its strong
/// dependencies form no cycle.
pub open spec fn document_valid(doc: Document) -> bool {
    first_violation(doc) is None && strong_dependencies_acyclic(strong_edges(doc))
}

/// Whether `e` refuses a manifest for cycles among the strong dependencies
/// `es`: the cycle refusal, then ` Cycles: ` and a listing of one or more
/// cycles of `es`.
pub open spec fn cycle_refusal(e: ManifestErrorView, es: Seq<((bool, Seq<char>), (bool, Seq<char>))>) -> bool {
    exists|cs: Seq<Seq<(bool, Seq<char>)>>|
        cs.len() > 0 && (forall|i: int| 0 <= i < cs.len() ==> is_cycle(es, #[trigger] cs[i]))
        && e == ManifestErrorView::Validate(DEPENDENCY_CYCLE@ + " Cycles: "@ + #[trigger] cycles_text(cs))
}

/// Validates a component manifest: it is refused with its first violation,
/// in the order of `first_violation`; failing that, a manifest whose strong
/// dependencies form cycles is refused with a listing of such cycles; it is
/// accepted otherwise.
pub fn validate_document(doc: &Document) -> (r: Result<(), ManifestError>)
    ensures
        r is Ok <==> document_valid(*doc),
        first_violation(*doc) is Some ==> (r matches Err(e) && Some(e@) == first_violation(*doc)),
        first_violation(*doc) is None && !strong_dependencies_acyclic(strong_edges(*doc)) ==> (r matches Err(e)
            && cycle_refusal(e@, strong_edges(*doc))),
        r is Ok ==> strong_dependencies_acyclic(strong_edges(*doc)),
{
    let mut entries: Vec<(String, String)> = Vec::new();
    assert(pairs_view(entries@) =~= Seq::empty());
    push_child_entries(doc, &mut entries);
    push_collection_entries(doc, &mut entries);
    push_storage_entries(doc, &mut entries);
    push_runner_entries(doc, &mut entries);
    push_resolver_entries(doc, &mut entries);
    push_environment_entries(doc, &mut entries);
    assert(pairs_view(entries@) =~= named_entries(*doc));
    match ensure_no_duplicate_names(&entries) {
        Ok(()) => {},
        Err(e) => return Err(e),
    }
    let ctx = match ValidationContext::new(doc) {
        Ok(c) => c,
        Err(e) => return Err(e),
    };
    let r = ctx.validate_all();
    r
}

impl<'a> ValidationContext<'a> {
    /// Makes the context for validating `doc`: the names of the events its
    /// `use` clauses use, or the refusal of an alias among them.
    pub fn new(doc: &'a Document) -> (r: Result<Self, ManifestError>)
        ensures
            match event_names_from(doc.uses@, 0) {
                Ok(ns) => r matches Ok(c) && c.document == doc && strs_view(c.event_names@) == ns,
                Err(e) => r matches Err(x) && x@ == e,
            },
    {
        match all_event_names(doc) {
            Ok(v) => Ok(ValidationContext { document: doc, event_names: v }),
            Err(e) => Err(e),
        }
    }
}

impl<'a> ValidationContext<'a> {
    /// Checks the environments of all children.
    fn validate_children(&self) -> (r: Result<(), ManifestError>)
        ensures
            check_view(r) == children_check_from(*self.document, self.document.children@, 0),
    {
        let doc = self.document;
        let mut i: usize = 0;
        while i < doc.children.len()
            invariant
                doc == self.document,
                i <= doc.children@.len(),
                children_check_from(*doc, doc.children@, 0) == children_check_from(*doc, doc.children@, i as int),
            decreases doc.children@.len() - i,
        {
            let r = self.validate_child(&doc.children[i]);
            if r.is_err() {
                return r;
            }
            i = i + 1;
        }
        Ok(())
    }

    /// Checks the environments of all collections.
    fn validate_collections(&self) -> (r: Result<(), ManifestError>)
        ensures
            check_view(r) == collections_check_from(*self.document, self.document.collections@, 0),
    {
        let doc = self.document;
        let mut i: usize = 0;
        while i < doc.collections.len()
            invariant
                doc == self.document,
                i <= doc.collections@.len(),
                collections_check_from(*doc, doc.collections@, 0) == collections_check_from(*doc, doc.collections@, i as int),
            decreases doc.collections@.len() - i,
        {
            let r = self.validate_collection(&doc.collections[i]);
            if r.is_err() {
                return r;
            }
            i = i + 1;
        }
        Ok(())
    }

    /// Checks all `use` clauses, in order.
    fn validate_uses(&self) -> (r: Result<(), ManifestError>)
        ensures
            check_view(r) == uses_check_from(*self.document, strs_view(self.event_names@), self.document.uses@, 0, Seq::empty()),
    {
        let doc = self.document;
        let ghost events = strs_view(self.event_names@);
        let mut used: Vec<CapabilityId> = Vec::new();
        assert(ids_view(used@) =~= Seq::empty());
        let mut i: usize = 0;
        while i < doc.uses.len()
            invariant
                doc == self.document,
                i <= doc.uses@.len(),
                events == strs_view(self.event_names@),
                uses_check_from(*doc, events, doc.uses@, 0, Seq::empty()) == uses_check_from(*doc, events, doc.uses@, i as int, ids_view(used@)),
            decreases doc.uses@.len() - i,
        {
            let r = self.validate_use(&doc.uses[i], &mut used);
            if r.is_err() {
                return r;
            }
            i = i + 1;
        }
        Ok(())
    }

    /// Checks all `expose` clauses, in order.
    fn validate_exposes(&self) -> (r: Result<(), ManifestError>)
        ensures
            check_view(r) == exposes_check_from(*self.document, self.document.exposes@, 0, Seq::empty()),
    {
        let doc = self.document;
        let mut used: Vec<CapabilityId> = Vec::new();
        assert(ids_view(used@) =~= Seq::empty());
        let mut i: usize = 0;
        while i < doc.exposes.len()
            invariant
                doc == self.document,
                i <= doc.exposes@.len(),
                exposes_check_from(*doc, doc.exposes@, 0, Seq::empty()) == exposes_check_from(*doc, doc.exposes@, i as int, ids_view(used@)),
            decreases doc.exposes@.len() - i,
        {
            let r = self.validate_expose(&doc.exposes[i], &mut used);
            if r.is_err() {
                return r;
            }
            i = i + 1;
        }
        Ok(())
    }

    /// Checks all `offer` clauses, in order.
    fn validate_offers(&self) -> (r: Result<(), ManifestError>)
        ensures
            check_view(r) == offers_check_from(*self.document, self.document.offers@, 0, Seq::empty()),
    {
        let doc = self.document;
        let mut offered: Vec<(String, CapabilityId)> = Vec::new();
        assert(offered_view(offered@) =~= Seq::empty());
        let mut i: usize = 0;
        while i < doc.offers.len()
            invariant
                doc == self.document,
                i <= doc.offers@.len(),
                offers_check_from(*doc, doc.offers@, 0, Seq::empty()) == offers_check_from(*doc, doc.offers@, i as int, offered_view(offered@)),
            decreases doc.offers@.len() - i,
        {
            let r = self.validate_offer(&doc.offers[i], &mut offered);
            if r.is_err() {
                return r;
            }
            i = i + 1;
        }
        Ok(())
    }

    /// Checks the sources of all storage declarations.
    fn validate_storage_sources(&self) -> (r: Result<(), ManifestError>)
        ensures
            check_view(r) == storage_sources_from(*self.document, self.document.storage@, 0),
    {
        let doc = self.document;
        let mut i: usize = 0;
        while i < doc.storage.len()
            invariant
                doc == self.document,
                i <= doc.storage@.len(),
                storage_sources_from(*doc, doc.storage@, 0) == storage_sources_from(*doc, doc.storage@, i as int),
            decreases doc.storage@.len() - i,
        {
            let r = self.validate_component_ref("\"storage\" source", &doc.storage[i].from);
            if r.is_err() {
                return r;
            }
            i = i + 1;
        }
        Ok(())
    }

    /// Checks the sources of all runner declarations.
    fn validate_runner_sources(&self) -> (r: Result<(), ManifestError>)
        ensures
            check_view(r) == runner_sources_from(*self.document, self.document.runners@, 0),
    {
        let doc = self.document;
        let mut i: usize = 0;
        while i < doc.runners.len()
            invariant
                doc == self.document,
                i <= doc.runners@.len(),
                runner_sources_from(*doc, doc.runners@, 0) == runner_sources_from(*doc, doc.runners@, i as int),
            decreases doc.runners@.len() - i,
        {
            let r = self.validate_component_ref("\"runner\" source", &doc.runners[i].from);
            if r.is_err() {
                return r;
            }
            i = i + 1;
        }
        Ok(())
    }

    /// Checks all environment declarations.
    fn validate_environments(&self) -> (r: Result<(), ManifestError>)
        ensures
            check_view(r) == environments_check_from(*self.document, self.document.environments@, 0),
    {
        let doc = self.document;
        let mut i: usize = 0;
        while i < doc.environments.len()
            invariant
                doc == self.document,
                i <= doc.environments@.len(),
                environments_check_from(*doc, doc.environments@, 0) == environments_check_from(*doc, doc.environments@, i as int),
            decreases doc.environments@.len() - i,
        {
            let r = self.validate_environment(&doc.environments[i]);
            if r.is_err() {
                return r;
            }
            i = i + 1;
        }
        Ok(())
    }

    /// Runs the checks of `checks_with_events` on the context's manifest.
    fn validate_all(&self) -> (r: Result<(), ManifestError>)
        ensures
            checks_with_events(*self.document, strs_view(self.event_names@)) is Some ==> check_view(r)
                == checks_with_events(*self.document, strs_view(self.event_names@)),
            checks_with_events(*self.document, strs_view(self.event_names@)) is None ==> (r is Ok
                <==> strong_dependencies_acyclic(strong_edges(*self.document))),
            checks_with_events(*self.document, strs_view(self.event_names@)) is None
                && !strong_dependencies_acyclic(strong_edges(*self.document)) ==> (r matches Err(e) && cycle_refusal(
                e@,
                strong_edges(*self.document),
            )),
    {
        let r = self.validate_children();
        if r.is_err() {
            return r;
        }
        let r = self.validate_collections();
        if r.is_err() {
            return r;
        }
        let r = self.validate_uses();
        if r.is_err() {
            return r;
        }
        let r = self.validate_exposes();
        if r.is_err() {
            return r;
        }
        let r = self.validate_offers();
        if r.is_err() {
            return r;
        }
        let r = self.validate_storage_sources();
        if r.is_err() {
            return r;
        }
        let r = self.validate_runner_sources();
        if r.is_err() {
            return r;
        }
        let r = validate_runner_specified(self.document.program, &self.document.uses);
        if r.is_err() {
            return r;
        }
        let r = self.validate_environments();
        if r.is_err() {
            return r;
        }
        let edges = strong_dependencies(self.document);
        if !is_acyclic(&edges) {
            let cycles = find_cycles(&edges);
            let mut m = String::from_str(DEPENDENCY_CYCLE);
            m.append(" Cycles: ");
            let listing = format_cycles(&cycles);
            m.append(listing.as_str());
            proof {
                let cs = cycles_view(cycles@);
                assert forall|i: int| 0 <= i < cs.len() implies is_cycle(strong_edges(*self.document), #[trigger] cs[i]) by {
                    assert(cs[i] == nodes_view(cycles@[i]@));
                }
                assert(ManifestError::Validate(m)@ == ManifestErrorView::Validate(DEPENDENCY_CYCLE@ + " Cycles: "@ + cycles_text(cs)));
            }
            return Err(ManifestError::Validate(m));
        }
        Ok(())
    }
}

/// Refusal of a file whose extension names no kind of component manifest.
pub const BAD_EXTENSION: &'static str =
    "Input file does not have a component manifest extension (.cml or .cmx)";

/// A name for what `std::path::Path::new(p).extension()` gives, as text:
/// the part of the final component after its last dot, if there is one.
pub uninterp spec fn path_extension(p: Seq<char>) -> Option<Seq<char>>;

/// Calls `std::path::Path::extension` on `p`; the result is claimed to be
/// `path_extension` of the characters of `p`. The extension of a path made
/// from a `str` is valid UTF-8, so its conversion to text always succeeds.
#[verifier::external_body]
fn extension_of(p: &str) -> (r: Option<String>)
    ensures
        match r {
            None => path_extension(p@) is None,
            Some(e) => path_extension(p@) == Some(e@),
        },
{
    std::path::Path::new(p).extension().and_then(|e| e.to_str()).map(|e| e.to_string())
}

/// The kinds of component manifest files.
#[derive(Debug, Clone, Copy, PartialEq, Eq, Structural)]
pub enum ManifestFormat {
    /// A `.cmx` file, validated against a JSON schema.
    Cmx,
    /// A `.cml` file, parsed and validated as a `Document`.
    Cml,
}

/// The kind of manifest a file holds by its extension, or its refusal.
pub open spec fn manifest_format(p: Seq<char>) -> Result<ManifestFormat, ManifestErrorView> {
    match path_extension(p) {
        Some(e) => if e == "cmx"@ {
            Ok(ManifestFormat::Cmx)
        } else if e == "cml"@ {
            Ok(ManifestFormat::Cml)
        } else {
            Err(ManifestErrorView::InvalidArgs(BAD_EXTENSION@))
        },
        None => Err(ManifestErrorView::InvalidArgs(BAD_EXTENSION@)),
    }
}

/// Decides by its extension what kind of component manifest the file at
/// `path` holds: `.cmx` and `.cml` files are manifests, anything else is refused.
pub fn manifest_format_of(path: &str) -> (r: Result<ManifestFormat, ManifestError>)
    ensures
        match manifest_format(path@) {
            Ok(f) => r == Ok::<ManifestFormat, ManifestError>(f),
            Err(e) => r matches Err(x) && x@ == e,
        },
{
    match extension_of(path) {
        Some(e) => {
            if e == String::from_str("cmx") {
                Ok(ManifestFormat::Cmx)
            } else if e == String::from_str("cml") {
                Ok(ManifestFormat::Cml)
            } else {
                Err(ManifestError::InvalidArgs(String::from_str(BAD_EXTENSION)))
            }
        },
        None => Err(ManifestError::InvalidArgs(String::from_str(BAD_EXTENSION))),
    }
}


/// A runner registered among the first `k` of `rs` under `name` is one of them.
proof fn lemma_runner_before_found(rs: Seq<RunnerRegistration>, name: Seq<char>, k: int)
    ensures
        runner_before(rs, name, k) is Some ==> exists|j: int| 0 <= j < k && #[trigger] reg_name(rs[j]) == name,
    decreases k,
{
    if k > 0 && reg_name(rs[k - 1]) != name {
        lemma_runner_before_found(rs, name, k - 1);
    }
}

/// An environment whose runner registrations come from the component itself
/// only for runners that the manifest declares, and from a child only where
/// the manifest declares that child, under names that differ from one
/// another, passes the checks of its runner registrations.
pub proof fn law_declared_runners_pass(doc: Document, rs: Seq<RunnerRegistration>, k: int)
    requires
        0 <= k,
        forall|j: int| 0 <= j < rs.len() && (#[trigger] rs[j]).from is Self_ ==> exists|i: int|
            0 <= i < doc.runners@.len() && (#[trigger] doc.runners@[i]).name@ == rs[j].runner@,
        forall|j: int| 0 <= j < rs.len() && (#[trigger] rs[j]).from is Named ==> exists|i: int|
            0 <= i < doc.children@.len() && (#[trigger] doc.children@[i]).name@ == rs[j].from->Named_0@,
        forall|j1: int, j2: int| 0 <= j1 < j2 < rs.len() ==> reg_name(#[trigger] rs[j1]) != reg_name(#[trigger] rs[j2]),
    ensures
        env_runners_from(doc, rs, k) is None,
    decreases rs.len() - k,
{
    if k < rs.len() {
        lemma_runner_before_found(rs, reg_name(rs[k]), k);
        if runner_before(rs, reg_name(rs[k]), k) is Some {
            let j = choose|j: int| 0 <= j < k && #[trigger] reg_name(rs[j]) == reg_name(rs[k]);
            assert(reg_name(rs[j]) != reg_name(rs[k]));
        }
        if rs[k].from is Self_ {
            let i = choose|i: int| 0 <= i < doc.runners@.len() && (#[trigger] doc.runners@[i]).name@ == rs[k].runner@;
            assert(has_runner(doc, rs[k].runner@));
        }
        if rs[k].from is Named {
            let i = choose|i: int| 0 <= i < doc.children@.len() && (#[trigger] doc.children@[i]).name@ == rs[k].from->Named_0@;
            assert(has_child(doc, rs[k].from->Named_0@));
        }
        law_declared_runners_pass(doc, rs, k + 1);
    }
}

/// A runner registration from the component itself whose runner the
/// manifest does not declare, under a name no earlier registration uses, is
/// refused as a runner that is not in `runners`.
pub proof fn law_undeclared_runner_refused(doc: Document, rs: Seq<RunnerRegistration>, k: int)
    requires
        0 <= k < rs.len(),
        rs[k].from is Self_,
        forall|i: int| 0 <= i < doc.runners@.len() ==> (#[trigger] doc.runners@[i]).name@ != rs[k].runner@,
        forall|j: int| 0 <= j < k ==> reg_name(#[trigger] rs[j]) != reg_name(rs[k]),
    ensures
        env_runners_from(doc, rs, k) == Some(
            ManifestErrorView::Validate(
                "Runner \""@ + rs[k].runner@ + "\" registered in environment is not in \"runners\""@,
            ),
        ),
{
    lemma_runner_before_found(rs, reg_name(rs[k]), k);
}

/// An offer of a directory or a protocol marked weak adds no edge to the
/// graph of strong dependencies, whatever its sources and targets.
pub proof fn law_weak_offer_adds_no_edge(o: Offer, m: int)
    requires
        o.clause.directory is Some || o.clause.protocol is Some,
        o.dependency == Some(Dependency::WeakForMigration),
    ensures
        offer_edges_to(o, m) == Seq::<((bool, Seq<char>), (bool, Seq<char>))>::empty(),
    decreases o.to@.len() - m,
{
    if 0 <= m < o.to@.len() {
        law_weak_offer_adds_no_edge(o, m + 1);
        assert(Seq::<((bool, Seq<char>), (bool, Seq<char>))>::empty() + Seq::empty() =~= Seq::empty());
    }
}

/// An offer from a child `c` to a child `t` adds the edge from `c` to `t`
/// when it is strong: when it is marked strong, carries no mark, or offers
/// something other than a directory or a protocol.
pub proof fn law_strong_offer_adds_edge(o: Offer, c: String, t: String)
    requires
        o.from == Refs::One(Ref::Named(c)),
        o.to@ == seq![t],
        o.dependency is None || o.dependency == Some(Dependency::Strong) || (o.clause.directory is None
            && o.clause.protocol is None),
    ensures
        offer_edges_to(o, 0) == seq![(child_node(c@), child_node(t@))],
{
    assert(offer_edges_to(o, 1) == Seq::<((bool, Seq<char>), (bool, Seq<char>))>::empty());
    assert(from_edges(seq![Ref::Named(c)], t@, 1) == Seq::<((bool, Seq<char>), (bool, Seq<char>))>::empty());
    assert(from_edges(seq![Ref::Named(c)], t@, 0) =~= seq![(child_node(c@), child_node(t@))]);
    assert(offer_edges_to(o, 0) =~= seq![(child_node(c@), child_node(t@))]);
}

/// An offer of one protocol from the realm to a declared child or a
/// declared collection `t`, which has not been offered that protocol
/// before, passes the checks of that target and records the protocol as
/// offered to `t`.
pub proof fn law_offer_to_declared_target(
    doc: Document,
    used: Seq<(Seq<char>, (IdKind, Seq<char>))>,
    o: Offer,
    p: String,
    t: Seq<char>,
)
    requires
        (exists|i: int| 0 <= i < doc.children@.len() && (#[trigger] doc.children@[i]).name@ == t) || (exists|i: int|
            0 <= i < doc.collections@.len() && (#[trigger] doc.collections@[i]).name@ == t),
        o.clause.service is None,
        o.clause.protocol == Some(OneOrMany::One(p)),
        o.clause.alias is None,
        o.clause.storage is None,
        o.from == Refs::One(Ref::Realm),
        forall|j: int| 0 <= j < used.len() ==> !((#[trigger] used[j]).0 == t && used[j].1.1 == p@),
    ensures
        offer_target_check(doc, used, o, t) == Ok::<Seq<(Seq<char>, (IdKind, Seq<char>))>, ManifestErrorView>(
            used.push((t, (IdKind::Protocol, p@))),
        ),
{
    let ids = seq![(IdKind::Protocol, p@)];
    assert(clause_ids(o.clause) == Ok::<Seq<(IdKind, Seq<char>)>, ManifestErrorView>(ids));
    assert(!target_key_used(used, t, p@));
    assert(offer_ids_from(ids, used.push((t, ids[0])), t, 1) == Ok::<Seq<(Seq<char>, (IdKind, Seq<char>))>, ManifestErrorView>(used.push((t, ids[0]))));
    assert(named_source_from(seq![Ref::Realm], t, 1) is None);
    assert(same_source_check(doc, o, t) is None);
}

/// An offer to `t`, which the manifest declares neither as a child nor as a
/// collection, is refused as an offer to an unknown target.
pub proof fn law_offer_to_unknown_target(doc: Document, used: Seq<(Seq<char>, (IdKind, Seq<char>))>, o: Offer, t: Seq<char>)
    requires
        forall|i: int| 0 <= i < doc.children@.len() ==> (#[trigger] doc.children@[i]).name@ != t,
        forall|i: int| 0 <= i < doc.collections@.len() ==> (#[trigger] doc.collections@[i]).name@ != t,
    ensures
        offer_target_check(doc, used, o, t) == Err::<Seq<(Seq<char>, (IdKind, Seq<char>))>, ManifestErrorView>(
            ManifestErrorView::Validate(
                "\"#"@ + t + "\" is an \"offer\" target but it does not appear in \"children\" or \"collections\""@,
            ),
        ),
{
}

/// A resolver registered among the first `k` of `rs` for `scheme` is one of them.
proof fn lemma_resolver_before_found(rs: Seq<ResolverRegistration>, scheme: Seq<char>, k: int)
    ensures
        resolver_before(rs, scheme, k) is Some ==> exists|j: int| 0 <= j < k && (#[trigger] rs[j]).scheme@ == scheme,
    decreases k,
{
    if k > 0 && rs[k - 1].scheme@ != scheme {
        lemma_resolver_before_found(rs, scheme, k - 1);
    }
}

/// An environment whose resolver registrations come from a child only where
/// the manifest declares that child, each for a scheme of its own, passes
/// the checks of its resolver registrations.
pub proof fn law_declared_resolvers_pass(doc: Document, rs: Seq<ResolverRegistration>, k: int)
    requires
        0 <= k,
        forall|j: int| 0 <= j < rs.len() && (#[trigger] rs[j]).from is Named ==> exists|i: int|
            0 <= i < doc.children@.len() && (#[trigger] doc.children@[i]).name@ == rs[j].from->Named_0@,
        forall|j1: int, j2: int| 0 <= j1 < j2 < rs.len() ==> (#[trigger] rs[j1]).scheme@ != (#[trigger] rs[j2]).scheme@,
    ensures
        env_resolvers_from(doc, rs, k) is None,
    decreases rs.len() - k,
{
    if k < rs.len() {
        lemma_resolver_before_found(rs, rs[k].scheme@, k);
        if resolver_before(rs, rs[k].scheme@, k) is Some {
            let j = choose|j: int| 0 <= j < k && (#[trigger] rs[j]).scheme@ == rs[k].scheme@;
            assert(rs[j].scheme@ != rs[k].scheme@);
        }
        if rs[k].from is Named {
            let i = choose|i: int| 0 <= i < doc.children@.len() && (#[trigger] doc.children@[i]).name@ == rs[k].from->Named_0@;
            assert(has_child(doc, rs[k].from->Named_0@));
        }
        law_declared_resolvers_pass(doc, rs, k + 1);
    }
}

} // verus!
