//! Entity models, reference parsing and canonicalization, and the
//! existence index.
//!
//! A reference string follows the grammar `[kind:][namespace/]name`.
//! Parsing is total: missing parts are filled from a caller-supplied
//! default kind and the `default` namespace, and the two `*_inferred`
//! flags record which parts were filled in. The canonical key
//! `kind:namespace/name` is the identity under which entities are
//! indexed.

use vstd::prelude::*;

use crate::text::find_char;
use crate::text::first_index_of;
use crate::text::has_char;
use crate::text::is_first_index_of;
use crate::text::is_lower_char;
use crate::text::is_lower_seq;
use crate::text::lemma_first_index_is;
use crate::text::lemma_first_index_of;
use crate::text::lemma_lower_seq_idempotent;
use crate::text::lower_seq;
use crate::text::str_eq_str;
use crate::text::to_ascii_lower;
use crate::value::spec_get_str;
use crate::value::value_eq;
use crate::value::Value;

verus! {


/// A structured validation finding, with the document path it
/// concerns and a human-readable message.
#[derive(Debug, Clone)]
pub struct ValidationError {
    pub path: String,
    pub message: String,
}

/// A parsed entity reference with resolved kind and namespace.
///
/// Two references with the same kind, namespace and name but different
/// `*_inferred` flags are not structurally equal, although their
/// canonical strings are equal; callers rely on both comparisons.
#[derive(Debug, Clone, PartialEq, Eq, Hash)]
pub struct EntityRef {
    pub kind: String,
    pub namespace: String,
    pub name: String,
    pub kind_inferred: bool,
    pub namespace_inferred: bool,
}

/// The mathematical model of an [`EntityRef`]: its parts as character
/// sequences.
#[verifier::ext_equal]
pub struct EntityRefV {
    pub kind: Seq<char>,
    pub namespace: Seq<char>,
    pub name: Seq<char>,
    pub kind_inferred: bool,
    pub namespace_inferred: bool,
}

impl View for EntityRef {
    type V = EntityRefV;

    open spec fn view(&self) -> EntityRefV {
        EntityRefV {
            kind: self.kind@,
            namespace: self.namespace@,
            name: self.name@,
            kind_inferred: self.kind_inferred,
            namespace_inferred: self.namespace_inferred,
        }
    }
}

/// The namespace assumed when a reference or an entity names none.
pub open spec fn default_namespace() -> Seq<char> {
    seq!['d', 'e', 'f', 'a', 'u', 'l', 't']
}

/// Split a reference at the first `:`: the lowercased left side is the
/// kind; without a `:` the kind is the lowercased default and the whole
/// input remains.
pub open spec fn split_kind(v: Seq<char>, d: Seq<char>) -> (Seq<char>, Seq<char>, bool) {
    if has_char(v, ':') {
        let i = first_index_of(v, ':');
        (lower_seq(v.take(i)), v.skip(i + 1), false)
    } else {
        (lower_seq(d), v, true)
    }
}

/// Split the remainder at the first `/`: the left side is the
/// namespace; without a `/` the namespace is `default`.
pub open spec fn split_namespace(rest: Seq<char>) -> (Seq<char>, Seq<char>, bool) {
    if has_char(rest, '/') {
        let i = first_index_of(rest, '/');
        (rest.take(i), rest.skip(i + 1), false)
    } else {
        (default_namespace(), rest, true)
    }
}

/// What parsing a reference string under a default kind yields.
pub open spec fn parse_spec(v: Seq<char>, d: Seq<char>) -> EntityRefV {
    let (kind, rest, kind_inferred) = split_kind(v, d);
    let (namespace, name, namespace_inferred) = split_namespace(rest);
    EntityRefV { kind, namespace, name, kind_inferred, namespace_inferred }
}

/// The canonical key `kind:namespace/name` of a reference.
pub open spec fn canonical_of(r: EntityRefV) -> Seq<char> {
    r.kind + seq![':'] + r.namespace + seq!['/'] + r.name
}

/// Membership in the fixed set of known kinds.
pub open spec fn is_known_kind_spec(k: Seq<char>) -> bool {
    ||| k == "component"@
    ||| k == "api"@
    ||| k == "resource"@
    ||| k == "system"@
    ||| k == "domain"@
    ||| k == "group"@
    ||| k == "user"@
    ||| k == "location"@
}

impl EntityRef {
    /// Parse an entity reference string of the form
    /// `[kind:][namespace/]name`, filling missing parts from the
    /// default kind and the `default` namespace. Total: no input is
    /// rejected.
    pub fn parse(reference: &str, default_kind: &str) -> (r: EntityRef)
        ensures
            r@ == parse_spec(reference@, default_kind@),
    {
        let n = reference.unicode_len();
        let (kind, rest, kind_inferred): (String, &str, bool) = match find_char(reference, ':') {
            Some(i) => {
                proof {
                    lemma_first_index_is(reference@, ':', i as int);
                }
                let pre = reference.substring_char(0, i);
                let post = reference.substring_char(i + 1, n);
                proof {
                    assert(pre@ =~= reference@.take(i as int));
                    assert(post@ =~= reference@.skip(i + 1));
                }
                (to_ascii_lower(pre), post, false)
            },
            None => (to_ascii_lower(default_kind), reference, true),
        };
        let m = rest.unicode_len();
        let (namespace, name, namespace_inferred): (String, String, bool) = match find_char(
            rest,
            '/',
        ) {
            Some(i) => {
                proof {
                    lemma_first_index_is(rest@, '/', i as int);
                }
                let pre = rest.substring_char(0, i);
                let post = rest.substring_char(i + 1, m);
                proof {
                    assert(pre@ =~= rest@.take(i as int));
                    assert(post@ =~= rest@.skip(i + 1));
                }
                (String::from_str(pre), String::from_str(post), false)
            },
            None => {
                let ns = String::from_str("default");
                proof {
                    reveal_strlit("default");
                    assert(ns@ =~= default_namespace());
                }
                (ns, String::from_str(rest), true)
            },
        };
        EntityRef { kind, namespace, name, kind_inferred, namespace_inferred }
    }

    /// The canonical reference string `kind:namespace/name`.
    pub fn canonical(&self) -> (r: String)
        ensures
            r@ == canonical_of(self@),
    {
        let mut s = self.kind.clone();
        s.append(":");
        s.append(self.namespace.as_str());
        s.append("/");
        s.append(self.name.as_str());
        proof {
            reveal_strlit(":");
            reveal_strlit("/");
            assert(":"@ =~= seq![':']);
            assert("/"@ =~= seq!['/']);
        }
        s
    }

    /// Whether the kind belongs to the fixed set of known kinds.
    pub fn is_known_kind(&self) -> (r: bool)
        ensures
            r == is_known_kind_spec(self.kind@),
    {
        let k = self.kind.as_str();
        str_eq_str(k, "component") || str_eq_str(k, "api") || str_eq_str(k, "resource")
            || str_eq_str(k, "system") || str_eq_str(k, "domain") || str_eq_str(k, "group")
            || str_eq_str(k, "user") || str_eq_str(k, "location")
    }
}

/// Reassembling the three pieces that parsing cut out of `s` yields
/// `s` again, whenever the piece before the first `:` is already
/// lowercase and the remainder holds a `/`.
pub proof fn lemma_canonical_reassembly(s: Seq<char>, d: Seq<char>)
    requires
        has_char(s, ':'),
        forall|j: int| 0 <= j < first_index_of(s, ':') ==> is_lower_char(#[trigger] s[j]),
        has_char(s.skip(first_index_of(s, ':') + 1), '/'),
    ensures
        canonical_of(parse_spec(s, d)) == s,
{
    lemma_first_index_of(s, ':');
    let i = first_index_of(s, ':');
    let rest = s.skip(i + 1);
    assert(lower_seq(s.take(i)) =~= s.take(i));
    lemma_first_index_of(rest, '/');
    let j = first_index_of(rest, '/');
    let r = parse_spec(s, d);
    assert(r.kind == s.take(i));
    assert(r.namespace == rest.take(j));
    assert(r.name == rest.skip(j + 1));
    assert(canonical_of(r) =~= s);
}

/// Canonical stability: re-parsing the canonical string of any parsed
/// reference, under any default kind, reproduces the same canonical
/// string.
pub proof fn lemma_canonical_stability(v: Seq<char>, d: Seq<char>, d2: Seq<char>)
    ensures
        canonical_of(parse_spec(canonical_of(parse_spec(v, d)), d2)) == canonical_of(
            parse_spec(v, d),
        ),
{
    let r = parse_spec(v, d);
    lemma_parsed_canonical_fixed(r, d2);
}

/// The canonical string of any parsed reference is a fixed point of
/// parse-then-canonicalize, whatever default kind the second parse
/// uses.
pub proof fn lemma_parsed_canonical_fixed(r: EntityRefV, d2: Seq<char>)
    requires
        is_lower_seq(r.kind),
    ensures
        canonical_of(parse_spec(canonical_of(r), d2)) == canonical_of(r),
{
    let s = canonical_of(r);
    let k = r.kind;
    assert(s[k.len() as int] == ':');
    assert(has_char(s, ':'));
    lemma_first_index_of(s, ':');
    let i = first_index_of(s, ':');
    assert(i <= k.len());
    assert(forall|j: int| 0 <= j < i ==> is_lower_char(#[trigger] s[j])) by {
        assert(forall|j: int| 0 <= j < i ==> s[j] == k[j]);
    }
    let rest = s.skip(i + 1);
    let slash: int = k.len() + 1 + r.namespace.len() as int;
    assert(s[slash] == '/');
    assert(rest[slash - (i + 1)] == '/');
    assert(has_char(rest, '/'));
    lemma_canonical_reassembly(s, d2);
}

/// Parsing an entity's reference key under any default kind and
/// canonicalizing the result reproduces the key unchanged.
pub proof fn lemma_ref_key_roundtrip(e: Entity, d: Seq<char>)
    ensures
        canonical_of(parse_spec(ref_key_spec(e), d)) == ref_key_spec(e),
{
    let k = kind_key_spec(e.kind);
    lemma_lower_seq_idempotent(kind_label_spec(e.kind));
    let r = EntityRefV {
        kind: k,
        namespace: ns_or_default(e.metadata.namespace),
        name: e.metadata.name@,
        kind_inferred: false,
        namespace_inferred: false,
    };
    assert(canonical_of(r) == ref_key_spec(e));
    lemma_parsed_canonical_fixed(r, d);
}

/// The kind of an entity: one of the eight known kinds, or `Unknown`
/// for anything else.
#[derive(Debug, Clone, Copy, PartialEq, Eq, Structural)]
pub enum EntityKind {
    Component,
    Api,
    Resource,
    System,
    Domain,
    Group,
    User,
    Location,
    Unknown,
}

/// The display label of a kind.
pub open spec fn kind_label_spec(k: EntityKind) -> Seq<char> {
    match k {
        EntityKind::Component => "Component"@,
        EntityKind::Api => "API"@,
        EntityKind::Resource => "Resource"@,
        EntityKind::System => "System"@,
        EntityKind::Domain => "Domain"@,
        EntityKind::Group => "Group"@,
        EntityKind::User => "User"@,
        EntityKind::Location => "Location"@,
        EntityKind::Unknown => "Unknown"@,
    }
}

/// The lowercase form of a kind's label, used in canonical keys.
pub open spec fn kind_key_spec(k: EntityKind) -> Seq<char> {
    lower_seq(kind_label_spec(k))
}

impl EntityKind {
    /// The display label of this kind.
    pub fn label(&self) -> (r: String)
        ensures
            r@ == kind_label_spec(*self),
    {
        match self {
            EntityKind::Component => String::from_str("Component"),
            EntityKind::Api => String::from_str("API"),
            EntityKind::Resource => String::from_str("Resource"),
            EntityKind::System => String::from_str("System"),
            EntityKind::Domain => String::from_str("Domain"),
            EntityKind::Group => String::from_str("Group"),
            EntityKind::User => String::from_str("User"),
            EntityKind::Location => String::from_str("Location"),
            EntityKind::Unknown => String::from_str("Unknown"),
        }
    }
}

/// A link attached to an entity's metadata.
#[derive(Debug, Clone)]
pub struct Link {
    pub url: Option<String>,
    pub title: Option<String>,
    pub icon: Option<String>,
}

/// An entity's metadata: its name, optional descriptive fields, and
/// label, annotation, tag and link collections.
#[derive(Debug, Clone)]
pub struct Metadata {
    pub name: String,
    pub title: Option<String>,
    pub namespace: Option<String>,
    pub description: Option<String>,
    pub labels: Vec<(String, String)>,
    pub annotations: Vec<(String, String)>,
    pub tags: Vec<String>,
    pub links: Vec<Link>,
}

/// A catalog entity: kind, metadata and a free-form `spec` document.
#[derive(Debug, Clone)]
pub struct Entity {
    pub api_version: String,
    pub kind: EntityKind,
    pub metadata: Metadata,
    pub spec: Value,
}

/// An entity together with the file it came from and any validation
/// findings recorded against it.
#[derive(Debug, Clone)]
pub struct EntityWithSource {
    pub entity: Entity,
    pub source_file: String,
    pub validation_errors: Vec<ValidationError>,
}

/// The namespace sequence of an optional namespace field, defaulting
/// to `default`.
pub open spec fn ns_or_default(ns: Option<String>) -> Seq<char> {
    match ns {
        Some(s) => s@,
        None => default_namespace(),
    }
}

/// The display name of an entity: its title when present, else its
/// name.
pub open spec fn display_name_spec(e: Entity) -> Seq<char> {
    match e.metadata.title {
        Some(t) => t@,
        None => e.metadata.name@,
    }
}

/// The canonical key `kind:namespace/name` of an entity.
pub open spec fn ref_key_spec(e: Entity) -> Seq<char> {
    kind_key_spec(e.kind) + seq![':'] + ns_or_default(e.metadata.namespace) + seq!['/']
        + e.metadata.name@
}

impl EntityWithSource {
    /// Wrap an entity with the file it was read from and no validation
    /// findings.
    pub fn new(entity: Entity, source_file: String) -> (r: EntityWithSource)
        ensures
            r.entity == entity,
            r.source_file@ == source_file@,
            r.validation_errors@.len() == 0,
    {
        EntityWithSource { entity, source_file, validation_errors: Vec::new() }
    }

    /// The same entity, carrying the given validation findings.
    pub fn with_validation_errors(self, errors: Vec<ValidationError>) -> (r: EntityWithSource)
        ensures
            r.entity == self.entity,
            r.source_file@ == self.source_file@,
            r.validation_errors == errors,
    {
        EntityWithSource {
            entity: self.entity,
            source_file: self.source_file,
            validation_errors: errors,
        }
    }
}

impl Entity {
    /// The display name: the title when present, else the name.
    pub fn display_name(&self) -> (r: String)
        ensures
            r@ == display_name_spec(*self),
    {
        match &self.metadata.title {
            Some(t) => t.clone(),
            None => self.metadata.name.clone(),
        }
    }

    /// The string bound to `key` in the `spec` document, when the
    /// document is a mapping binding `key` to a string.
    pub fn get_spec_string(&self, key: &str) -> (r: Option<String>)
        ensures
            match r {
                Some(s) => spec_get_str(self.spec, key@) == Some(s@),
                None => spec_get_str(self.spec, key@) is None,
            },
    {
        match self.spec.get(key) {
            Some(v) => match v.as_str() {
                Some(s) => Some(s.clone()),
                None => None,
            },
            None => None,
        }
    }

    /// The `system` field of the `spec` document, when present.
    pub fn system(&self) -> (r: Option<String>)
        ensures
            match r {
                Some(s) => spec_get_str(self.spec, "system"@) == Some(s@),
                None => spec_get_str(self.spec, "system"@) is None,
            },
    {
        self.get_spec_string("system")
    }

    /// The `domain` field of the `spec` document, when present.
    pub fn domain(&self) -> (r: Option<String>)
        ensures
            match r {
                Some(s) => spec_get_str(self.spec, "domain"@) == Some(s@),
                None => spec_get_str(self.spec, "domain"@) is None,
            },
    {
        self.get_spec_string("domain")
    }

    /// The `owner` field of the `spec` document, when present.
    pub fn owner(&self) -> (r: Option<String>)
        ensures
            match r {
                Some(s) => spec_get_str(self.spec, "owner"@) == Some(s@),
                None => spec_get_str(self.spec, "owner"@) is None,
            },
    {
        self.get_spec_string("owner")
    }

    /// The `lifecycle` field of the `spec` document, when present.
    pub fn lifecycle(&self) -> (r: Option<String>)
        ensures
            match r {
                Some(s) => spec_get_str(self.spec, "lifecycle"@) == Some(s@),
                None => spec_get_str(self.spec, "lifecycle"@) is None,
            },
    {
        self.get_spec_string("lifecycle")
    }

    /// The `type` field of the `spec` document, when present.
    pub fn entity_type(&self) -> (r: Option<String>)
        ensures
            match r {
                Some(s) => spec_get_str(self.spec, "type"@) == Some(s@),
                None => spec_get_str(self.spec, "type"@) is None,
            },
    {
        self.get_spec_string("type")
    }

    /// The canonical reference key `kind:namespace/name` of this
    /// entity, with the kind lowercased and the namespace defaulted.
    pub fn ref_key(&self) -> (r: String)
        ensures
            r@ == ref_key_spec(*self),
    {
        let label = self.kind.label();
        let mut s = to_ascii_lower(label.as_str());
        s.append(":");
        match &self.metadata.namespace {
            Some(ns) => s.append(ns.as_str()),
            None => s.append("default"),
        }
        s.append("/");
        s.append(self.metadata.name.as_str());
        proof {
            reveal_strlit(":");
            reveal_strlit("/");
            reveal_strlit("default");
            assert(":"@ =~= seq![':']);
            assert("/"@ =~= seq!['/']);
            assert("default"@ =~= default_namespace());
        }
        s
    }
}

/// An immutable set of canonical keys, built once per snapshot, for
/// existence checks on references.
#[derive(Debug, Clone)]
pub struct EntityIndex {
    keys: Vec<String>,
}

impl View for EntityIndex {
    type V = Seq<Seq<char>>;

    closed spec fn view(&self) -> Seq<Seq<char>> {
        Seq::new(self.keys@.len(), |i: int| self.keys@[i]@)
    }
}

/// The index holds exactly one key per snapshot entity, in order: the
/// entity's canonical reference key.
pub open spec fn index_models(keys: Seq<Seq<char>>, entities: Seq<EntityWithSource>) -> bool {
    &&& keys.len() == entities.len()
    &&& forall|i: int| 0 <= i < entities.len() ==> #[trigger] keys[i] == ref_key_spec(entities[i].entity)
}

/// Membership of a canonical key among a sequence of keys.
pub open spec fn index_has(keys: Seq<Seq<char>>, key: Seq<char>) -> bool {
    exists|i: int| 0 <= i < keys.len() && #[trigger] keys[i] == key
}

impl EntityIndex {
    /// Build the index of every entity's canonical key. Colliding keys
    /// collapse silently: membership is all that the index answers.
    #[verifier::loop_isolation(false)]
    pub fn build(entities: &Vec<EntityWithSource>) -> (r: EntityIndex)
        ensures
            index_models(r@, entities@),
    {
        let n = entities.len();
        let mut keys: Vec<String> = Vec::new();
        let mut i: usize = 0;
        while i < n
            invariant
                n == entities@.len(),
                0 <= i <= n,
                keys@.len() == i,
                forall|j: int|
                    0 <= j < i ==> (#[trigger] keys@[j])@ == ref_key_spec(entities@[j].entity),
            decreases n - i,
        {
            let k = entities[i].entity.ref_key();
            keys.push(k);
            i = i + 1;
        }
        EntityIndex { keys }
    }

    /// Whether the given reference's canonical key names an entity of
    /// the snapshot the index was built from.
    #[verifier::loop_isolation(false)]
    pub fn contains(&self, entity_ref: &EntityRef) -> (r: bool)
        ensures
            r == index_has(self@, canonical_of(entity_ref@)),
    {
        let key = entity_ref.canonical();
        let n = self.keys.len();
        proof {
            assert(self@.len() == self.keys@.len());
            assert(forall|j: int|
                0 <= j < self.keys@.len() ==> #[trigger] self@[j] == self.keys@[j]@);
        }
        let mut i: usize = 0;
        while i < n
            invariant
                n == self.keys@.len(),
                0 <= i <= n,
                key@ == canonical_of(entity_ref@),
                forall|j: int| 0 <= j < i ==> (#[trigger] self.keys@[j])@ != key@,
            decreases n - i,
        {
            if str_eq_str(self.keys[i].as_str(), key.as_str()) {
                proof {
                    assert(self@[i as int] == key@);
                }
                return true;
            }
            i = i + 1;
        }
        false
    }
}

impl Default for EntityIndex {
    /// An empty index, containing no key.
    fn default() -> (r: EntityIndex)
        ensures
            r@.len() == 0,
    {
        EntityIndex { keys: Vec::new() }
    }
}

/// Index self-consistency: every entity of the snapshot an index was
/// built from is found again when its own reference key is parsed
/// under any default kind.
pub proof fn lemma_index_self_consistent(
    keys: Seq<Seq<char>>,
    entities: Seq<EntityWithSource>,
    i: int,
    d: Seq<char>,
)
    requires
        index_models(keys, entities),
        0 <= i < entities.len(),
    ensures
        index_has(keys, canonical_of(parse_spec(ref_key_spec(entities[i].entity), d))),
{
    lemma_ref_key_roundtrip(entities[i].entity, d);
    assert(keys[i] == ref_key_spec(entities[i].entity));
}


/// Two optional strings agree character for character.
pub open spec fn opt_str_like(a: Option<String>, b: Option<String>) -> bool {
    match (a, b) {
        (Some(x), Some(y)) => x@ == y@,
        (None, None) => true,
        _ => false,
    }
}

/// Two key-value pair lists agree character for character.
pub open spec fn pairs_like(a: Seq<(String, String)>, b: Seq<(String, String)>) -> bool {
    &&& a.len() == b.len()
    &&& forall|i: int|
        0 <= i < a.len() ==> (#[trigger] a[i]).0@ == b[i].0@ && a[i].1@ == b[i].1@
}

/// Two string lists agree character for character.
pub open spec fn strings_like(a: Seq<String>, b: Seq<String>) -> bool {
    &&& a.len() == b.len()
    &&& forall|i: int| 0 <= i < a.len() ==> (#[trigger] a[i])@ == b[i]@
}

/// Two links agree field for field.
pub open spec fn link_like(a: Link, b: Link) -> bool {
    &&& opt_str_like(a.url, b.url)
    &&& opt_str_like(a.title, b.title)
    &&& opt_str_like(a.icon, b.icon)
}

/// Two link lists agree element for element.
pub open spec fn links_like(a: Seq<Link>, b: Seq<Link>) -> bool {
    &&& a.len() == b.len()
    &&& forall|i: int| 0 <= i < a.len() ==> link_like(#[trigger] a[i], b[i])
}

/// Two metadata records agree field for field.
pub open spec fn metadata_like(a: Metadata, b: Metadata) -> bool {
    &&& a.name@ == b.name@
    &&& opt_str_like(a.title, b.title)
    &&& opt_str_like(a.namespace, b.namespace)
    &&& opt_str_like(a.description, b.description)
    &&& pairs_like(a.labels@, b.labels@)
    &&& pairs_like(a.annotations@, b.annotations@)
    &&& strings_like(a.tags@, b.tags@)
    &&& links_like(a.links@, b.links@)
}

/// Two entities agree in kind, metadata and `spec` document.
pub open spec fn entity_like(a: Entity, b: Entity) -> bool {
    &&& a.api_version@ == b.api_version@
    &&& a.kind == b.kind
    &&& metadata_like(a.metadata, b.metadata)
    &&& value_eq(a.spec, b.spec)
}

/// Two validation-error lists agree element for element.
pub open spec fn errors_like(a: Seq<ValidationError>, b: Seq<ValidationError>) -> bool {
    &&& a.len() == b.len()
    &&& forall|i: int|
        0 <= i < a.len() ==> (#[trigger] a[i]).path@ == b[i].path@ && a[i].message@ == b[i].message@
}

/// Two sourced entities agree in entity, source file and findings.
pub open spec fn ews_like(a: EntityWithSource, b: EntityWithSource) -> bool {
    &&& entity_like(a.entity, b.entity)
    &&& a.source_file@ == b.source_file@
    &&& errors_like(a.validation_errors@, b.validation_errors@)
}

/// A copy of an optional string.
fn dup_opt_str(a: &Option<String>) -> (r: Option<String>)
    ensures
        opt_str_like(r, *a),
{
    match a {
        Some(s) => Some(s.clone()),
        None => None,
    }
}

/// A copy of a key-value pair list.
#[verifier::loop_isolation(false)]
fn dup_pairs(a: &Vec<(String, String)>) -> (r: Vec<(String, String)>)
    ensures
        pairs_like(r@, a@),
{
    let mut out: Vec<(String, String)> = Vec::new();
    let n = a.len();
    let mut i: usize = 0;
    while i < n
        invariant
            0 <= i <= n,
            out@.len() == i,
            forall|j: int|
                0 <= j < i ==> (#[trigger] out@[j]).0@ == a@[j].0@ && out@[j].1@ == a@[j].1@,
        decreases n - i,
    {
        out.push((a[i].0.clone(), a[i].1.clone()));
        i = i + 1;
    }
    out
}

/// A copy of a string list.
#[verifier::loop_isolation(false)]
fn dup_strings(a: &Vec<String>) -> (r: Vec<String>)
    ensures
        strings_like(r@, a@),
{
    let mut out: Vec<String> = Vec::new();
    let n = a.len();
    let mut i: usize = 0;
    while i < n
        invariant
            0 <= i <= n,
            out@.len() == i,
            forall|j: int| 0 <= j < i ==> (#[trigger] out@[j])@ == a@[j]@,
        decreases n - i,
    {
        out.push(a[i].clone());
        i = i + 1;
    }
    out
}

impl Link {
    /// A copy of this link.
    pub fn duplicate(&self) -> (r: Link)
        ensures
            link_like(r, *self),
    {
        Link {
            url: dup_opt_str(&self.url),
            title: dup_opt_str(&self.title),
            icon: dup_opt_str(&self.icon),
        }
    }
}

/// A copy of a link list.
#[verifier::loop_isolation(false)]
fn dup_links(a: &Vec<Link>) -> (r: Vec<Link>)
    ensures
        links_like(r@, a@),
{
    let mut out: Vec<Link> = Vec::new();
    let n = a.len();
    let mut i: usize = 0;
    while i < n
        invariant
            0 <= i <= n,
            out@.len() == i,
            forall|j: int| 0 <= j < i ==> link_like(#[trigger] out@[j], a@[j]),
        decreases n - i,
    {
        out.push(a[i].duplicate());
        i = i + 1;
    }
    out
}

impl Metadata {
    /// A copy of this metadata record.
    pub fn duplicate(&self) -> (r: Metadata)
        ensures
            metadata_like(r, *self),
    {
        Metadata {
            name: self.name.clone(),
            title: dup_opt_str(&self.title),
            namespace: dup_opt_str(&self.namespace),
            description: dup_opt_str(&self.description),
            labels: dup_pairs(&self.labels),
            annotations: dup_pairs(&self.annotations),
            tags: dup_strings(&self.tags),
            links: dup_links(&self.links),
        }
    }
}

impl Entity {
    /// A copy of this entity, agreeing field for field.
    pub fn duplicate(&self) -> (r: Entity)
        ensures
            entity_like(r, *self),
    {
        Entity {
            api_version: self.api_version.clone(),
            kind: self.kind,
            metadata: self.metadata.duplicate(),
            spec: self.spec.duplicate(),
        }
    }
}

/// A copy of a validation-error list.
#[verifier::loop_isolation(false)]
fn dup_errors(a: &Vec<ValidationError>) -> (r: Vec<ValidationError>)
    ensures
        errors_like(r@, a@),
{
    let mut out: Vec<ValidationError> = Vec::new();
    let n = a.len();
    let mut i: usize = 0;
    while i < n
        invariant
            0 <= i <= n,
            out@.len() == i,
            forall|j: int|
                0 <= j < i ==> (#[trigger] out@[j]).path@ == a@[j].path@ && out@[j].message@
                    == a@[j].message@,
        decreases n - i,
    {
        out.push(ValidationError { path: a[i].path.clone(), message: a[i].message.clone() });
        i = i + 1;
    }
    out
}

impl EntityWithSource {
    /// A copy of this sourced entity, agreeing field for field.
    pub fn duplicate(&self) -> (r: EntityWithSource)
        ensures
            ews_like(r, *self),
    {
        EntityWithSource {
            entity: self.entity.duplicate(),
            source_file: self.source_file.clone(),
            validation_errors: dup_errors(&self.validation_errors),
        }
    }
}



/// Idempotent rebuild: two indexes built from the same unmodified
/// snapshot hold exactly the same keys.
pub proof fn lemma_index_rebuild_deterministic(
    k1: Seq<Seq<char>>,
    k2: Seq<Seq<char>>,
    entities: Seq<EntityWithSource>,
)
    requires
        index_models(k1, entities),
        index_models(k2, entities),
    ensures
        k1 == k2,
{
    assert(k1 =~= k2);
}


} // verus!
