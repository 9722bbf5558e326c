//! Per-entity relationship graphs: typed outgoing edges read from the
//! focal entity's own fields, and incoming edges inferred by scanning
//! every other entity of the snapshot for references back to the focal
//! entity's canonical key.

use vstd::prelude::*;

use crate::entity::canonical_of;
use crate::entity::display_name_spec;
use crate::entity::index_has;
use crate::entity::index_models;
use crate::entity::kind_label_spec;
use crate::entity::parse_spec;
use crate::entity::ref_key_spec;
use crate::entity::Entity;
use crate::entity::EntityIndex;
use crate::entity::EntityRef;
use crate::entity::EntityWithSource;
use crate::text::str_eq_str;
use vstd::seq_lib::lemma_concat_associative;
use crate::value::lemma_string_items_prefix_extends;
use crate::value::spec_get_str;
use crate::value::spec_get_str_list;
use crate::value::string_items_prefix;
use crate::value::Value;

verus! {

/// The kind of a typed relationship edge.
#[derive(Debug, Clone, Copy, PartialEq, Eq, Structural)]
pub enum RelationType {
    Owner,
    System,
    Domain,
    Parent,
    Child,
    DependsOn,
    DependencyOf,
    ProvidesApi,
    ConsumesApi,
    ProvidedBy,
    ConsumedBy,
    MemberOf,
    HasMember,
}

/// The display label of a relation, read from the focal entity's side.
pub open spec fn relation_label_spec(r: RelationType) -> Seq<char> {
    match r {
        RelationType::Owner => "owned by"@,
        RelationType::System => "part of"@,
        RelationType::Domain => "in domain"@,
        RelationType::Parent => "parent"@,
        RelationType::Child => "child"@,
        RelationType::DependsOn => "depends on"@,
        RelationType::DependencyOf => "dependency of"@,
        RelationType::ProvidesApi => "provides"@,
        RelationType::ConsumesApi => "consumes"@,
        RelationType::ProvidedBy => "provided by"@,
        RelationType::ConsumedBy => "consumed by"@,
        RelationType::MemberOf => "member of"@,
        RelationType::HasMember => "has member"@,
    }
}

/// The display label of an incoming relation, read from the other
/// entity's side; relations with no special incoming reading fall back
/// to their ordinary label.
pub open spec fn inverse_label_spec(r: RelationType) -> Seq<char> {
    match r {
        RelationType::Owner => "owns"@,
        RelationType::System => "contains"@,
        RelationType::Domain => "contains"@,
        RelationType::Child => "child of"@,
        RelationType::DependencyOf => "depended on by"@,
        RelationType::ConsumedBy => "consumed by"@,
        RelationType::ProvidedBy => "provides"@,
        RelationType::HasMember => "member"@,
        _ => relation_label_spec(r),
    }
}

impl RelationType {
    /// The display label of this relation.
    pub fn label(&self) -> (r: &'static str)
        ensures
            r@ == relation_label_spec(*self),
    {
        match self {
            RelationType::Owner => "owned by",
            RelationType::System => "part of",
            RelationType::Domain => "in domain",
            RelationType::Parent => "parent",
            RelationType::Child => "child",
            RelationType::DependsOn => "depends on",
            RelationType::DependencyOf => "dependency of",
            RelationType::ProvidesApi => "provides",
            RelationType::ConsumesApi => "consumes",
            RelationType::ProvidedBy => "provided by",
            RelationType::ConsumedBy => "consumed by",
            RelationType::MemberOf => "member of",
            RelationType::HasMember => "has member",
        }
    }
}

/// The label under which an incoming edge of this relation is shown.
pub fn inverse_label(rel: &RelationType) -> (r: &'static str)
    ensures
        r@ == inverse_label_spec(*rel),
{
    match rel {
        RelationType::Owner => "owns",
        RelationType::System => "contains",
        RelationType::Domain => "contains",
        RelationType::Child => "child of",
        RelationType::DependencyOf => "depended on by",
        RelationType::ConsumedBy => "consumed by",
        RelationType::ProvidedBy => "provides",
        RelationType::HasMember => "member",
        _ => rel.label(),
    }
}

/// One endpoint of a relationship edge: a display name, a kind label,
/// and whether the referenced entity exists in the snapshot.
#[derive(Debug, Clone)]
pub struct EntityNode {
    pub display_name: String,
    pub kind: String,
    pub exists: bool,
}

/// The mathematical model of one edge: its relation and the endpoint's
/// fields as character sequences.
#[verifier::ext_equal]
pub struct EdgeV {
    pub rel: RelationType,
    pub name: Seq<char>,
    pub kind: Seq<char>,
    pub exists: bool,
}

/// The model of one `(RelationType, EntityNode)` pair.
pub open spec fn edge_view(x: (RelationType, EntityNode)) -> EdgeV {
    EdgeV { rel: x.0, name: x.1.display_name@, kind: x.1.kind@, exists: x.1.exists }
}

/// The model of an edge list.
pub open spec fn edges_view(v: Seq<(RelationType, EntityNode)>) -> Seq<EdgeV> {
    Seq::new(v.len(), |i: int| edge_view(v[i]))
}

/// The canonical keys of a snapshot, in order.
pub open spec fn snapshot_keys(entities: Seq<EntityWithSource>) -> Seq<Seq<char>> {
    Seq::new(entities.len(), |i: int| ref_key_spec(entities[i].entity))
}

/// The edge that one raw reference string yields: the string is parsed
/// under the field's default kind, and existence is a key lookup.
pub open spec fn edge_of(
    rel: RelationType,
    raw: Seq<char>,
    dk: Seq<char>,
    keys: Seq<Seq<char>>,
) -> EdgeV {
    let p = parse_spec(raw, dk);
    EdgeV { rel, name: p.name, kind: p.kind, exists: index_has(keys, canonical_of(p)) }
}

/// The outgoing edges of one single-valued reference field: one edge
/// when the field holds a string, none otherwise.
pub open spec fn single_edges(
    e: Entity,
    key: Seq<char>,
    rel: RelationType,
    dk: Seq<char>,
    keys: Seq<Seq<char>>,
) -> Seq<EdgeV> {
    match spec_get_str(e.spec, key) {
        Some(raw) => seq![edge_of(rel, raw, dk, keys)],
        None => Seq::empty(),
    }
}

/// The outgoing edges of one multi-valued reference field: one edge
/// per string item, in sequence order.
pub open spec fn multi_edges(
    e: Entity,
    key: Seq<char>,
    rel: RelationType,
    dk: Seq<char>,
    keys: Seq<Seq<char>>,
) -> Seq<EdgeV> {
    let l = spec_get_str_list(e.spec, key);
    Seq::new(l.len(), |i: int| edge_of(rel, l[i], dk, keys))
}

/// All outgoing edges of an entity, in the fixed field order: owner,
/// system, domain, parent, then children, dependsOn, providesApis,
/// consumesApis, memberOf.
pub open spec fn out_edges(e: Entity, keys: Seq<Seq<char>>) -> Seq<EdgeV> {
    single_edges(e, "owner"@, RelationType::Owner, "group"@, keys) + single_edges(
        e,
        "system"@,
        RelationType::System,
        "system"@,
        keys,
    ) + single_edges(e, "domain"@, RelationType::Domain, "domain"@, keys) + single_edges(
        e,
        "parent"@,
        RelationType::Parent,
        "group"@,
        keys,
    ) + multi_edges(e, "children"@, RelationType::Child, "group"@, keys) + multi_edges(
        e,
        "dependsOn"@,
        RelationType::DependsOn,
        "component"@,
        keys,
    ) + multi_edges(e, "providesApis"@, RelationType::ProvidesApi, "api"@, keys) + multi_edges(
        e,
        "consumesApis"@,
        RelationType::ConsumesApi,
        "api"@,
        keys,
    ) + multi_edges(e, "memberOf"@, RelationType::MemberOf, "group"@, keys)
}

/// Appending one edge pair appends its model.
proof fn lemma_edges_view_push(v: Seq<(RelationType, EntityNode)>, x: (RelationType, EntityNode))
    ensures
        edges_view(v.push(x)) =~= edges_view(v).push(edge_view(x)),
{
}

/// Appending one raw string appends its edge.
proof fn lemma_edges_of_list_push(
    l: Seq<Seq<char>>,
    x: Seq<char>,
    rel: RelationType,
    dk: Seq<char>,
    keys: Seq<Seq<char>>,
)
    ensures
        edges_of_list(l.push(x), rel, dk, keys) =~= edges_of_list(l, rel, dk, keys).push(
            edge_of(rel, x, dk, keys),
        ),
{
}

/// The endpoint node that resolves one raw reference string.
fn node_for_ref(raw: &str, dk: &str, index: &EntityIndex) -> (r: EntityNode)
    ensures
        ({
            let p = parse_spec(raw@, dk@);
            &&& r.display_name@ == p.name
            &&& r.kind@ == p.kind
            &&& r.exists == index_has(index@, canonical_of(p))
        }),
{
    let parsed = EntityRef::parse(raw, dk);
    let exists = index.contains(&parsed);
    EntityNode { display_name: parsed.name, kind: parsed.kind, exists }
}

/// Append the edge of one single-valued reference field, if the field
/// holds a string.
#[verifier::loop_isolation(false)]
fn push_single_edge(
    out: &mut Vec<(RelationType, EntityNode)>,
    e: &Entity,
    key: &str,
    rel: RelationType,
    dk: &str,
    index: &EntityIndex,
)
    ensures
        edges_view(final(out)@) == edges_view(old(out)@) + single_edges(*e, key@, rel, dk@, index@),
{
    match e.get_spec_string(key) {
        Some(raw) => {
            let node = node_for_ref(raw.as_str(), dk, index);
            let ghost prev = out@;
            out.push((rel, node));
            proof {
                lemma_edges_view_push(prev, (rel, node));
                assert(edges_view(out@) =~= edges_view(old(out)@) + single_edges(
                    *e,
                    key@,
                    rel,
                    dk@,
                    index@,
                ));
            }
        },
        None => {
            proof {
                assert(edges_view(out@) =~= edges_view(old(out)@) + single_edges(
                    *e,
                    key@,
                    rel,
                    dk@,
                    index@,
                ));
            }
        },
    }
}

/// Append the edges of one multi-valued reference field, one per
/// string item, in sequence order; non-string items and non-sequence
/// field shapes yield nothing.
#[verifier::loop_isolation(false)]
fn push_multi_edges(
    out: &mut Vec<(RelationType, EntityNode)>,
    e: &Entity,
    key: &str,
    rel: RelationType,
    dk: &str,
    index: &EntityIndex,
)
    ensures
        edges_view(final(out)@) == edges_view(old(out)@) + multi_edges(*e, key@, rel, dk@, index@),
{
    match e.spec.get(key) {
        Some(v) => match v.as_sequence() {
            Some(items) => {
                let n = items.len();
                let mut i: usize = 0;
                while i < n
                    invariant
                        0 <= i <= n,
                        edges_view(out@) =~= edges_view(old(out)@) + edges_of_list(
                            string_items_prefix(items@, i as int),
                            rel,
                            dk@,
                            index@,
                        ),
                    decreases n - i,
                {
                    let ghost pre_list = string_items_prefix(items@, i as int);
                    match items[i].as_str() {
                        Some(s) => {
                            let node = node_for_ref(s.as_str(), dk, index);
                            let ghost prev = out@;
                            out.push((rel, node));
                            proof {
                                let eo = edges_view(old(out)@);
                                assert(string_items_prefix(items@, i + 1) =~= pre_list.push(s@));
                                assert(edge_view((rel, node)) == edge_of(rel, s@, dk@, index@));
                                lemma_edges_view_push(prev, (rel, node));
                                lemma_edges_of_list_push(pre_list, s@, rel, dk@, index@);
                                assert(edges_view(out@) =~= (eo + edges_of_list(
                                    pre_list,
                                    rel,
                                    dk@,
                                    index@,
                                )).push(edge_of(rel, s@, dk@, index@)));
                                assert((eo + edges_of_list(pre_list, rel, dk@, index@)).push(
                                    edge_of(rel, s@, dk@, index@),
                                ) =~= eo + edges_of_list(pre_list, rel, dk@, index@).push(
                                    edge_of(rel, s@, dk@, index@),
                                ));
                            }
                        },
                        None => {
                            proof {
                                assert(string_items_prefix(items@, i + 1) == pre_list);
                            }
                        },
                    }
                    proof {
                        assert(edges_view(out@) =~= edges_view(old(out)@) + edges_of_list(
                            string_items_prefix(items@, i + 1),
                            rel,
                            dk@,
                            index@,
                        ));
                    }
                    i = i + 1;
                }
                proof {
                    assert(edges_view(out@) =~= edges_view(old(out)@) + multi_edges(
                        *e,
                        key@,
                        rel,
                        dk@,
                        index@,
                    ));
                }
            },
            None => {
                proof {
                    assert(edges_view(out@) =~= edges_view(old(out)@) + multi_edges(
                        *e,
                        key@,
                        rel,
                        dk@,
                        index@,
                    ));
                }
            },
        },
        None => {
            proof {
                assert(edges_view(out@) =~= edges_view(old(out)@) + multi_edges(
                    *e,
                    key@,
                    rel,
                    dk@,
                    index@,
                ));
            }
        },
    }
}

/// The edges that a list of raw reference strings yields, in order.
pub open spec fn edges_of_list(
    l: Seq<Seq<char>>,
    rel: RelationType,
    dk: Seq<char>,
    keys: Seq<Seq<char>>,
) -> Seq<EdgeV> {
    Seq::new(l.len(), |i: int| edge_of(rel, l[i], dk, keys))
}

/// Extract every outgoing edge of the focal entity, in the fixed field
/// order.
fn extract_outgoing(e: &Entity, index: &EntityIndex) -> (out: Vec<(RelationType, EntityNode)>)
    ensures
        edges_view(out@) == out_edges(*e, index@),
{
    let mut out: Vec<(RelationType, EntityNode)> = Vec::new();
    proof {
        assert(edges_view(out@) =~= Seq::<EdgeV>::empty());
    }
    push_single_edge(&mut out, e, "owner", RelationType::Owner, "group", index);
    push_single_edge(&mut out, e, "system", RelationType::System, "system", index);
    push_single_edge(&mut out, e, "domain", RelationType::Domain, "domain", index);
    push_single_edge(&mut out, e, "parent", RelationType::Parent, "group", index);
    push_multi_edges(&mut out, e, "children", RelationType::Child, "group", index);
    push_multi_edges(&mut out, e, "dependsOn", RelationType::DependsOn, "component", index);
    push_multi_edges(&mut out, e, "providesApis", RelationType::ProvidesApi, "api", index);
    push_multi_edges(&mut out, e, "consumesApis", RelationType::ConsumesApi, "api", index);
    push_multi_edges(&mut out, e, "memberOf", RelationType::MemberOf, "group", index);
    proof {
        assert(edges_view(out@) =~= out_edges(*e, index@));
    }
    out
}


/// Whether `e` points at `center` through a single-valued reference
/// field, parsed under the field's default kind.
pub open spec fn points_single(e: Entity, key: Seq<char>, dk: Seq<char>, center: Seq<char>) -> bool {
    match spec_get_str(e.spec, key) {
        Some(raw) => canonical_of(parse_spec(raw, dk)) == center,
        None => false,
    }
}

/// Whether any string item of a multi-valued reference field of `e`
/// points at `center`.
pub open spec fn points_multi(e: Entity, key: Seq<char>, dk: Seq<char>, center: Seq<char>) -> bool {
    let l = spec_get_str_list(e.spec, key);
    exists|k: int| 0 <= k < l.len() && canonical_of(parse_spec(#[trigger] l[k], dk)) == center
}

/// The edge whose endpoint is a known entity of the snapshot: its
/// display name, its kind label, and existence taken for granted.
pub open spec fn entity_edge(rel: RelationType, e: Entity) -> EdgeV {
    EdgeV { rel, name: display_name_spec(e), kind: kind_label_spec(e.kind), exists: true }
}

/// The incoming edges that `e` contributes through its four
/// single-valued fields: owner, system, domain, parent.
pub open spec fn inc_singles(e: Entity, center: Seq<char>) -> Seq<EdgeV> {
    (if points_single(e, "owner"@, "group"@, center) {
        seq![entity_edge(RelationType::Owner, e)]
    } else {
        Seq::empty()
    }) + (if points_single(e, "system"@, "system"@, center) {
        seq![entity_edge(RelationType::System, e)]
    } else {
        Seq::empty()
    }) + (if points_single(e, "domain"@, "domain"@, center) {
        seq![entity_edge(RelationType::Domain, e)]
    } else {
        Seq::empty()
    }) + (if points_single(e, "parent"@, "group"@, center) {
        seq![entity_edge(RelationType::Child, e)]
    } else {
        Seq::empty()
    })
}

/// The incoming edges that `e` contributes through its four
/// multi-valued fields: dependsOn, consumesApis, providesApis,
/// memberOf. A field contributes at most one edge however often
/// `center` appears in it.
pub open spec fn inc_multis(e: Entity, center: Seq<char>) -> Seq<EdgeV> {
    (if points_multi(e, "dependsOn"@, "component"@, center) {
        seq![entity_edge(RelationType::DependencyOf, e)]
    } else {
        Seq::empty()
    }) + (if points_multi(e, "consumesApis"@, "api"@, center) {
        seq![entity_edge(RelationType::ConsumedBy, e)]
    } else {
        Seq::empty()
    }) + (if points_multi(e, "providesApis"@, "api"@, center) {
        seq![entity_edge(RelationType::ProvidedBy, e)]
    } else {
        Seq::empty()
    }) + (if points_multi(e, "memberOf"@, "group"@, center) {
        seq![entity_edge(RelationType::HasMember, e)]
    } else {
        Seq::empty()
    })
}

/// The incoming edges that one other entity `e` contributes towards a
/// focal entity with canonical key `center`, in the fixed field order:
/// owner, system, domain, parent, dependsOn, consumesApis,
/// providesApis, memberOf.
pub open spec fn inc_for(e: Entity, center: Seq<char>) -> Seq<EdgeV> {
    inc_singles(e, center) + inc_multis(e, center)
}

/// The incoming edges contributed by the first `n` snapshot entities,
/// the focal entity itself excluded by canonical key.
pub open spec fn inc_edges_prefix(
    entities: Seq<EntityWithSource>,
    center: Seq<char>,
    n: int,
) -> Seq<EdgeV>
    decreases n,
{
    if n <= 0 {
        Seq::empty()
    } else {
        let pre = inc_edges_prefix(entities, center, n - 1);
        let e = entities[n - 1].entity;
        if ref_key_spec(e) == center {
            pre
        } else {
            pre + inc_for(e, center)
        }
    }
}

/// All incoming edges of a focal entity with canonical key `center`,
/// read off the whole snapshot in order.
pub open spec fn inc_edges(entities: Seq<EntityWithSource>, center: Seq<char>) -> Seq<EdgeV> {
    inc_edges_prefix(entities, center, entities.len() as int)
}

/// Decide `points_single` for one field of `e`.
fn points_at_single(e: &Entity, key: &str, dk: &str, center: &String) -> (r: bool)
    ensures
        r == points_single(*e, key@, dk@, center@),
{
    match e.get_spec_string(key) {
        Some(raw) => {
            let parsed = EntityRef::parse(raw.as_str(), dk);
            let c = parsed.canonical();
            str_eq_str(c.as_str(), center.as_str())
        },
        None => false,
    }
}

/// Decide `points_multi` for one field of `e`, stopping at the first
/// item that matches.
#[verifier::loop_isolation(false)]
fn points_at_multi(e: &Entity, key: &str, dk: &str, center: &String) -> (r: bool)
    ensures
        r == points_multi(*e, key@, dk@, center@),
{
    match e.spec.get(key) {
        Some(v) => match v.as_sequence() {
            Some(items) => {
                let n = items.len();
                let mut i: usize = 0;
                while i < n
                    invariant
                        0 <= i <= n,
                        forall|k: int|
                            0 <= k < string_items_prefix(items@, i as int).len()
                                ==> canonical_of(parse_spec(
                                #[trigger] string_items_prefix(items@, i as int)[k],
                                dk@,
                            )) != center@,
                    decreases n - i,
                {
                    let ghost pre_list = string_items_prefix(items@, i as int);
                    match items[i].as_str() {
                        Some(s) => {
                            let parsed = EntityRef::parse(s.as_str(), dk);
                            let c = parsed.canonical();
                            if str_eq_str(c.as_str(), center.as_str()) {
                                proof {
                                    let full = spec_get_str_list(e.spec, key@);
                                    lemma_string_items_prefix_extends(
                                        items@,
                                        i + 1,
                                        items@.len() as int,
                                    );
                                    assert(string_items_prefix(items@, i + 1) =~= pre_list.push(
                                        s@,
                                    ));
                                    assert(full[pre_list.len() as int] == s@);
                                }
                                return true;
                            }
                            proof {
                                assert(string_items_prefix(items@, i + 1) =~= pre_list.push(s@));
                            }
                        },
                        None => {
                            proof {
                                assert(string_items_prefix(items@, i + 1) == pre_list);
                            }
                        },
                    }
                    i = i + 1;
                }
                false
            },
            None => {
                proof {
                    assert(spec_get_str_list(e.spec, key@) =~= Seq::<Seq<char>>::empty());
                }
                false
            },
        },
        None => {
            proof {
                assert(spec_get_str_list(e.spec, key@) =~= Seq::<Seq<char>>::empty());
            }
            false
        },
    }
}

/// The node standing for a known snapshot entity.
fn node_from_entity(e: &Entity) -> (r: EntityNode)
    ensures
        r.display_name@ == display_name_spec(*e),
        r.kind@ == kind_label_spec(e.kind),
        r.exists,
{
    EntityNode { display_name: e.display_name(), kind: e.kind.label(), exists: true }
}

/// Append the edge standing for the entity `other` under `rel`.
fn push_entity_edge(out: &mut Vec<(RelationType, EntityNode)>, rel: RelationType, other: &Entity)
    ensures
        edges_view(final(out)@) == edges_view(old(out)@).push(entity_edge(rel, *other)),
{
    let node = node_from_entity(other);
    let ghost prev = out@;
    out.push((rel, node));
    proof {
        lemma_edges_view_push(prev, (rel, node));
        assert(edges_view(out@) =~= edges_view(old(out)@).push(entity_edge(rel, *other)));
    }
}

/// Append the incoming edges of `other`'s single-valued fields.
fn push_incoming_singles(
    out: &mut Vec<(RelationType, EntityNode)>,
    other: &Entity,
    center: &String,
)
    ensures
        edges_view(final(out)@) == edges_view(old(out)@) + inc_singles(*other, center@),
{
    let ghost eo = edges_view(old(out)@);
    let ghost c1 = (if points_single(*other, "owner"@, "group"@, center@) {
        seq![entity_edge(RelationType::Owner, *other)]
    } else {
        Seq::<EdgeV>::empty()
    });
    let ghost c2 = (if points_single(*other, "system"@, "system"@, center@) {
        seq![entity_edge(RelationType::System, *other)]
    } else {
        Seq::<EdgeV>::empty()
    });
    let ghost c3 = (if points_single(*other, "domain"@, "domain"@, center@) {
        seq![entity_edge(RelationType::Domain, *other)]
    } else {
        Seq::<EdgeV>::empty()
    });
    let ghost c4 = (if points_single(*other, "parent"@, "group"@, center@) {
        seq![entity_edge(RelationType::Child, *other)]
    } else {
        Seq::<EdgeV>::empty()
    });
    if points_at_single(other, "owner", "group", center) {
        push_entity_edge(out, RelationType::Owner, other);
    }
    proof {
        assert(edges_view(out@) =~= eo + c1);
    }
    let ghost s1 = edges_view(out@);
    if points_at_single(other, "system", "system", center) {
        push_entity_edge(out, RelationType::System, other);
    }
    proof {
        assert(edges_view(out@) =~= s1 + c2);
        lemma_concat_associative(eo, c1, c2);
    }
    let ghost s2 = edges_view(out@);
    if points_at_single(other, "domain", "domain", center) {
        push_entity_edge(out, RelationType::Domain, other);
    }
    proof {
        assert(edges_view(out@) =~= s2 + c3);
        lemma_concat_associative(eo, c1 + c2, c3);
    }
    let ghost s3 = edges_view(out@);
    if points_at_single(other, "parent", "group", center) {
        push_entity_edge(out, RelationType::Child, other);
    }
    proof {
        assert(edges_view(out@) =~= s3 + c4);
        lemma_concat_associative(eo, c1 + c2 + c3, c4);
        assert(inc_singles(*other, center@) == c1 + c2 + c3 + c4);
    }
}

/// Append the incoming edges of `other`'s multi-valued fields.
fn push_incoming_multis(
    out: &mut Vec<(RelationType, EntityNode)>,
    other: &Entity,
    center: &String,
)
    ensures
        edges_view(final(out)@) == edges_view(old(out)@) + inc_multis(*other, center@),
{
    let ghost eo = edges_view(old(out)@);
    let ghost c1 = (if points_multi(*other, "dependsOn"@, "component"@, center@) {
        seq![entity_edge(RelationType::DependencyOf, *other)]
    } else {
        Seq::<EdgeV>::empty()
    });
    let ghost c2 = (if points_multi(*other, "consumesApis"@, "api"@, center@) {
        seq![entity_edge(RelationType::ConsumedBy, *other)]
    } else {
        Seq::<EdgeV>::empty()
    });
    let ghost c3 = (if points_multi(*other, "providesApis"@, "api"@, center@) {
        seq![entity_edge(RelationType::ProvidedBy, *other)]
    } else {
        Seq::<EdgeV>::empty()
    });
    let ghost c4 = (if points_multi(*other, "memberOf"@, "group"@, center@) {
        seq![entity_edge(RelationType::HasMember, *other)]
    } else {
        Seq::<EdgeV>::empty()
    });
    if points_at_multi(other, "dependsOn", "component", center) {
        push_entity_edge(out, RelationType::DependencyOf, other);
    }
    proof {
        assert(edges_view(out@) =~= eo + c1);
    }
    let ghost s1 = edges_view(out@);
    if points_at_multi(other, "consumesApis", "api", center) {
        push_entity_edge(out, RelationType::ConsumedBy, other);
    }
    proof {
        assert(edges_view(out@) =~= s1 + c2);
        lemma_concat_associative(eo, c1, c2);
    }
    let ghost s2 = edges_view(out@);
    if points_at_multi(other, "providesApis", "api", center) {
        push_entity_edge(out, RelationType::ProvidedBy, other);
    }
    proof {
        assert(edges_view(out@) =~= s2 + c3);
        lemma_concat_associative(eo, c1 + c2, c3);
    }
    let ghost s3 = edges_view(out@);
    if points_at_multi(other, "memberOf", "group", center) {
        push_entity_edge(out, RelationType::HasMember, other);
    }
    proof {
        assert(edges_view(out@) =~= s3 + c4);
        lemma_concat_associative(eo, c1 + c2 + c3, c4);
        assert(inc_multis(*other, center@) == c1 + c2 + c3 + c4);
    }
}

/// Append every incoming edge that `other` contributes towards
/// `center`, in the fixed field order.
fn push_incoming_for(out: &mut Vec<(RelationType, EntityNode)>, other: &Entity, center: &String)
    ensures
        edges_view(final(out)@) == edges_view(old(out)@) + inc_for(*other, center@),
{
    let ghost eo = edges_view(old(out)@);
    push_incoming_singles(out, other, center);
    push_incoming_multis(out, other, center);
    proof {
        lemma_concat_associative(
            eo,
            inc_singles(*other, center@),
            inc_multis(*other, center@),
        );
    }
}

/// Scan the whole snapshot for entities that point at `center`,
/// excluding the focal entity itself by canonical key.
#[verifier::loop_isolation(false)]
fn extract_incoming(center: &String, all_entities: &Vec<EntityWithSource>) -> (out: Vec<
    (RelationType, EntityNode),
>)
    ensures
        edges_view(out@) == inc_edges(all_entities@, center@),
{
    let n = all_entities.len();
    let mut out: Vec<(RelationType, EntityNode)> = Vec::new();
    proof {
        assert(edges_view(out@) =~= Seq::<EdgeV>::empty());
    }
    let mut i: usize = 0;
    while i < n
        invariant
            0 <= i <= n,
            edges_view(out@) =~= inc_edges_prefix(all_entities@, center@, i as int),
        decreases n - i,
    {
        let other_key = all_entities[i].entity.ref_key();
        if !str_eq_str(other_key.as_str(), center.as_str()) {
            push_incoming_for(&mut out, &all_entities[i].entity, center);
        }
        proof {
            assert(edges_view(out@) =~= inc_edges_prefix(all_entities@, center@, i + 1));
        }
        i = i + 1;
    }
    out
}

/// A focal entity's relationship graph: the center node, its outgoing
/// edges in fixed field order, and the incoming edges inferred from
/// the rest of the snapshot.
#[derive(Debug, Clone)]
pub struct RelationshipGraph {
    pub center: EntityNode,
    pub outgoing: Vec<(RelationType, EntityNode)>,
    pub incoming: Vec<(RelationType, EntityNode)>,
}

impl RelationshipGraph {
    /// Build the relationship graph of one focal entity against the
    /// whole snapshot. Dangling references degrade to edges with
    /// `exists` false; nothing fails.
    pub fn build(entity: &EntityWithSource, all_entities: &Vec<EntityWithSource>) -> (r:
        RelationshipGraph)
        ensures
            r.center.display_name@ == display_name_spec(entity.entity),
            r.center.kind@ == kind_label_spec(entity.entity.kind),
            r.center.exists,
            edges_view(r.outgoing@) == out_edges(entity.entity, snapshot_keys(all_entities@)),
            edges_view(r.incoming@) == inc_edges(all_entities@, ref_key_spec(entity.entity)),
    {
        let index = EntityIndex::build(all_entities);
        proof {
            assert(index@ =~= snapshot_keys(all_entities@));
        }
        let center_key = entity.entity.ref_key();
        let center = node_from_entity(&entity.entity);
        let outgoing = extract_outgoing(&entity.entity, &index);
        let incoming = extract_incoming(&center_key, all_entities);
        RelationshipGraph { center, outgoing, incoming }
    }
}


/// An element of the right part of a concatenation is in the whole.
proof fn lemma_contains_right<A>(x: Seq<A>, y: Seq<A>, e: A)
    requires
        y.contains(e),
    ensures
        (x + y).contains(e),
{
    let j = choose|j: int| 0 <= j < y.len() && y[j] == e;
    assert((x + y)[x.len() + j] == e);
}

/// An element of the left part of a concatenation is in the whole.
proof fn lemma_contains_left<A>(x: Seq<A>, y: Seq<A>, e: A)
    requires
        x.contains(e),
    ensures
        (x + y).contains(e),
{
    let j = choose|j: int| 0 <= j < x.len() && x[j] == e;
    assert((x + y)[j] == e);
}

/// The edges of one relation kind, kept in order.
pub open spec fn edges_with_rel(s: Seq<EdgeV>, rel: RelationType) -> Seq<EdgeV>
    decreases s.len(),
{
    if s.len() == 0 {
        Seq::empty()
    } else {
        let rest = edges_with_rel(s.drop_first(), rel);
        if s[0].rel == rel {
            seq![s[0]] + rest
        } else {
            rest
        }
    }
}

/// Selecting one relation kind distributes over concatenation.
proof fn lemma_edges_with_rel_concat(a: Seq<EdgeV>, b: Seq<EdgeV>, rel: RelationType)
    ensures
        edges_with_rel(a + b, rel) == edges_with_rel(a, rel) + edges_with_rel(b, rel),
    decreases a.len(),
{
    if a.len() == 0 {
        assert(a + b =~= b);
        assert(edges_with_rel(a, rel) + edges_with_rel(b, rel) =~= edges_with_rel(b, rel));
    } else {
        assert((a + b).drop_first() =~= a.drop_first() + b);
        lemma_edges_with_rel_concat(a.drop_first(), b, rel);
        assert((a + b)[0] == a[0]);
        if a[0].rel == rel {
            assert(seq![a[0]] + (edges_with_rel(a.drop_first(), rel) + edges_with_rel(b, rel))
                =~= (seq![a[0]] + edges_with_rel(a.drop_first(), rel)) + edges_with_rel(b, rel));
        }
    }
}

/// A sequence without edges of the kind selects to nothing.
proof fn lemma_edges_with_rel_none(s: Seq<EdgeV>, rel: RelationType)
    requires
        forall|i: int| 0 <= i < s.len() ==> (#[trigger] s[i]).rel != rel,
    ensures
        edges_with_rel(s, rel) == Seq::<EdgeV>::empty(),
    decreases s.len(),
{
    if s.len() > 0 {
        assert(forall|i: int|
            0 <= i < s.drop_first().len() ==> (#[trigger] s.drop_first()[i]).rel != rel);
        lemma_edges_with_rel_none(s.drop_first(), rel);
    }
}

/// A one-edge sequence of the kind selects to itself.
proof fn lemma_edges_with_rel_single(x: EdgeV, rel: RelationType)
    requires
        x.rel == rel,
    ensures
        edges_with_rel(seq![x], rel) == seq![x],
{
    reveal_with_fuel(edges_with_rel, 2);
    assert(seq![x].drop_first() =~= Seq::<EdgeV>::empty());
    assert(seq![x] + Seq::<EdgeV>::empty() =~= seq![x]);
}

/// Dangling reference: when the `owner` field holds a reference that
/// no snapshot key matches, the outgoing edges hold exactly one Owner
/// edge, it does not exist, and its display name is the parsed name.
#[verifier::rlimit(100)]
pub proof fn lemma_dangling_owner(e: Entity, keys: Seq<Seq<char>>, raw: Seq<char>)
    requires
        spec_get_str(e.spec, "owner"@) == Some(raw),
        !index_has(keys, canonical_of(parse_spec(raw, "group"@))),
    ensures
        edges_with_rel(out_edges(e, keys), RelationType::Owner) == seq![
            edge_of(RelationType::Owner, raw, "group"@, keys),
        ],
        !edge_of(RelationType::Owner, raw, "group"@, keys).exists,
        edge_of(RelationType::Owner, raw, "group"@, keys).name == parse_spec(raw, "group"@).name,
{
    let rel = RelationType::Owner;
    let x = edge_of(rel, raw, "group"@, keys);
    let t1 = single_edges(e, "owner"@, RelationType::Owner, "group"@, keys);
    let t2 = single_edges(e, "system"@, RelationType::System, "system"@, keys);
    let t3 = single_edges(e, "domain"@, RelationType::Domain, "domain"@, keys);
    let t4 = single_edges(e, "parent"@, RelationType::Parent, "group"@, keys);
    let t5 = multi_edges(e, "children"@, RelationType::Child, "group"@, keys);
    let t6 = multi_edges(e, "dependsOn"@, RelationType::DependsOn, "component"@, keys);
    let t7 = multi_edges(e, "providesApis"@, RelationType::ProvidesApi, "api"@, keys);
    let t8 = multi_edges(e, "consumesApis"@, RelationType::ConsumesApi, "api"@, keys);
    let t9 = multi_edges(e, "memberOf"@, RelationType::MemberOf, "group"@, keys);
    assert(t1 =~= seq![x]);
    lemma_edges_with_rel_single(x, rel);
    lemma_edges_with_rel_none(t2, rel);
    lemma_edges_with_rel_none(t3, rel);
    lemma_edges_with_rel_none(t4, rel);
    lemma_edges_with_rel_none(t5, rel);
    lemma_edges_with_rel_none(t6, rel);
    lemma_edges_with_rel_none(t7, rel);
    lemma_edges_with_rel_none(t8, rel);
    lemma_edges_with_rel_none(t9, rel);
    lemma_edges_with_rel_concat(t1, t2, rel);
    lemma_edges_with_rel_concat(t1 + t2, t3, rel);
    lemma_edges_with_rel_concat(t1 + t2 + t3, t4, rel);
    lemma_edges_with_rel_concat(t1 + t2 + t3 + t4, t5, rel);
    lemma_edges_with_rel_concat(t1 + t2 + t3 + t4 + t5, t6, rel);
    lemma_edges_with_rel_concat(t1 + t2 + t3 + t4 + t5 + t6, t7, rel);
    lemma_edges_with_rel_concat(t1 + t2 + t3 + t4 + t5 + t6 + t7, t8, rel);
    lemma_edges_with_rel_concat(t1 + t2 + t3 + t4 + t5 + t6 + t7 + t8, t9, rel);
    assert(edges_with_rel(out_edges(e, keys), rel) =~= seq![x]);
}

/// Any edge contributed by snapshot entity `a` is among the incoming
/// edges read off the first `n` entities, provided `a` is not the
/// focal entity itself.
proof fn lemma_inc_prefix_contains(
    entities: Seq<EntityWithSource>,
    center: Seq<char>,
    a: int,
    n: int,
    x: EdgeV,
)
    requires
        0 <= a < n <= entities.len(),
        ref_key_spec(entities[a].entity) != center,
        inc_for(entities[a].entity, center).contains(x),
    ensures
        inc_edges_prefix(entities, center, n).contains(x),
    decreases n,
{
    if n - 1 == a {
        lemma_contains_right(
            inc_edges_prefix(entities, center, n - 1),
            inc_for(entities[a].entity, center),
            x,
        );
    } else {
        lemma_inc_prefix_contains(entities, center, a, n - 1, x);
        if ref_key_spec(entities[n - 1].entity) != center {
            lemma_contains_left(
                inc_edges_prefix(entities, center, n - 1),
                inc_for(entities[n - 1].entity, center),
                x,
            );
        }
    }
}

/// Graph symmetry: when entity `a`'s `dependsOn` lists a reference
/// that resolves to entity `b`'s canonical key, the graph built for
/// `a` shows an existing outgoing DependsOn edge for that reference,
/// and the graph built for `b` shows an incoming DependencyOf edge
/// carrying `a`'s display name — wherever the two entities stand in
/// the snapshot.
pub proof fn lemma_graph_symmetry(
    entities: Seq<EntityWithSource>,
    a: int,
    b: int,
    raw: Seq<char>,
)
    requires
        0 <= a < entities.len(),
        0 <= b < entities.len(),
        spec_get_str_list(entities[a].entity.spec, "dependsOn"@).contains(raw),
        canonical_of(parse_spec(raw, "component"@)) == ref_key_spec(entities[b].entity),
        ref_key_spec(entities[a].entity) != ref_key_spec(entities[b].entity),
    ensures
        out_edges(entities[a].entity, snapshot_keys(entities)).contains(
            edge_of(RelationType::DependsOn, raw, "component"@, snapshot_keys(entities)),
        ),
        edge_of(RelationType::DependsOn, raw, "component"@, snapshot_keys(entities)).exists,
        inc_edges(entities, ref_key_spec(entities[b].entity)).contains(
            entity_edge(RelationType::DependencyOf, entities[a].entity),
        ),
{
    let keys = snapshot_keys(entities);
    let e = entities[a].entity;
    let x = edge_of(RelationType::DependsOn, raw, "component"@, keys);

    // The outgoing side: the dependsOn segment holds the edge.
    assert(keys[b] == ref_key_spec(entities[b].entity));
    assert(index_has(keys, canonical_of(parse_spec(raw, "component"@))));
    assert(x.exists);
    let t1 = single_edges(e, "owner"@, RelationType::Owner, "group"@, keys);
    let t2 = single_edges(e, "system"@, RelationType::System, "system"@, keys);
    let t3 = single_edges(e, "domain"@, RelationType::Domain, "domain"@, keys);
    let t4 = single_edges(e, "parent"@, RelationType::Parent, "group"@, keys);
    let t5 = multi_edges(e, "children"@, RelationType::Child, "group"@, keys);
    let t6 = multi_edges(e, "dependsOn"@, RelationType::DependsOn, "component"@, keys);
    let t7 = multi_edges(e, "providesApis"@, RelationType::ProvidesApi, "api"@, keys);
    let t8 = multi_edges(e, "consumesApis"@, RelationType::ConsumesApi, "api"@, keys);
    let t9 = multi_edges(e, "memberOf"@, RelationType::MemberOf, "group"@, keys);
    let l = spec_get_str_list(e.spec, "dependsOn"@);
    let j = choose|j: int| 0 <= j < l.len() && l[j] == raw;
    assert(t6[j] == x);
    assert(t6.contains(x));
    lemma_contains_right(t1 + t2 + t3 + t4 + t5, t6, x);
    lemma_contains_left(t1 + t2 + t3 + t4 + t5 + t6, t7, x);
    lemma_contains_left(t1 + t2 + t3 + t4 + t5 + t6 + t7, t8, x);
    lemma_contains_left(t1 + t2 + t3 + t4 + t5 + t6 + t7 + t8, t9, x);

    // The incoming side: entity `a` points at `b` through dependsOn.
    let center = ref_key_spec(entities[b].entity);
    let y = entity_edge(RelationType::DependencyOf, e);
    assert(points_multi(e, "dependsOn"@, "component"@, center));
    let c1 = (if points_multi(e, "dependsOn"@, "component"@, center) {
        seq![entity_edge(RelationType::DependencyOf, e)]
    } else {
        Seq::<EdgeV>::empty()
    });
    let c2 = (if points_multi(e, "consumesApis"@, "api"@, center) {
        seq![entity_edge(RelationType::ConsumedBy, e)]
    } else {
        Seq::<EdgeV>::empty()
    });
    let c3 = (if points_multi(e, "providesApis"@, "api"@, center) {
        seq![entity_edge(RelationType::ProvidedBy, e)]
    } else {
        Seq::<EdgeV>::empty()
    });
    let c4 = (if points_multi(e, "memberOf"@, "group"@, center) {
        seq![entity_edge(RelationType::HasMember, e)]
    } else {
        Seq::<EdgeV>::empty()
    });
    assert(c1[0] == y);
    assert(c1.contains(y));
    lemma_contains_left(c1, c2, y);
    lemma_contains_left(c1 + c2, c3, y);
    lemma_contains_left(c1 + c2 + c3, c4, y);
    assert(inc_multis(e, center) == c1 + c2 + c3 + c4);
    lemma_contains_right(inc_singles(e, center), inc_multis(e, center), y);
    assert(inc_for(e, center).contains(y));
    lemma_inc_prefix_contains(entities, center, a, entities.len() as int, y);
}

/// Idempotent rebuild: two graphs built from the same focal entity and
/// the same unmodified snapshot are structurally identical — same
/// center fields and the same edge models on both sides.
pub proof fn lemma_graph_rebuild_deterministic(
    g1: RelationshipGraph,
    g2: RelationshipGraph,
    entity: EntityWithSource,
    entities: Seq<EntityWithSource>,
)
    requires
        g1.center.display_name@ == display_name_spec(entity.entity),
        g1.center.kind@ == kind_label_spec(entity.entity.kind),
        g1.center.exists,
        edges_view(g1.outgoing@) == out_edges(entity.entity, snapshot_keys(entities)),
        edges_view(g1.incoming@) == inc_edges(entities, ref_key_spec(entity.entity)),
        g2.center.display_name@ == display_name_spec(entity.entity),
        g2.center.kind@ == kind_label_spec(entity.entity.kind),
        g2.center.exists,
        edges_view(g2.outgoing@) == out_edges(entity.entity, snapshot_keys(entities)),
        edges_view(g2.incoming@) == inc_edges(entities, ref_key_spec(entity.entity)),
    ensures
        g1.center.display_name@ == g2.center.display_name@,
        g1.center.kind@ == g2.center.kind@,
        g1.center.exists == g2.center.exists,
        edges_view(g1.outgoing@) == edges_view(g2.outgoing@),
        edges_view(g1.incoming@) == edges_view(g2.incoming@),
{
}


} // verus!
