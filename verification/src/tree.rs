//! The hierarchy tree: a flat arena of nodes grouping the snapshot
//! into Domains, orphan Systems and Other Entities, with integer-id
//! parent-to-child linkage, plus the navigation state over it.
//!
//! Pass one classifies the snapshot: domain and system entities are
//! grouped by name in first-appearance order, each system's declared
//! domain is recorded (the last declaration winning), components,
//! APIs and resources are bucketed by their declared system, and
//! everything else is ungrouped. Pass two assembles the arena in a
//! fixed order, creating a category bucket only when it is non-empty.

use std::collections::HashSet;
use vstd::prelude::*;

use crate::entity::display_name_spec;
use crate::entity::ews_like;
use crate::entity::kind_label_spec;
use crate::entity::Entity;
use crate::entity::EntityKind;
use crate::entity::EntityWithSource;
use crate::text::contains_seq;
use crate::text::lower_seq;
use crate::text::str_contains;
use crate::text::str_eq_str;
use crate::text::to_ascii_lower;
use crate::value::spec_get_str;

verus! {

broadcast use vstd::std_specs::hash::group_hash_axioms;

/// One arena node: its own id, a display label, its depth, an owned
/// copy of the source entity for entity nodes, the ids of its
/// children, and whether it is a synthetic category node.
#[derive(Debug)]
pub struct TreeNode {
    pub id: usize,
    pub label: String,
    pub depth: usize,
    pub entity: Option<EntityWithSource>,
    pub children: Vec<usize>,
    pub is_category: bool,
}

/// The whole arena plus the ids of the root category nodes.
#[derive(Debug)]
pub struct EntityTree {
    pub nodes: Vec<TreeNode>,
    pub root_children: Vec<usize>,
}

/// Navigation state: the selected node id and the set of expanded
/// node ids.
#[derive(Debug)]
pub struct TreeState {
    pub selected: usize,
    pub expanded: HashSet<usize>,
}

impl TreeState {
    /// A fresh state: the first node selected, nothing expanded.
    pub fn new() -> (r: TreeState)
        ensures
            r.selected == 0,
            r.expanded@ == Set::<usize>::empty(),
    {
        TreeState { selected: 0, expanded: HashSet::new() }
    }

    /// Flip whether `id` is expanded.
    pub fn toggle_expanded(&mut self, id: usize)
        ensures
            final(self).selected == old(self).selected,
            final(self).expanded@ == (if old(self).expanded@.contains(id) {
                old(self).expanded@.remove(id)
            } else {
                old(self).expanded@.insert(id)
            }),
    {
        if self.expanded.contains(&id) {
            self.expanded.remove(&id);
        } else {
            self.expanded.insert(id);
        }
    }

    /// Whether `id` is expanded.
    pub fn is_expanded(&self, id: usize) -> (r: bool)
        ensures
            r == self.expanded@.contains(id),
    {
        self.expanded.contains(&id)
    }

    /// Expand every node of the tree that has at least one child.
    #[verifier::loop_isolation(false)]
    pub fn expand_all(&mut self, tree: &EntityTree)
        ensures
            final(self).selected == old(self).selected,
            final(self).expanded@ == old(self).expanded@.union(
                Set::new(
                    |id: usize|
                        exists|j: int|
                            0 <= j < tree.nodes@.len() && (#[trigger] tree.nodes@[j]).id == id
                                && tree.nodes@[j].children@.len() > 0,
                ),
            ),
    {
        let n = tree.nodes.len();
        let mut i: usize = 0;
        proof {
            assert(self.expanded@ =~= old(self).expanded@.union(
                Set::new(
                    |id: usize|
                        exists|j: int|
                            0 <= j < 0 && (#[trigger] tree.nodes@[j]).id == id
                                && tree.nodes@[j].children@.len() > 0,
                ),
            ));
        }
        while i < n
            invariant
                0 <= i <= n,
                self.selected == old(self).selected,
                self.expanded@ == old(self).expanded@.union(
                    Set::new(
                        |id: usize|
                            exists|j: int|
                                0 <= j < i && (#[trigger] tree.nodes@[j]).id == id
                                    && tree.nodes@[j].children@.len() > 0,
                    ),
                ),
            decreases n - i,
        {
            if tree.nodes[i].children.len() > 0 {
                self.expanded.insert(tree.nodes[i].id);
            }
            proof {
                assert(self.expanded@ =~= old(self).expanded@.union(
                    Set::new(
                        |id: usize|
                            exists|j: int|
                                0 <= j < i + 1 && (#[trigger] tree.nodes@[j]).id == id
                                    && tree.nodes@[j].children@.len() > 0,
                    ),
                ));
            }
            i = i + 1;
        }
    }
}

impl Default for TreeState {
    /// The same state as [`TreeState::new`].
    fn default() -> (r: TreeState)
        ensures
            r.selected == 0,
            r.expanded@ == Set::<usize>::empty(),
    {
        TreeState::new()
    }
}

/// The character sequences of a vector of strings, in order.
pub open spec fn strs_view(v: Seq<String>) -> Seq<Seq<char>> {
    Seq::new(v.len(), |i: int| v[i]@)
}

/// The integers of a vector of sizes, in order.
pub open spec fn usizes_view(v: Seq<usize>) -> Seq<int> {
    Seq::new(v.len(), |i: int| v[i] as int)
}

/// Append a name unless it is already present: first-appearance
/// grouping order.
pub open spec fn insert_name(names: Seq<Seq<char>>, n: Seq<char>) -> Seq<Seq<char>> {
    if names.contains(n) {
        names
    } else {
        names.push(n)
    }
}

/// The distinct names of the Domain entities among the first `k`,
/// in first-appearance order.
pub open spec fn domain_names_prefix(entities: Seq<EntityWithSource>, k: int) -> Seq<Seq<char>>
    decreases k,
{
    if k <= 0 {
        Seq::empty()
    } else {
        let prev = domain_names_prefix(entities, k - 1);
        if entities[k - 1].entity.kind == EntityKind::Domain {
            insert_name(prev, entities[k - 1].entity.metadata.name@)
        } else {
            prev
        }
    }
}

/// The distinct names of all Domain entities, in first-appearance
/// order.
pub open spec fn domain_names(entities: Seq<EntityWithSource>) -> Seq<Seq<char>> {
    domain_names_prefix(entities, entities.len() as int)
}

/// The distinct names of the System entities among the first `k`.
pub open spec fn system_names_prefix(entities: Seq<EntityWithSource>, k: int) -> Seq<Seq<char>>
    decreases k,
{
    if k <= 0 {
        Seq::empty()
    } else {
        let prev = system_names_prefix(entities, k - 1);
        if entities[k - 1].entity.kind == EntityKind::System {
            insert_name(prev, entities[k - 1].entity.metadata.name@)
        } else {
            prev
        }
    }
}

/// The distinct names of all System entities, in first-appearance
/// order.
pub open spec fn system_names(entities: Seq<EntityWithSource>) -> Seq<Seq<char>> {
    system_names_prefix(entities, entities.len() as int)
}

/// The indices of the Domain entities named `name` among the first
/// `k`, in order.
pub open spec fn domain_group_prefix(
    entities: Seq<EntityWithSource>,
    name: Seq<char>,
    k: int,
) -> Seq<int>
    decreases k,
{
    if k <= 0 {
        Seq::empty()
    } else {
        let prev = domain_group_prefix(entities, name, k - 1);
        if entities[k - 1].entity.kind == EntityKind::Domain && entities[k
            - 1].entity.metadata.name@ == name {
            prev.push(k - 1)
        } else {
            prev
        }
    }
}

/// The indices of all Domain entities named `name`.
pub open spec fn domain_group(entities: Seq<EntityWithSource>, name: Seq<char>) -> Seq<int> {
    domain_group_prefix(entities, name, entities.len() as int)
}

/// The indices of the System entities named `name` among the first
/// `k`, in order.
pub open spec fn system_group_prefix(
    entities: Seq<EntityWithSource>,
    name: Seq<char>,
    k: int,
) -> Seq<int>
    decreases k,
{
    if k <= 0 {
        Seq::empty()
    } else {
        let prev = system_group_prefix(entities, name, k - 1);
        if entities[k - 1].entity.kind == EntityKind::System && entities[k
            - 1].entity.metadata.name@ == name {
            prev.push(k - 1)
        } else {
            prev
        }
    }
}

/// The indices of all System entities named `name`.
pub open spec fn system_group(entities: Seq<EntityWithSource>, name: Seq<char>) -> Seq<int> {
    system_group_prefix(entities, name, entities.len() as int)
}

/// The domain recorded for system name `name` among the first `k`
/// entities: the `domain` field of the last System entity of that
/// name that declares one.
pub open spec fn sys_domain_prefix(
    entities: Seq<EntityWithSource>,
    name: Seq<char>,
    k: int,
) -> Option<Seq<char>>
    decreases k,
{
    if k <= 0 {
        None
    } else {
        let prev = sys_domain_prefix(entities, name, k - 1);
        let e = entities[k - 1].entity;
        if e.kind == EntityKind::System && e.metadata.name@ == name && spec_get_str(
            e.spec,
            "domain"@,
        ) is Some {
            spec_get_str(e.spec, "domain"@)
        } else {
            prev
        }
    }
}

/// The domain recorded for system name `name`, if any.
pub open spec fn sys_domain(entities: Seq<EntityWithSource>, name: Seq<char>) -> Option<Seq<char>> {
    sys_domain_prefix(entities, name, entities.len() as int)
}

/// Whether a kind is bucketed by its declared system.
pub open spec fn is_component_kind(k: EntityKind) -> bool {
    k == EntityKind::Component || k == EntityKind::Api || k == EntityKind::Resource
}

/// The indices of the component-like entities declaring system
/// `name` among the first `k`, in order.
pub open spec fn comps_of_prefix(
    entities: Seq<EntityWithSource>,
    name: Seq<char>,
    k: int,
) -> Seq<int>
    decreases k,
{
    if k <= 0 {
        Seq::empty()
    } else {
        let prev = comps_of_prefix(entities, name, k - 1);
        let e = entities[k - 1].entity;
        if is_component_kind(e.kind) && spec_get_str(e.spec, "system"@) == Some(name) {
            prev.push(k - 1)
        } else {
            prev
        }
    }
}

/// The indices of all component-like entities declaring system
/// `name`.
pub open spec fn comps_of(entities: Seq<EntityWithSource>, name: Seq<char>) -> Seq<int> {
    comps_of_prefix(entities, name, entities.len() as int)
}

/// Whether an entity is ungrouped: a component-like entity with no
/// declared system, or any kind outside Domain, System and the
/// component-like kinds.
pub open spec fn is_ungrouped(e: Entity) -> bool {
    if e.kind == EntityKind::Domain || e.kind == EntityKind::System {
        false
    } else if is_component_kind(e.kind) {
        spec_get_str(e.spec, "system"@) is None
    } else {
        true
    }
}

/// The indices of the ungrouped entities among the first `k`, in
/// order.
pub open spec fn ungrouped_prefix(entities: Seq<EntityWithSource>, k: int) -> Seq<int>
    decreases k,
{
    if k <= 0 {
        Seq::empty()
    } else {
        let prev = ungrouped_prefix(entities, k - 1);
        if is_ungrouped(entities[k - 1].entity) {
            prev.push(k - 1)
        } else {
            prev
        }
    }
}

/// The indices of all ungrouped entities.
pub open spec fn ungrouped(entities: Seq<EntityWithSource>) -> Seq<int> {
    ungrouped_prefix(entities, entities.len() as int)
}

/// A system name is orphaned when it records no domain, or records
/// one that no Domain entity bears.
pub open spec fn is_orphan(entities: Seq<EntityWithSource>, name: Seq<char>) -> bool {
    match sys_domain(entities, name) {
        None => true,
        Some(d) => !domain_names(entities).contains(d),
    }
}

/// The orphaned names among the first `k` system names, in order.
pub open spec fn orphan_names_prefix(
    entities: Seq<EntityWithSource>,
    names: Seq<Seq<char>>,
    k: int,
) -> Seq<Seq<char>>
    decreases k,
{
    if k <= 0 {
        Seq::empty()
    } else {
        let prev = orphan_names_prefix(entities, names, k - 1);
        if is_orphan(entities, names[k - 1]) {
            prev.push(names[k - 1])
        } else {
            prev
        }
    }
}

/// The orphaned system names, in system-name order.
pub open spec fn orphan_names(entities: Seq<EntityWithSource>) -> Seq<Seq<char>> {
    let names = system_names(entities);
    orphan_names_prefix(entities, names, names.len() as int)
}

/// Whether `n` is among the views of `names`.
#[verifier::loop_isolation(false)]
fn is_name_in(names: &Vec<String>, n: &str) -> (r: bool)
    ensures
        r == strs_view(names@).contains(n@),
{
    let len = names.len();
    let mut i: usize = 0;
    while i < len
        invariant
            0 <= i <= len,
            forall|j: int| 0 <= j < i ==> strs_view(names@)[j] != n@,
        decreases len - i,
    {
        if str_eq_str(names[i].as_str(), n) {
            proof {
                assert(strs_view(names@)[i as int] == n@);
            }
            return true;
        }
        i = i + 1;
    }
    false
}

/// Collect the distinct Domain entity names, in first-appearance
/// order.
#[verifier::loop_isolation(false)]
fn collect_domain_names(entities: &Vec<EntityWithSource>) -> (r: Vec<String>)
    ensures
        strs_view(r@) == domain_names(entities@),
{
    let n = entities.len();
    let mut names: Vec<String> = Vec::new();
    let mut i: usize = 0;
    proof {
        assert(strs_view(names@) =~= domain_names_prefix(entities@, 0));
    }
    while i < n
        invariant
            0 <= i <= n,
            strs_view(names@) == domain_names_prefix(entities@, i as int),
        decreases n - i,
    {
        let e = &entities[i].entity;
        if matches!(e.kind, EntityKind::Domain) {
            if !is_name_in(&names, e.metadata.name.as_str()) {
                let ghost prev = names@;
                names.push(e.metadata.name.clone());
                proof {
                    assert(strs_view(names@) =~= strs_view(prev).push(
                        entities@[i as int].entity.metadata.name@,
                    ));
                }
            }
        }
        proof {
            assert(strs_view(names@) =~= domain_names_prefix(entities@, i + 1));
        }
        i = i + 1;
    }
    names
}

/// Collect the distinct System entity names, in first-appearance
/// order.
#[verifier::loop_isolation(false)]
fn collect_system_names(entities: &Vec<EntityWithSource>) -> (r: Vec<String>)
    ensures
        strs_view(r@) == system_names(entities@),
{
    let n = entities.len();
    let mut names: Vec<String> = Vec::new();
    let mut i: usize = 0;
    proof {
        assert(strs_view(names@) =~= system_names_prefix(entities@, 0));
    }
    while i < n
        invariant
            0 <= i <= n,
            strs_view(names@) == system_names_prefix(entities@, i as int),
        decreases n - i,
    {
        let e = &entities[i].entity;
        if matches!(e.kind, EntityKind::System) {
            if !is_name_in(&names, e.metadata.name.as_str()) {
                let ghost prev = names@;
                names.push(e.metadata.name.clone());
                proof {
                    assert(strs_view(names@) =~= strs_view(prev).push(
                        entities@[i as int].entity.metadata.name@,
                    ));
                }
            }
        }
        proof {
            assert(strs_view(names@) =~= system_names_prefix(entities@, i + 1));
        }
        i = i + 1;
    }
    names
}

/// Collect the indices of the Domain entities named `name`.
#[verifier::loop_isolation(false)]
fn domain_group_exec(entities: &Vec<EntityWithSource>, name: &str) -> (r: Vec<usize>)
    ensures
        usizes_view(r@) == domain_group(entities@, name@),
        forall|k: int| 0 <= k < r@.len() ==> (#[trigger] r@[k]) < entities@.len(),
{
    let n = entities.len();
    let mut out: Vec<usize> = Vec::new();
    let mut i: usize = 0;
    proof {
        assert(usizes_view(out@) =~= domain_group_prefix(entities@, name@, 0));
    }
    while i < n
        invariant
            0 <= i <= n,
            usizes_view(out@) == domain_group_prefix(entities@, name@, i as int),
            forall|k: int| 0 <= k < out@.len() ==> (#[trigger] out@[k]) < entities@.len(),
        decreases n - i,
    {
        let e = &entities[i].entity;
        if matches!(e.kind, EntityKind::Domain) && str_eq_str(e.metadata.name.as_str(), name) {
            let ghost prev = out@;
            out.push(i);
            proof {
                assert(usizes_view(out@) =~= usizes_view(prev).push(i as int));
            }
        }
        proof {
            assert(usizes_view(out@) =~= domain_group_prefix(entities@, name@, i + 1));
        }
        i = i + 1;
    }
    out
}

/// Collect the indices of the System entities named `name`.
#[verifier::loop_isolation(false)]
fn system_group_exec(entities: &Vec<EntityWithSource>, name: &str) -> (r: Vec<usize>)
    ensures
        usizes_view(r@) == system_group(entities@, name@),
        forall|k: int| 0 <= k < r@.len() ==> (#[trigger] r@[k]) < entities@.len(),
{
    let n = entities.len();
    let mut out: Vec<usize> = Vec::new();
    let mut i: usize = 0;
    proof {
        assert(usizes_view(out@) =~= system_group_prefix(entities@, name@, 0));
    }
    while i < n
        invariant
            0 <= i <= n,
            usizes_view(out@) == system_group_prefix(entities@, name@, i as int),
            forall|k: int| 0 <= k < out@.len() ==> (#[trigger] out@[k]) < entities@.len(),
        decreases n - i,
    {
        let e = &entities[i].entity;
        if matches!(e.kind, EntityKind::System) && str_eq_str(e.metadata.name.as_str(), name) {
            let ghost prev = out@;
            out.push(i);
            proof {
                assert(usizes_view(out@) =~= usizes_view(prev).push(i as int));
            }
        }
        proof {
            assert(usizes_view(out@) =~= system_group_prefix(entities@, name@, i + 1));
        }
        i = i + 1;
    }
    out
}

/// The domain recorded for system name `name`, if any.
#[verifier::loop_isolation(false)]
fn sys_domain_exec(entities: &Vec<EntityWithSource>, name: &str) -> (r: Option<String>)
    ensures
        match r {
            Some(d) => sys_domain(entities@, name@) == Some(d@),
            None => sys_domain(entities@, name@) is None,
        },
{
    let n = entities.len();
    let mut found: Option<String> = None;
    let mut i: usize = 0;
    while i < n
        invariant
            0 <= i <= n,
            match found {
                Some(d) => sys_domain_prefix(entities@, name@, i as int) == Some(d@),
                None => sys_domain_prefix(entities@, name@, i as int) is None,
            },
        decreases n - i,
    {
        let e = &entities[i].entity;
        if matches!(e.kind, EntityKind::System) && str_eq_str(e.metadata.name.as_str(), name) {
            match e.domain() {
                Some(d) => {
                    found = Some(d);
                },
                None => {},
            }
        }
        i = i + 1;
    }
    found
}

/// Collect the indices of the component-like entities declaring
/// system `name`.
#[verifier::loop_isolation(false)]
fn comps_of_exec(entities: &Vec<EntityWithSource>, name: &str) -> (r: Vec<usize>)
    ensures
        usizes_view(r@) == comps_of(entities@, name@),
        forall|k: int| 0 <= k < r@.len() ==> (#[trigger] r@[k]) < entities@.len(),
{
    let n = entities.len();
    let mut out: Vec<usize> = Vec::new();
    let mut i: usize = 0;
    proof {
        assert(usizes_view(out@) =~= comps_of_prefix(entities@, name@, 0));
    }
    while i < n
        invariant
            0 <= i <= n,
            usizes_view(out@) == comps_of_prefix(entities@, name@, i as int),
            forall|k: int| 0 <= k < out@.len() ==> (#[trigger] out@[k]) < entities@.len(),
        decreases n - i,
    {
        let e = &entities[i].entity;
        let is_comp = matches!(
            e.kind,
            EntityKind::Component
            | EntityKind::Api
            | EntityKind::Resource
        );
        if is_comp {
            match e.system() {
                Some(s) => {
                    if str_eq_str(s.as_str(), name) {
                        let ghost prev = out@;
                        out.push(i);
                        proof {
                            assert(usizes_view(out@) =~= usizes_view(prev).push(i as int));
                        }
                    }
                },
                None => {},
            }
        }
        proof {
            assert(usizes_view(out@) =~= comps_of_prefix(entities@, name@, i + 1));
        }
        i = i + 1;
    }
    out
}

/// Collect the indices of the ungrouped entities.
#[verifier::loop_isolation(false)]
fn ungrouped_exec(entities: &Vec<EntityWithSource>) -> (r: Vec<usize>)
    ensures
        usizes_view(r@) == ungrouped(entities@),
        forall|k: int| 0 <= k < r@.len() ==> (#[trigger] r@[k]) < entities@.len(),
{
    let n = entities.len();
    let mut out: Vec<usize> = Vec::new();
    let mut i: usize = 0;
    proof {
        assert(usizes_view(out@) =~= ungrouped_prefix(entities@, 0));
    }
    while i < n
        invariant
            0 <= i <= n,
            usizes_view(out@) == ungrouped_prefix(entities@, i as int),
            forall|k: int| 0 <= k < out@.len() ==> (#[trigger] out@[k]) < entities@.len(),
        decreases n - i,
    {
        let e = &entities[i].entity;
        let take = if matches!(e.kind, EntityKind::Domain | EntityKind::System) {
            false
        } else if matches!(
            e.kind,
            EntityKind::Component
            | EntityKind::Api
            | EntityKind::Resource
        ) {
            match e.system() {
                Some(_) => false,
                None => true,
            }
        } else {
            true
        };
        if take {
            let ghost prev = out@;
            out.push(i);
            proof {
                assert(usizes_view(out@) =~= usizes_view(prev).push(i as int));
            }
        }
        proof {
            assert(usizes_view(out@) =~= ungrouped_prefix(entities@, i + 1));
        }
        i = i + 1;
    }
    out
}

/// Keep the orphaned names among the system names, in order.
#[verifier::loop_isolation(false)]
fn orphan_names_exec(
    entities: &Vec<EntityWithSource>,
    sys_names: &Vec<String>,
    dom_names: &Vec<String>,
) -> (r: Vec<String>)
    requires
        strs_view(sys_names@) == system_names(entities@),
        strs_view(dom_names@) == domain_names(entities@),
    ensures
        strs_view(r@) == orphan_names(entities@),
{
    let n = sys_names.len();
    let mut out: Vec<String> = Vec::new();
    let mut i: usize = 0;
    proof {
        assert(strs_view(out@) =~= orphan_names_prefix(entities@, strs_view(sys_names@), 0));
    }
    while i < n
        invariant
            0 <= i <= n,
            strs_view(out@) == orphan_names_prefix(entities@, strs_view(sys_names@), i as int),
        decreases n - i,
    {
        let orphan = match sys_domain_exec(entities, sys_names[i].as_str()) {
            None => true,
            Some(d) => !is_name_in(dom_names, d.as_str()),
        };
        if orphan {
            let ghost prev = out@;
            out.push(sys_names[i].clone());
            proof {
                assert(strs_view(out@) =~= strs_view(prev).push(sys_names@[i as int]@));
            }
        }
        proof {
            assert(strs_view(out@) =~= orphan_names_prefix(
                entities@,
                strs_view(sys_names@),
                i + 1,
            ));
        }
        i = i + 1;
    }
    out
}


/// The label of an entity node: `Kind: display-name`.
pub open spec fn entity_label_spec(e: Entity) -> Seq<char> {
    kind_label_spec(e.kind) + ": "@ + display_name_spec(e)
}

/// Build the label of an entity node.
fn entity_label(e: &Entity) -> (r: String)
    ensures
        r@ == entity_label_spec(*e),
{
    let mut s = e.kind.label();
    s.append(": ");
    let d = e.display_name();
    s.append(d.as_str());
    s
}

/// The mathematical model of one arena node. The node's id is its
/// position in the arena; an entity node refers to its source entity
/// by snapshot index.
#[verifier::ext_equal]
pub struct TreeNodeV {
    pub label: Seq<char>,
    pub depth: int,
    pub entity: Option<int>,
    pub children: Seq<int>,
    pub is_category: bool,
}

/// An arena node realizes a model node standing at position `pos`.
pub open spec fn node_matches(
    n: TreeNode,
    pos: int,
    m: TreeNodeV,
    entities: Seq<EntityWithSource>,
) -> bool {
    &&& n.id == pos
    &&& n.label@ == m.label
    &&& n.depth == m.depth
    &&& n.is_category == m.is_category
    &&& n.children@.len() == m.children.len()
    &&& forall|k: int| 0 <= k < m.children.len() ==> (#[trigger] n.children@[k]) as int
        == m.children[k]
    &&& match m.entity {
        Some(e) => {
            &&& 0 <= e < entities.len()
            &&& n.entity is Some
            &&& ews_like(n.entity->0, entities[e])
        },
        None => n.entity is None,
    }
}

/// A run of arena nodes starting at position `base` realizes a run
/// of model nodes.
pub open spec fn nodes_match(
    ns: Seq<TreeNode>,
    base: int,
    ms: Seq<TreeNodeV>,
    entities: Seq<EntityWithSource>,
) -> bool {
    &&& ns.len() == ms.len()
    &&& forall|i: int| 0 <= i < ms.len() ==> node_matches(#[trigger] ns[i], base + i, ms[i], entities)
}

/// The leaf nodes of the entities at `idxs`, one after another from
/// position `start`, all at the same depth.
pub open spec fn leaves_model(
    entities: Seq<EntityWithSource>,
    idxs: Seq<int>,
    depth: int,
) -> Seq<TreeNodeV> {
    Seq::new(
        idxs.len(),
        |k: int|
            TreeNodeV {
                label: entity_label_spec(entities[idxs[k]].entity),
                depth,
                entity: Some(idxs[k]),
                children: Seq::empty(),
                is_category: false,
            },
    )
}

/// One system subtree: the system entity's node at `start`, followed
/// by a leaf for each component-like entity bucketed under the
/// system's name.
pub open spec fn system_chunk_model(
    entities: Seq<EntityWithSource>,
    sysname: Seq<char>,
    sys_idx: int,
    start: int,
    depth: int,
) -> Seq<TreeNodeV> {
    let comps = comps_of(entities, sysname);
    seq![
        TreeNodeV {
            label: entity_label_spec(entities[sys_idx].entity),
            depth,
            entity: Some(sys_idx),
            children: Seq::new(comps.len(), |k: int| start + 1 + k),
            is_category: false,
        },
    ] + leaves_model(entities, comps, depth + 1)
}

/// The subtrees of the first `k` system entities sharing one name,
/// one after another from `start`, paired with the positions of the
/// system nodes themselves.
pub open spec fn sys_chunks_model(
    entities: Seq<EntityWithSource>,
    sysname: Seq<char>,
    idxs: Seq<int>,
    start: int,
    depth: int,
    k: int,
) -> (Seq<TreeNodeV>, Seq<int>)
    decreases k,
{
    if k <= 0 {
        (Seq::empty(), Seq::empty())
    } else {
        let (pre, ids) = sys_chunks_model(entities, sysname, idxs, start, depth, k - 1);
        let c = system_chunk_model(entities, sysname, idxs[k - 1], start + pre.len(), depth);
        (pre + c, ids.push(start + pre.len() as int))
    }
}

/// The subtrees of every system, among the first `k` system names,
/// whose recorded domain is `dname`, one after another from `start`,
/// paired with the positions of the system nodes.
pub open spec fn domain_systems_model(
    entities: Seq<EntityWithSource>,
    names: Seq<Seq<char>>,
    dname: Seq<char>,
    start: int,
    depth: int,
    k: int,
) -> (Seq<TreeNodeV>, Seq<int>)
    decreases k,
{
    if k <= 0 {
        (Seq::empty(), Seq::empty())
    } else {
        let (pre, ids) = domain_systems_model(entities, names, dname, start, depth, k - 1);
        if sys_domain(entities, names[k - 1]) == Some(dname) {
            let g = system_group(entities, names[k - 1]);
            let (c, cids) = sys_chunks_model(
                entities,
                names[k - 1],
                g,
                start + pre.len(),
                depth,
                g.len() as int,
            );
            (pre + c, ids + cids)
        } else {
            (pre, ids)
        }
    }
}

/// One domain subtree: the domain entity's node at `start`, followed
/// by the subtrees of the systems recorded under its name.
pub open spec fn domain_chunk_model(
    entities: Seq<EntityWithSource>,
    dname: Seq<char>,
    d_idx: int,
    start: int,
) -> Seq<TreeNodeV> {
    let names = system_names(entities);
    let (sys_nodes, sys_ids) = domain_systems_model(
        entities,
        names,
        dname,
        start + 1,
        2,
        names.len() as int,
    );
    seq![
        TreeNodeV {
            label: entity_label_spec(entities[d_idx].entity),
            depth: 1,
            entity: Some(d_idx),
            children: sys_ids,
            is_category: false,
        },
    ] + sys_nodes
}

/// The subtrees of the first `k` domain entities sharing one name,
/// paired with the positions of the domain nodes.
pub open spec fn domain_chunks_model(
    entities: Seq<EntityWithSource>,
    dname: Seq<char>,
    idxs: Seq<int>,
    start: int,
    k: int,
) -> (Seq<TreeNodeV>, Seq<int>)
    decreases k,
{
    if k <= 0 {
        (Seq::empty(), Seq::empty())
    } else {
        let (pre, ids) = domain_chunks_model(entities, dname, idxs, start, k - 1);
        let c = domain_chunk_model(entities, dname, idxs[k - 1], start + pre.len());
        (pre + c, ids.push(start + pre.len() as int))
    }
}

/// The domain subtrees of the first `k` domain names, paired with
/// the positions of the domain nodes.
pub open spec fn domains_forest_model(
    entities: Seq<EntityWithSource>,
    names: Seq<Seq<char>>,
    start: int,
    k: int,
) -> (Seq<TreeNodeV>, Seq<int>)
    decreases k,
{
    if k <= 0 {
        (Seq::empty(), Seq::empty())
    } else {
        let (pre, ids) = domains_forest_model(entities, names, start, k - 1);
        let g = domain_group(entities, names[k - 1]);
        let (c, cids) = domain_chunks_model(
            entities,
            names[k - 1],
            g,
            start + pre.len(),
            g.len() as int,
        );
        (pre + c, ids + cids)
    }
}

/// The Domains section, standing at position 0: absent when there is
/// no Domain entity, else the category node followed by the domain
/// forest. The second component lists the root position.
pub open spec fn domains_section_model(entities: Seq<EntityWithSource>) -> (
    Seq<TreeNodeV>,
    Seq<int>,
) {
    let names = domain_names(entities);
    if names.len() == 0 {
        (Seq::empty(), Seq::empty())
    } else {
        let (f, ids) = domains_forest_model(entities, names, 1, names.len() as int);
        (
            seq![
                TreeNodeV {
                    label: "Domains"@,
                    depth: 0,
                    entity: None,
                    children: ids,
                    is_category: true,
                },
            ] + f,
            seq![0],
        )
    }
}

/// The subtrees of the first `k` orphaned system names, from
/// `start`, paired with the positions of the system nodes.
pub open spec fn orphans_forest_model(
    entities: Seq<EntityWithSource>,
    names: Seq<Seq<char>>,
    start: int,
    k: int,
) -> (Seq<TreeNodeV>, Seq<int>)
    decreases k,
{
    if k <= 0 {
        (Seq::empty(), Seq::empty())
    } else {
        let (pre, ids) = orphans_forest_model(entities, names, start, k - 1);
        let g = system_group(entities, names[k - 1]);
        let (c, cids) = sys_chunks_model(
            entities,
            names[k - 1],
            g,
            start + pre.len(),
            1,
            g.len() as int,
        );
        (pre + c, ids + cids)
    }
}

/// The Systems section for orphaned systems, standing at `start`.
pub open spec fn systems_section_model(entities: Seq<EntityWithSource>, start: int) -> (
    Seq<TreeNodeV>,
    Seq<int>,
) {
    let names = orphan_names(entities);
    if names.len() == 0 {
        (Seq::empty(), Seq::empty())
    } else {
        let (f, ids) = orphans_forest_model(entities, names, start + 1, names.len() as int);
        (
            seq![
                TreeNodeV {
                    label: "Systems"@,
                    depth: 0,
                    entity: None,
                    children: ids,
                    is_category: true,
                },
            ] + f,
            seq![start],
        )
    }
}

/// The Other Entities section, standing at `start`.
pub open spec fn other_section_model(entities: Seq<EntityWithSource>, start: int) -> (
    Seq<TreeNodeV>,
    Seq<int>,
) {
    let ug = ungrouped(entities);
    if ug.len() == 0 {
        (Seq::empty(), Seq::empty())
    } else {
        (
            seq![
                TreeNodeV {
                    label: "Other Entities"@,
                    depth: 0,
                    entity: None,
                    children: Seq::new(ug.len(), |k: int| start + 1 + k),
                    is_category: true,
                },
            ] + leaves_model(entities, ug, 1),
            seq![start],
        )
    }
}

/// The whole arena a snapshot yields: the three sections one after
/// another, and the root positions of the categories present.
pub open spec fn tree_model(entities: Seq<EntityWithSource>) -> (Seq<TreeNodeV>, Seq<int>) {
    let (d, dr) = domains_section_model(entities);
    let (s, sr) = systems_section_model(entities, d.len() as int);
    let (o, orr) = other_section_model(entities, d.len() + s.len() as int);
    (d + s + o, dr + sr + orr)
}


/// Two matching runs, one after the other, match the joined models.
proof fn lemma_nodes_match_concat(
    ns1: Seq<TreeNode>,
    ns2: Seq<TreeNode>,
    base: int,
    ms1: Seq<TreeNodeV>,
    ms2: Seq<TreeNodeV>,
    entities: Seq<EntityWithSource>,
)
    requires
        nodes_match(ns1, base, ms1, entities),
        nodes_match(ns2, base + ms1.len(), ms2, entities),
    ensures
        nodes_match(ns1 + ns2, base, ms1 + ms2, entities),
{
    assert forall|i: int| 0 <= i < (ms1 + ms2).len() implies node_matches(
        #[trigger] (ns1 + ns2)[i],
        base + i,
        (ms1 + ms2)[i],
        entities,
    ) by {
        if i < ms1.len() {
            assert((ns1 + ns2)[i] == ns1[i]);
        } else {
            assert((ns1 + ns2)[i] == ns2[i - ms1.len()]);
        }
    }
}

/// Append one leaf node per listed entity, at one depth; the ids
/// handed back are the consecutive arena positions used.
#[verifier::loop_isolation(false)]
fn push_leaves(
    nodes: &mut Vec<TreeNode>,
    entities: &Vec<EntityWithSource>,
    idxs: &Vec<usize>,
    depth: usize,
) -> (ids: Vec<usize>)
    requires
        forall|k: int| 0 <= k < idxs@.len() ==> (#[trigger] idxs@[k]) < entities@.len(),
    ensures
        final(nodes)@.len() == old(nodes)@.len() + idxs@.len(),
        final(nodes)@.take(old(nodes)@.len() as int) == old(nodes)@,
        nodes_match(
            final(nodes)@.skip(old(nodes)@.len() as int),
            old(nodes)@.len() as int,
            leaves_model(entities@, usizes_view(idxs@), depth as int),
            entities@,
        ),
        usizes_view(ids@) == Seq::new(idxs@.len() as nat, |k: int| old(nodes)@.len() + k),
{
    let ghost base = old(nodes)@.len() as int;
    let n = idxs.len();
    let mut ids: Vec<usize> = Vec::new();
    let mut i: usize = 0;
    while i < n
        invariant
            0 <= i <= n,
            nodes@.len() == base + i,
            nodes@.take(base) == old(nodes)@,
            nodes_match(
                nodes@.skip(base),
                base,
                leaves_model(entities@, usizes_view(idxs@).take(i as int), depth as int),
                entities@,
            ),
            usizes_view(ids@) == Seq::new(i as nat, |k: int| base + k),
        decreases n - i,
    {
        let idx = idxs[i];
        let id = nodes.len();
        let node = TreeNode {
            id,
            label: entity_label(&entities[idx].entity),
            depth,
            entity: Some(entities[idx].duplicate()),
            children: Vec::new(),
            is_category: false,
        };
        let ghost prev = nodes@;
        let ghost previds = ids@;
        nodes.push(node);
        ids.push(id);
        proof {
            assert(nodes@.take(base) =~= prev.take(base));
            assert(nodes@.skip(base) =~= prev.skip(base).push(nodes@[base + i]));
            assert(usizes_view(idxs@).take(i + 1) =~= usizes_view(idxs@).take(i as int).push(
                idxs@[i as int] as int,
            ));
            assert(nodes_match(
                nodes@.skip(base),
                base,
                leaves_model(entities@, usizes_view(idxs@).take(i + 1), depth as int),
                entities@,
            ));
            assert(usizes_view(ids@) =~= usizes_view(previds).push(id as int));
            assert(usizes_view(ids@) =~= Seq::new((i + 1) as nat, |k: int| base + k));
        }
        i = i + 1;
    }
    proof {
        assert(usizes_view(idxs@).take(n as int) =~= usizes_view(idxs@));
        assert(nodes@.take(base) == old(nodes)@);
    }
    ids
}

/// Append one system subtree: the system node, then a leaf per
/// bucketed component-like entity.
#[verifier::loop_isolation(false)]
fn push_system_chunk(
    nodes: &mut Vec<TreeNode>,
    entities: &Vec<EntityWithSource>,
    sysname: &str,
    sys_idx: usize,
    depth: usize,
) -> (sys_id: usize)
    requires
        sys_idx < entities@.len(),
        depth < 100,
    ensures
        final(nodes)@.len() == old(nodes)@.len() + system_chunk_model(
            entities@,
            sysname@,
            sys_idx as int,
            old(nodes)@.len() as int,
            depth as int,
        ).len(),
        final(nodes)@.take(old(nodes)@.len() as int) == old(nodes)@,
        nodes_match(
            final(nodes)@.skip(old(nodes)@.len() as int),
            old(nodes)@.len() as int,
            system_chunk_model(
                entities@,
                sysname@,
                sys_idx as int,
                old(nodes)@.len() as int,
                depth as int,
            ),
            entities@,
        ),
        sys_id == old(nodes)@.len(),
{
    let ghost base = old(nodes)@.len() as int;
    let sys_id = nodes.len();
    let placeholder = TreeNode {
        id: sys_id,
        label: entity_label(&entities[sys_idx].entity),
        depth,
        entity: Some(entities[sys_idx].duplicate()),
        children: Vec::new(),
        is_category: false,
    };
    nodes.push(placeholder);
    let comps = comps_of_exec(entities, sysname);
    let child_ids = push_leaves(nodes, entities, &comps, depth + 1);
    let ghost child_ids_view = child_ids@;
    let filled = TreeNode {
        id: sys_id,
        label: entity_label(&entities[sys_idx].entity),
        depth,
        entity: Some(entities[sys_idx].duplicate()),
        children: child_ids,
        is_category: false,
    };
    let ghost n2 = nodes@;
    nodes.set(sys_id, filled);
    proof {
        let m = system_chunk_model(entities@, sysname@, sys_idx as int, base, depth as int);
        let comps_m = comps_of(entities@, sysname@);
        let leaves = leaves_model(entities@, comps_m, depth + 1);
        assert(n2.take(base + 1).take(base) =~= n2.take(base));
        assert(n2.take(base) =~= old(nodes)@);
        assert(nodes@ == n2.update(base, filled));
        assert(nodes@.take(base) =~= n2.take(base));
        assert(usizes_view(comps@) == comps_m);
        assert(nodes@.skip(base).len() == m.len());
        assert forall|i: int| 0 <= i < m.len() implies node_matches(
            #[trigger] nodes@.skip(base)[i],
            base + i,
            m[i],
            entities@,
        ) by {
            assert(nodes@.skip(base)[i] == nodes@[base + i]);
            if i == 0 {
                assert(nodes@[base] == filled);
                assert(m[0].children =~= Seq::new(comps_m.len(), |k: int| base + 1 + k));
                assert(usizes_view(child_ids_view) =~= Seq::new(
                    comps_m.len(),
                    |k: int| base + 1 + k,
                ));
            } else {
                assert(nodes@[base + i] == n2[base + i]);
                assert(n2[base + i] == n2.skip(base + 1)[i - 1]);
                assert(node_matches(n2.skip(base + 1)[i - 1], base + 1 + (i - 1), leaves[i - 1], entities@));
                assert(m[i] == leaves[i - 1]);
            }
        }
    }
    sys_id
}

/// Append the subtrees of every system entity sharing one name; the
/// ids handed back are the positions of the system nodes.
#[verifier::loop_isolation(false)]
fn push_sys_chunks(
    nodes: &mut Vec<TreeNode>,
    entities: &Vec<EntityWithSource>,
    sysname: &str,
    idxs: &Vec<usize>,
    depth: usize,
) -> (ids: Vec<usize>)
    requires
        forall|k: int| 0 <= k < idxs@.len() ==> (#[trigger] idxs@[k]) < entities@.len(),
        depth < 100,
    ensures
        ({
            let (m, mids) = sys_chunks_model(
                entities@,
                sysname@,
                usizes_view(idxs@),
                old(nodes)@.len() as int,
                depth as int,
                idxs@.len() as int,
            );
            &&& final(nodes)@.len() == old(nodes)@.len() + m.len()
            &&& final(nodes)@.take(old(nodes)@.len() as int) == old(nodes)@
            &&& nodes_match(final(nodes)@.skip(old(nodes)@.len() as int), old(nodes)@.len() as int, m, entities@)
            &&& usizes_view(ids@) == mids
        }),
{
    let ghost base = old(nodes)@.len() as int;
    let n = idxs.len();
    let mut ids: Vec<usize> = Vec::new();
    let mut i: usize = 0;
    while i < n
        invariant
            0 <= i <= n,
            ({
                let (m, mids) = sys_chunks_model(
                    entities@,
                    sysname@,
                    usizes_view(idxs@),
                    base,
                    depth as int,
                    i as int,
                );
                &&& nodes@.len() == base + m.len()
                &&& nodes@.take(base) == old(nodes)@
                &&& nodes_match(nodes@.skip(base), base, m, entities@)
                &&& usizes_view(ids@) == mids
            }),
        decreases n - i,
    {
        let ghost (m0, mids0) = sys_chunks_model(
            entities@,
            sysname@,
            usizes_view(idxs@),
            base,
            depth as int,
            i as int,
        );
        let ghost prefix = nodes@.skip(base);
        let sid = push_system_chunk(nodes, entities, sysname, idxs[i], depth);
        ids.push(sid);
        proof {
            let (m1, mids1) = sys_chunks_model(
                entities@,
                sysname@,
                usizes_view(idxs@),
                base,
                depth as int,
                i + 1,
            );
            let c = system_chunk_model(
                entities@,
                sysname@,
                usizes_view(idxs@)[i as int],
                base + m0.len(),
                depth as int,
            );
            assert(nodes@.take(base) =~= old(nodes)@);
            assert(nodes@.skip(base) =~= prefix + nodes@.skip(base + m0.len()));
            lemma_nodes_match_concat(prefix, nodes@.skip(base + m0.len()), base, m0, c, entities@);
            assert(usizes_view(ids@) =~= mids1);
        }
        i = i + 1;
    }
    ids
}



/// Append the subtrees of every system recorded under domain name
/// `dname`, scanning the system names in order; the ids handed back
/// are the positions of the system nodes.
#[verifier::loop_isolation(false)]
fn push_domain_systems(
    nodes: &mut Vec<TreeNode>,
    entities: &Vec<EntityWithSource>,
    sys_names: &Vec<String>,
    dname: &str,
) -> (ids: Vec<usize>)
    requires
        strs_view(sys_names@) == system_names(entities@),
    ensures
        ({
            let (m, mids) = domain_systems_model(
                entities@,
                system_names(entities@),
                dname@,
                old(nodes)@.len() as int,
                2,
                system_names(entities@).len() as int,
            );
            &&& final(nodes)@.len() == old(nodes)@.len() + m.len()
            &&& final(nodes)@.take(old(nodes)@.len() as int) == old(nodes)@
            &&& nodes_match(final(nodes)@.skip(old(nodes)@.len() as int), old(nodes)@.len() as int, m, entities@)
            &&& usizes_view(ids@) == mids
        }),
{
    let ghost base = old(nodes)@.len() as int;
    let ghost names = system_names(entities@);
    let n = sys_names.len();
    let mut ids: Vec<usize> = Vec::new();
    let mut i: usize = 0;
    while i < n
        invariant
            0 <= i <= n,
            ({
                let (m, mids) = domain_systems_model(entities@, names, dname@, base, 2, i as int);
                &&& nodes@.len() == base + m.len()
                &&& nodes@.take(base) == old(nodes)@
                &&& nodes_match(nodes@.skip(base), base, m, entities@)
                &&& usizes_view(ids@) == mids
            }),
        decreases n - i,
    {
        let ghost (m0, mids0) = domain_systems_model(entities@, names, dname@, base, 2, i as int);
        let ghost prefix = nodes@.skip(base);
        let matched = match sys_domain_exec(entities, sys_names[i].as_str()) {
            Some(d) => str_eq_str(d.as_str(), dname),
            None => false,
        };
        if matched {
            let g = system_group_exec(entities, sys_names[i].as_str());
            let cids = push_sys_chunks(nodes, entities, sys_names[i].as_str(), &g, 2);
            let ghost previds = ids@;
            let cn = cids.len();
            let mut j: usize = 0;
            while j < cn
                invariant
                    0 <= j <= cn,
                    usizes_view(ids@) == usizes_view(previds) + usizes_view(cids@).take(j as int),
                decreases cn - j,
            {
                let ghost p2 = ids@;
                ids.push(cids[j]);
                proof {
                    assert(usizes_view(ids@) =~= usizes_view(p2).push(cids@[j as int] as int));
                    assert(usizes_view(ids@) =~= usizes_view(previds) + usizes_view(cids@).take(
                        j + 1,
                    ));
                }
                j = j + 1;
            }
            proof {
                let (m1, mids1) = domain_systems_model(
                    entities@,
                    names,
                    dname@,
                    base,
                    2,
                    i + 1,
                );
                let g_m = system_group(entities@, names[i as int]);
                let (c, cids_m) = sys_chunks_model(
                    entities@,
                    names[i as int],
                    g_m,
                    base + m0.len(),
                    2,
                    g_m.len() as int,
                );
                assert(usizes_view(cids@).take(cn as int) =~= usizes_view(cids@));
                assert(nodes@.take(base) =~= old(nodes)@);
                assert(nodes@.skip(base) =~= prefix + nodes@.skip(base + m0.len()));
                lemma_nodes_match_concat(
                    prefix,
                    nodes@.skip(base + m0.len()),
                    base,
                    m0,
                    c,
                    entities@,
                );
                assert(usizes_view(ids@) =~= mids1);
            }
        } else {
            proof {
                let (m1, mids1) = domain_systems_model(
                    entities@,
                    names,
                    dname@,
                    base,
                    2,
                    i + 1,
                );
                assert(m1 == m0);
                assert(mids1 == mids0);
            }
        }
        i = i + 1;
    }
    ids
}

/// Append one domain subtree: the domain node, then the subtrees of
/// the systems recorded under its name.
#[verifier::loop_isolation(false)]
fn push_domain_chunk(
    nodes: &mut Vec<TreeNode>,
    entities: &Vec<EntityWithSource>,
    dname: &str,
    d_idx: usize,
    sys_names: &Vec<String>,
) -> (d_id: usize)
    requires
        d_idx < entities@.len(),
        strs_view(sys_names@) == system_names(entities@),
    ensures
        final(nodes)@.len() == old(nodes)@.len() + domain_chunk_model(
            entities@,
            dname@,
            d_idx as int,
            old(nodes)@.len() as int,
        ).len(),
        final(nodes)@.take(old(nodes)@.len() as int) == old(nodes)@,
        nodes_match(
            final(nodes)@.skip(old(nodes)@.len() as int),
            old(nodes)@.len() as int,
            domain_chunk_model(entities@, dname@, d_idx as int, old(nodes)@.len() as int),
            entities@,
        ),
        d_id == old(nodes)@.len(),
{
    let ghost base = old(nodes)@.len() as int;
    let d_id = nodes.len();
    let placeholder = TreeNode {
        id: d_id,
        label: entity_label(&entities[d_idx].entity),
        depth: 1,
        entity: Some(entities[d_idx].duplicate()),
        children: Vec::new(),
        is_category: false,
    };
    nodes.push(placeholder);
    let child_ids = push_domain_systems(nodes, entities, sys_names, dname);
    let ghost child_ids_view = child_ids@;
    let filled = TreeNode {
        id: d_id,
        label: entity_label(&entities[d_idx].entity),
        depth: 1,
        entity: Some(entities[d_idx].duplicate()),
        children: child_ids,
        is_category: false,
    };
    let ghost n2 = nodes@;
    nodes.set(d_id, filled);
    proof {
        let m = domain_chunk_model(entities@, dname@, d_idx as int, base);
        let (sys_nodes, sys_ids) = domain_systems_model(
            entities@,
            system_names(entities@),
            dname@,
            base + 1,
            2,
            system_names(entities@).len() as int,
        );
        assert(n2.take(base + 1).take(base) =~= n2.take(base));
        assert(n2.take(base) =~= old(nodes)@);
        assert(nodes@ == n2.update(base, filled));
        assert(nodes@.take(base) =~= n2.take(base));
        assert(nodes@.skip(base).len() == m.len());
        assert forall|i: int| 0 <= i < m.len() implies node_matches(
            #[trigger] nodes@.skip(base)[i],
            base + i,
            m[i],
            entities@,
        ) by {
            assert(nodes@.skip(base)[i] == nodes@[base + i]);
            if i == 0 {
                assert(nodes@[base] == filled);
                assert(usizes_view(child_ids_view) == sys_ids);
            } else {
                assert(nodes@[base + i] == n2[base + i]);
                assert(n2[base + i] == n2.skip(base + 1)[i - 1]);
                assert(node_matches(
                    n2.skip(base + 1)[i - 1],
                    base + 1 + (i - 1),
                    sys_nodes[i - 1],
                    entities@,
                ));
                assert(m[i] == sys_nodes[i - 1]);
            }
        }
    }
    d_id
}

/// Append the subtrees of every Domain entity sharing one name; the
/// ids handed back are the positions of the domain nodes.
#[verifier::loop_isolation(false)]
fn push_domain_chunks(
    nodes: &mut Vec<TreeNode>,
    entities: &Vec<EntityWithSource>,
    dname: &str,
    idxs: &Vec<usize>,
    sys_names: &Vec<String>,
) -> (ids: Vec<usize>)
    requires
        forall|k: int| 0 <= k < idxs@.len() ==> (#[trigger] idxs@[k]) < entities@.len(),
        strs_view(sys_names@) == system_names(entities@),
    ensures
        ({
            let (m, mids) = domain_chunks_model(
                entities@,
                dname@,
                usizes_view(idxs@),
                old(nodes)@.len() as int,
                idxs@.len() as int,
            );
            &&& final(nodes)@.len() == old(nodes)@.len() + m.len()
            &&& final(nodes)@.take(old(nodes)@.len() as int) == old(nodes)@
            &&& nodes_match(final(nodes)@.skip(old(nodes)@.len() as int), old(nodes)@.len() as int, m, entities@)
            &&& usizes_view(ids@) == mids
        }),
{
    let ghost base = old(nodes)@.len() as int;
    let n = idxs.len();
    let mut ids: Vec<usize> = Vec::new();
    let mut i: usize = 0;
    while i < n
        invariant
            0 <= i <= n,
            ({
                let (m, mids) = domain_chunks_model(
                    entities@,
                    dname@,
                    usizes_view(idxs@),
                    base,
                    i as int,
                );
                &&& nodes@.len() == base + m.len()
                &&& nodes@.take(base) == old(nodes)@
                &&& nodes_match(nodes@.skip(base), base, m, entities@)
                &&& usizes_view(ids@) == mids
            }),
        decreases n - i,
    {
        let ghost (m0, mids0) = domain_chunks_model(
            entities@,
            dname@,
            usizes_view(idxs@),
            base,
            i as int,
        );
        let ghost prefix = nodes@.skip(base);
        let did = push_domain_chunk(nodes, entities, dname, idxs[i], sys_names);
        ids.push(did);
        proof {
            let (m1, mids1) = domain_chunks_model(
                entities@,
                dname@,
                usizes_view(idxs@),
                base,
                i + 1,
            );
            let c = domain_chunk_model(
                entities@,
                dname@,
                usizes_view(idxs@)[i as int],
                base + m0.len(),
            );
            assert(nodes@.take(base) =~= old(nodes)@);
            assert(nodes@.skip(base) =~= prefix + nodes@.skip(base + m0.len()));
            lemma_nodes_match_concat(prefix, nodes@.skip(base + m0.len()), base, m0, c, entities@);
            assert(usizes_view(ids@) =~= mids1);
        }
        i = i + 1;
    }
    ids
}



/// Append the domain subtrees of every domain name, in order; the
/// ids handed back are the positions of the domain nodes.
#[verifier::loop_isolation(false)]
fn push_domains_forest(
    nodes: &mut Vec<TreeNode>,
    entities: &Vec<EntityWithSource>,
    dom_names: &Vec<String>,
    sys_names: &Vec<String>,
) -> (ids: Vec<usize>)
    requires
        strs_view(dom_names@) == domain_names(entities@),
        strs_view(sys_names@) == system_names(entities@),
    ensures
        ({
            let (m, mids) = domains_forest_model(
                entities@,
                domain_names(entities@),
                old(nodes)@.len() as int,
                domain_names(entities@).len() as int,
            );
            &&& final(nodes)@.len() == old(nodes)@.len() + m.len()
            &&& final(nodes)@.take(old(nodes)@.len() as int) == old(nodes)@
            &&& nodes_match(final(nodes)@.skip(old(nodes)@.len() as int), old(nodes)@.len() as int, m, entities@)
            &&& usizes_view(ids@) == mids
        }),
{
    let ghost base = old(nodes)@.len() as int;
    let ghost names = domain_names(entities@);
    let n = dom_names.len();
    let mut ids: Vec<usize> = Vec::new();
    let mut i: usize = 0;
    while i < n
        invariant
            0 <= i <= n,
            ({
                let (m, mids) = domains_forest_model(entities@, names, base, i as int);
                &&& nodes@.len() == base + m.len()
                &&& nodes@.take(base) == old(nodes)@
                &&& nodes_match(nodes@.skip(base), base, m, entities@)
                &&& usizes_view(ids@) == mids
            }),
        decreases n - i,
    {
        let ghost (m0, mids0) = domains_forest_model(entities@, names, base, i as int);
        let ghost prefix = nodes@.skip(base);
        let g = domain_group_exec(entities, dom_names[i].as_str());
        let cids = push_domain_chunks(nodes, entities, dom_names[i].as_str(), &g, sys_names);
        let ghost previds = ids@;
        let cn = cids.len();
        let mut j: usize = 0;
        while j < cn
            invariant
                0 <= j <= cn,
                usizes_view(ids@) == usizes_view(previds) + usizes_view(cids@).take(j as int),
            decreases cn - j,
        {
            let ghost p2 = ids@;
            ids.push(cids[j]);
            proof {
                assert(usizes_view(ids@) =~= usizes_view(p2).push(cids@[j as int] as int));
                assert(usizes_view(ids@) =~= usizes_view(previds) + usizes_view(cids@).take(
                    j + 1,
                ));
            }
            j = j + 1;
        }
        proof {
            let (m1, mids1) = domains_forest_model(entities@, names, base, i + 1);
            let g_m = domain_group(entities@, names[i as int]);
            let (c, cids_m) = domain_chunks_model(
                entities@,
                names[i as int],
                g_m,
                base + m0.len(),
                g_m.len() as int,
            );
            assert(usizes_view(cids@).take(cn as int) =~= usizes_view(cids@));
            assert(nodes@.take(base) =~= old(nodes)@);
            assert(nodes@.skip(base) =~= prefix + nodes@.skip(base + m0.len()));
            lemma_nodes_match_concat(prefix, nodes@.skip(base + m0.len()), base, m0, c, entities@);
            assert(usizes_view(ids@) =~= mids1);
        }
        i = i + 1;
    }
    ids
}

/// Append the subtrees of every orphaned system name, in order; the
/// ids handed back are the positions of the system nodes.
#[verifier::loop_isolation(false)]
fn push_orphans_forest(
    nodes: &mut Vec<TreeNode>,
    entities: &Vec<EntityWithSource>,
    orph_names: &Vec<String>,
) -> (ids: Vec<usize>)
    requires
        strs_view(orph_names@) == orphan_names(entities@),
    ensures
        ({
            let (m, mids) = orphans_forest_model(
                entities@,
                orphan_names(entities@),
                old(nodes)@.len() as int,
                orphan_names(entities@).len() as int,
            );
            &&& final(nodes)@.len() == old(nodes)@.len() + m.len()
            &&& final(nodes)@.take(old(nodes)@.len() as int) == old(nodes)@
            &&& nodes_match(final(nodes)@.skip(old(nodes)@.len() as int), old(nodes)@.len() as int, m, entities@)
            &&& usizes_view(ids@) == mids
        }),
{
    let ghost base = old(nodes)@.len() as int;
    let ghost names = orphan_names(entities@);
    let n = orph_names.len();
    let mut ids: Vec<usize> = Vec::new();
    let mut i: usize = 0;
    while i < n
        invariant
            0 <= i <= n,
            ({
                let (m, mids) = orphans_forest_model(entities@, names, base, i as int);
                &&& nodes@.len() == base + m.len()
                &&& nodes@.take(base) == old(nodes)@
                &&& nodes_match(nodes@.skip(base), base, m, entities@)
                &&& usizes_view(ids@) == mids
            }),
        decreases n - i,
    {
        let ghost (m0, mids0) = orphans_forest_model(entities@, names, base, i as int);
        let ghost prefix = nodes@.skip(base);
        let g = system_group_exec(entities, orph_names[i].as_str());
        let cids = push_sys_chunks(nodes, entities, orph_names[i].as_str(), &g, 1);
        let ghost previds = ids@;
        let cn = cids.len();
        let mut j: usize = 0;
        while j < cn
            invariant
                0 <= j <= cn,
                usizes_view(ids@) == usizes_view(previds) + usizes_view(cids@).take(j as int),
            decreases cn - j,
        {
            let ghost p2 = ids@;
            ids.push(cids[j]);
            proof {
                assert(usizes_view(ids@) =~= usizes_view(p2).push(cids@[j as int] as int));
                assert(usizes_view(ids@) =~= usizes_view(previds) + usizes_view(cids@).take(
                    j + 1,
                ));
            }
            j = j + 1;
        }
        proof {
            let (m1, mids1) = orphans_forest_model(entities@, names, base, i + 1);
            let g_m = system_group(entities@, names[i as int]);
            let (c, cids_m) = sys_chunks_model(
                entities@,
                names[i as int],
                g_m,
                base + m0.len(),
                1,
                g_m.len() as int,
            );
            assert(usizes_view(cids@).take(cn as int) =~= usizes_view(cids@));
            assert(nodes@.take(base) =~= old(nodes)@);
            assert(nodes@.skip(base) =~= prefix + nodes@.skip(base + m0.len()));
            lemma_nodes_match_concat(prefix, nodes@.skip(base + m0.len()), base, m0, c, entities@);
            assert(usizes_view(ids@) =~= mids1);
        }
        i = i + 1;
    }
    ids
}



/// Append the Domains section when any Domain entity exists: its
/// category node at position 0, then the domain forest.
#[verifier::loop_isolation(false)]
fn push_domains_section(
    nodes: &mut Vec<TreeNode>,
    entities: &Vec<EntityWithSource>,
    dom_names: &Vec<String>,
    sys_names: &Vec<String>,
) -> (roots: Vec<usize>)
    requires
        old(nodes)@.len() == 0,
        strs_view(dom_names@) == domain_names(entities@),
        strs_view(sys_names@) == system_names(entities@),
    ensures
        ({
            let (m, mroots) = domains_section_model(entities@);
            &&& final(nodes)@.len() == m.len()
            &&& nodes_match(final(nodes)@, 0, m, entities@)
            &&& usizes_view(roots@) == mroots
        }),
{
    let mut roots: Vec<usize> = Vec::new();
    if dom_names.len() == 0 {
        proof {
            assert(nodes@ =~= Seq::<TreeNode>::empty());
            assert(usizes_view(roots@) =~= Seq::<int>::empty());
        }
        return roots;
    }
    let placeholder = TreeNode {
        id: 0,
        label: String::from_str("Domains"),
        depth: 0,
        entity: None,
        children: Vec::new(),
        is_category: true,
    };
    nodes.push(placeholder);
    let f_ids = push_domains_forest(nodes, entities, dom_names, sys_names);
    let ghost f_ids_view = f_ids@;
    let filled = TreeNode {
        id: 0,
        label: String::from_str("Domains"),
        depth: 0,
        entity: None,
        children: f_ids,
        is_category: true,
    };
    let ghost n2 = nodes@;
    nodes.set(0, filled);
    roots.push(0);
    proof {
        let (m, mroots) = domains_section_model(entities@);
        let (f, ids) = domains_forest_model(
            entities@,
            domain_names(entities@),
            1,
            domain_names(entities@).len() as int,
        );
        assert(nodes@ == n2.update(0, filled));
        assert(nodes@.len() == m.len());
        assert forall|i: int| 0 <= i < m.len() implies node_matches(
            #[trigger] nodes@[i],
            i,
            m[i],
            entities@,
        ) by {
            if i == 0 {
                assert(nodes@[0] == filled);
                assert(m[0].children == ids);
                assert(usizes_view(f_ids_view) == ids);
            } else {
                assert(nodes@[i] == n2[i]);
                assert(n2[i] == n2.skip(1)[i - 1]);
                assert(node_matches(n2.skip(1)[i - 1], 1 + (i - 1), f[i - 1], entities@));
                assert(m[i] == f[i - 1]);
            }
        }
        assert(usizes_view(roots@) =~= mroots);
    }
    roots
}

/// Append the Systems section when any orphaned system exists: its
/// category node, then the orphan forest.
#[verifier::loop_isolation(false)]
fn push_systems_section(
    nodes: &mut Vec<TreeNode>,
    entities: &Vec<EntityWithSource>,
    orph_names: &Vec<String>,
) -> (roots: Vec<usize>)
    requires
        strs_view(orph_names@) == orphan_names(entities@),
    ensures
        ({
            let (m, mroots) = systems_section_model(entities@, old(nodes)@.len() as int);
            &&& final(nodes)@.len() == old(nodes)@.len() + m.len()
            &&& final(nodes)@.take(old(nodes)@.len() as int) == old(nodes)@
            &&& nodes_match(final(nodes)@.skip(old(nodes)@.len() as int), old(nodes)@.len() as int, m, entities@)
            &&& usizes_view(roots@) == mroots
        }),
{
    let ghost base = old(nodes)@.len() as int;
    let mut roots: Vec<usize> = Vec::new();
    if orph_names.len() == 0 {
        proof {
            assert(nodes@.take(base) =~= nodes@);
            assert(nodes@.skip(base) =~= Seq::<TreeNode>::empty());
            assert(usizes_view(roots@) =~= Seq::<int>::empty());
        }
        return roots;
    }
    let cat_id = nodes.len();
    let placeholder = TreeNode {
        id: cat_id,
        label: String::from_str("Systems"),
        depth: 0,
        entity: None,
        children: Vec::new(),
        is_category: true,
    };
    nodes.push(placeholder);
    let f_ids = push_orphans_forest(nodes, entities, orph_names);
    let ghost f_ids_view = f_ids@;
    let filled = TreeNode {
        id: cat_id,
        label: String::from_str("Systems"),
        depth: 0,
        entity: None,
        children: f_ids,
        is_category: true,
    };
    let ghost n2 = nodes@;
    nodes.set(cat_id, filled);
    roots.push(cat_id);
    proof {
        let (m, mroots) = systems_section_model(entities@, base);
        let (f, ids) = orphans_forest_model(
            entities@,
            orphan_names(entities@),
            base + 1,
            orphan_names(entities@).len() as int,
        );
        assert(n2.take(base + 1).take(base) =~= n2.take(base));
        assert(n2.take(base) =~= old(nodes)@);
        assert(nodes@ == n2.update(base, filled));
        assert(nodes@.take(base) =~= n2.take(base));
        assert(nodes@.skip(base).len() == m.len());
        assert forall|i: int| 0 <= i < m.len() implies node_matches(
            #[trigger] nodes@.skip(base)[i],
            base + i,
            m[i],
            entities@,
        ) by {
            assert(nodes@.skip(base)[i] == nodes@[base + i]);
            if i == 0 {
                assert(nodes@[base] == filled);
                assert(m[0].children == ids);
                assert(usizes_view(f_ids_view) == ids);
            } else {
                assert(nodes@[base + i] == n2[base + i]);
                assert(n2[base + i] == n2.skip(base + 1)[i - 1]);
                assert(node_matches(
                    n2.skip(base + 1)[i - 1],
                    base + 1 + (i - 1),
                    f[i - 1],
                    entities@,
                ));
                assert(m[i] == f[i - 1]);
            }
        }
        assert(usizes_view(roots@) =~= mroots);
    }
    roots
}

/// Append the Other Entities section when any ungrouped entity
/// exists: its category node, then one leaf per ungrouped entity.
#[verifier::loop_isolation(false)]
fn push_other_section(nodes: &mut Vec<TreeNode>, entities: &Vec<EntityWithSource>) -> (roots: Vec<
    usize,
>)
    ensures
        ({
            let (m, mroots) = other_section_model(entities@, old(nodes)@.len() as int);
            &&& final(nodes)@.len() == old(nodes)@.len() + m.len()
            &&& final(nodes)@.take(old(nodes)@.len() as int) == old(nodes)@
            &&& nodes_match(final(nodes)@.skip(old(nodes)@.len() as int), old(nodes)@.len() as int, m, entities@)
            &&& usizes_view(roots@) == mroots
        }),
{
    let ghost base = old(nodes)@.len() as int;
    let mut roots: Vec<usize> = Vec::new();
    let ug = ungrouped_exec(entities);
    if ug.len() == 0 {
        proof {
            assert(nodes@.take(base) =~= nodes@);
            assert(nodes@.skip(base) =~= Seq::<TreeNode>::empty());
            assert(usizes_view(roots@) =~= Seq::<int>::empty());
        }
        return roots;
    }
    let cat_id = nodes.len();
    let placeholder = TreeNode {
        id: cat_id,
        label: String::from_str("Other Entities"),
        depth: 0,
        entity: None,
        children: Vec::new(),
        is_category: true,
    };
    nodes.push(placeholder);
    let leaf_ids = push_leaves(nodes, entities, &ug, 1);
    let ghost leaf_ids_view = leaf_ids@;
    let filled = TreeNode {
        id: cat_id,
        label: String::from_str("Other Entities"),
        depth: 0,
        entity: None,
        children: leaf_ids,
        is_category: true,
    };
    let ghost n2 = nodes@;
    nodes.set(cat_id, filled);
    roots.push(cat_id);
    proof {
        let (m, mroots) = other_section_model(entities@, base);
        let ug_m = ungrouped(entities@);
        let f = leaves_model(entities@, ug_m, 1);
        assert(n2.take(base + 1).take(base) =~= n2.take(base));
        assert(n2.take(base) =~= old(nodes)@);
        assert(nodes@ == n2.update(base, filled));
        assert(nodes@.take(base) =~= n2.take(base));
        assert(usizes_view(ug@) == ug_m);
        assert(nodes@.skip(base).len() == m.len());
        assert forall|i: int| 0 <= i < m.len() implies node_matches(
            #[trigger] nodes@.skip(base)[i],
            base + i,
            m[i],
            entities@,
        ) by {
            assert(nodes@.skip(base)[i] == nodes@[base + i]);
            if i == 0 {
                assert(nodes@[base] == filled);
                assert(m[0].children =~= Seq::new(ug_m.len(), |k: int| base + 1 + k));
                assert(usizes_view(leaf_ids_view) =~= Seq::new(ug_m.len(), |k: int| base + 1 + k));
            } else {
                assert(nodes@[base + i] == n2[base + i]);
                assert(n2[base + i] == n2.skip(base + 1)[i - 1]);
                assert(node_matches(
                    n2.skip(base + 1)[i - 1],
                    base + 1 + (i - 1),
                    f[i - 1],
                    entities@,
                ));
                assert(m[i] == f[i - 1]);
            }
        }
        assert(usizes_view(roots@) =~= mroots);
    }
    roots
}

impl EntityTree {
    /// Build the whole tree of a snapshot: Domains, then orphaned
    /// Systems, then Other Entities, each bucket only when non-empty,
    /// node ids equal to arena positions, entities copied into their
    /// nodes.
    #[verifier::loop_isolation(false)]
    pub fn build(entities: Vec<EntityWithSource>) -> (r: EntityTree)
        ensures
            nodes_match(r.nodes@, 0, tree_model(entities@).0, entities@),
            usizes_view(r.root_children@) == tree_model(entities@).1,
            tree_wf(r),
    {
        let dom_names = collect_domain_names(&entities);
        let sys_names = collect_system_names(&entities);
        let orph_names = orphan_names_exec(&entities, &sys_names, &dom_names);
        let mut nodes: Vec<TreeNode> = Vec::new();
        let r1 = push_domains_section(&mut nodes, &entities, &dom_names, &sys_names);
        let ghost nd = nodes@;
        let r2 = push_systems_section(&mut nodes, &entities, &orph_names);
        let ghost nds = nodes@;
        let r3 = push_other_section(&mut nodes, &entities);
        proof {
            let (d, dr) = domains_section_model(entities@);
            let (sm, sr) = systems_section_model(entities@, d.len() as int);
            let (om, orr) = other_section_model(entities@, d.len() + sm.len() as int);
            assert(nds =~= nd + nds.skip(d.len() as int));
            lemma_nodes_match_concat(nd, nds.skip(d.len() as int), 0, d, sm, entities@);
            assert(nodes@.take(nds.len() as int) == nds);
            assert(nodes@ =~= nds + nodes@.skip(nds.len() as int));
            lemma_nodes_match_concat(nds, nodes@.skip(nds.len() as int), 0, d + sm, om, entities@);
        }
        let mut i: usize = 0;
        let n2 = r2.len();
        let n3 = r3.len();
        let ghost dr = usizes_view(r1@);
        let ghost sr = usizes_view(r2@);
        let ghost orr = usizes_view(r3@);
        let mut root_children = r1;
        while i < n2
            invariant
                0 <= i <= n2,
                n2 == r2@.len(),
                usizes_view(root_children@) == dr + sr.take(i as int),
            decreases n2 - i,
        {
            let ghost p = root_children@;
            root_children.push(r2[i]);
            proof {
                assert(usizes_view(root_children@) =~= usizes_view(p).push(r2@[i as int] as int));
                assert(usizes_view(root_children@) =~= dr + sr.take(i + 1));
            }
            i = i + 1;
        }
        proof {
            assert(sr.take(n2 as int) =~= sr);
        }
        let mut j: usize = 0;
        while j < n3
            invariant
                0 <= j <= n3,
                n3 == r3@.len(),
                usizes_view(root_children@) == dr + sr + orr.take(j as int),
            decreases n3 - j,
        {
            let ghost p = root_children@;
            root_children.push(r3[j]);
            proof {
                assert(usizes_view(root_children@) =~= usizes_view(p).push(r3@[j as int] as int));
                assert(usizes_view(root_children@) =~= dr + sr + orr.take(j + 1));
            }
            j = j + 1;
        }
        proof {
            assert(orr.take(n3 as int) =~= orr);
            assert(usizes_view(root_children@) == tree_model(entities@).1);
        }
        let tree = EntityTree { nodes, root_children };
        proof {
            lemma_tree_wf_from_model(tree, entities@);
        }
        tree
    }
}



/// Arena well-formedness: ids equal positions, children point
/// strictly forward within the arena, and roots are in range. The
/// builder establishes it; traversal relies on it.
pub open spec fn tree_wf(t: EntityTree) -> bool {
    &&& forall|i: int| 0 <= i < t.nodes@.len() ==> (#[trigger] t.nodes@[i]).id == i
    &&& forall|i: int, k: int|
        0 <= i < t.nodes@.len() && 0 <= k < t.nodes@[i].children@.len() ==> i < (
        #[trigger] t.nodes@[i].children@[k]) < t.nodes@.len()
    &&& forall|r: int|
        0 <= r < t.root_children@.len() ==> (#[trigger] t.root_children@[r]) < t.nodes@.len()
}

/// The ids visited by a depth-first pre-order walk from node `id`:
/// the node itself, then, only when `id` is expanded, its children's
/// walks in order.
pub open spec fn visible_from(t: EntityTree, id: int, exp: Set<usize>) -> Seq<int>
    decreases t.nodes@.len() - id, t.nodes@[id].children@.len() + 2,
    when tree_wf(t) && 0 <= id < t.nodes@.len()
{
    seq![id] + (if exp.contains(id as usize) {
        visible_kids(t, id, 0, exp)
    } else {
        Seq::empty()
    })
}

/// The walks of children `j` onwards of node `id`.
pub open spec fn visible_kids(t: EntityTree, id: int, j: int, exp: Set<usize>) -> Seq<int>
    decreases t.nodes@.len() - id, t.nodes@[id].children@.len() - j + 1,
    when tree_wf(t) && 0 <= id < t.nodes@.len() && 0 <= j <= t.nodes@[id].children@.len()
{
    if j >= t.nodes@[id].children@.len() {
        Seq::empty()
    } else {
        visible_from(t, t.nodes@[id].children@[j] as int, exp) + visible_kids(t, id, j + 1, exp)
    }
}

/// The walks of the first `k` roots, one after another.
pub open spec fn visible_roots(t: EntityTree, exp: Set<usize>, k: int) -> Seq<int>
    decreases k,
{
    if k <= 0 {
        Seq::empty()
    } else {
        visible_roots(t, exp, k - 1) + visible_from(
            t,
            t.root_children@[k - 1] as int,
            exp,
        )
    }
}

/// The ids visited by the whole walk, roots in order.
pub open spec fn visible_ids(t: EntityTree, exp: Set<usize>) -> Seq<int> {
    visible_roots(t, exp, t.root_children@.len() as int)
}

impl EntityTree {
    /// Walk one subtree, appending a reference per visited node.
    #[verifier::loop_isolation(false)]
    fn collect_visible<'a>(
        &'a self,
        id: usize,
        state: &TreeState,
        visible: &mut Vec<&'a TreeNode>,
    )
        requires
            tree_wf(*self),
            id < self.nodes@.len(),
        ensures
            final(visible)@.take(old(visible)@.len() as int) == old(visible)@,
            ({
                let vis = visible_from(*self, id as int, state.expanded@);
                &&& final(visible)@.len() == old(visible)@.len() + vis.len()
                &&& forall|k: int|
                    0 <= k < vis.len() ==> *(#[trigger] final(visible)@[old(visible)@.len() + k])
                        == self.nodes@[vis[k]]
            }),
        decreases self.nodes@.len() - id,
    {
        let ghost base = old(visible)@.len() as int;
        let ghost exp = state.expanded@;
        let node = &self.nodes[id];
        visible.push(node);
        proof {
            assert(visible@.take(base) =~= old(visible)@);
        }
        if state.is_expanded(id) {
            let cn = node.children.len();
            let mut j: usize = 0;
            let ghost mut done: Seq<int> = seq![id as int];
            while j < cn
                invariant
                    0 <= j <= cn,
                    cn == self.nodes@[id as int].children@.len(),
                    visible@.take(base) == old(visible)@,
                    done.len() == visible@.len() - base,
                    forall|k: int|
                        0 <= k < done.len() ==> *(#[trigger] visible@[base + k])
                            == self.nodes@[done[k]],
                    done + visible_kids(*self, id as int, j as int, exp) == visible_from(
                        *self,
                        id as int,
                        exp,
                    ),
                decreases cn - j,
            {
                let child = node.children[j];
                let ghost pre_len = visible@.len() as int;
                let ghost done0 = done;
                self.collect_visible(child, state, visible);
                proof {
                    let cw = visible_from(*self, child as int, exp);
                    done = done0 + cw;
                    assert(visible@.take(base) =~= old(visible)@) by {
                        assert(visible@.take(pre_len).take(base) =~= visible@.take(base));
                    }
                    assert(visible_kids(*self, id as int, j as int, exp) == cw + visible_kids(
                        *self,
                        id as int,
                        j + 1,
                        exp,
                    ));
                    assert((done0 + cw) + visible_kids(*self, id as int, j + 1, exp) =~= done0 + (cw
                        + visible_kids(*self, id as int, j + 1, exp)));
                    assert forall|k: int| 0 <= k < done.len() implies *(
                    #[trigger] visible@[base + k]) == self.nodes@[done[k]] by {
                        if k < done0.len() {
                            assert(visible@[base + k] == visible@.take(pre_len)[base + k]);
                        } else {
                            assert(*visible@[pre_len + (k - done0.len())] == self.nodes@[cw[k
                                - done0.len()]]);
                        }
                    }
                }
                j = j + 1;
            }
            proof {
                let vis = visible_from(*self, id as int, exp);
                assert(visible_kids(*self, id as int, cn as int, exp) =~= Seq::<int>::empty());
                assert(done + Seq::<int>::empty() =~= done);
                assert(done == vis);
            }
        } else {
            proof {
                let vis = visible_from(*self, id as int, exp);
                assert(vis =~= seq![id as int]);
                assert(*visible@[base] == self.nodes@[id as int]);
            }
        }
    }

    /// The flattened, parent-before-children sequence of the nodes
    /// reachable from the roots, descending only below expanded
    /// nodes.
    #[verifier::loop_isolation(false)]
    pub fn visible_nodes<'a>(&'a self, state: &TreeState) -> (r: Vec<&'a TreeNode>)
        requires
            tree_wf(*self),
        ensures
            ({
                let vis = visible_ids(*self, state.expanded@);
                &&& r@.len() == vis.len()
                &&& forall|k: int|
                    0 <= k < vis.len() ==> *(#[trigger] r@[k]) == self.nodes@[vis[k]]
            }),
    {
        let mut out: Vec<&TreeNode> = Vec::new();
        let n = self.root_children.len();
        let mut i: usize = 0;
        while i < n
            invariant
                0 <= i <= n,
                ({
                    let vis = visible_roots(*self, state.expanded@, i as int);
                    &&& out@.len() == vis.len()
                    &&& forall|k: int|
                        0 <= k < vis.len() ==> *(#[trigger] out@[k]) == self.nodes@[vis[k]]
                }),
            decreases n - i,
        {
            let ghost pre_len = out@.len() as int;
            self.collect_visible(self.root_children[i], state, &mut out);
            proof {
                let vis0 = visible_roots(*self, state.expanded@, i as int);
                let cw = visible_from(
                    *self,
                    self.root_children@[i as int] as int,
                    state.expanded@,
                );
                let vis1 = visible_roots(*self, state.expanded@, i + 1);
                assert(vis1 == vis0 + cw);
                assert forall|k: int| 0 <= k < vis1.len() implies *(#[trigger] out@[k])
                    == self.nodes@[vis1[k]] by {
                    if k < pre_len {
                        assert(out@[k] == out@.take(pre_len)[k]);
                    } else {
                        assert(*out@[pre_len + (k - pre_len)] == self.nodes@[cw[k - pre_len]]);
                    }
                }
            }
            i = i + 1;
        }
        out
    }

    /// The node with the given id, when it exists.
    pub fn get_node(&self, id: usize) -> (r: Option<&TreeNode>)
        ensures
            match r {
                Some(n) => id < self.nodes@.len() && *n == self.nodes@[id as int],
                None => id >= self.nodes@.len(),
            },
    {
        if id < self.nodes.len() {
            Some(&self.nodes[id])
        } else {
            None
        }
    }

    /// Flip the expansion of the selected node, only when that node
    /// exists and has children.
    pub fn toggle_expand(&self, state: &mut TreeState)
        ensures
            final(state).selected == old(state).selected,
            final(state).expanded@ == (if old(state).selected < self.nodes@.len()
                && self.nodes@[old(state).selected as int].children@.len() > 0 {
                if old(state).expanded@.contains(old(state).selected) {
                    old(state).expanded@.remove(old(state).selected)
                } else {
                    old(state).expanded@.insert(old(state).selected)
                }
            } else {
                old(state).expanded@
            }),
    {
        let sel = state.selected;
        match self.get_node(sel) {
            Some(node) => {
                if node.children.len() > 0 {
                    state.toggle_expanded(sel);
                }
            },
            None => {},
        }
    }
}

/// Whether a node's label matches a search query, both sides
/// lowercased.
pub open spec fn search_keep(n: TreeNode, q: Seq<char>) -> bool {
    contains_seq(lower_seq(n.label@), lower_seq(q))
}

/// The references among the first `k` whose labels match the query.
pub open spec fn filtered_prefix(ns: Seq<&TreeNode>, q: Seq<char>, k: int) -> Seq<&TreeNode>
    decreases k,
{
    if k <= 0 {
        Seq::empty()
    } else {
        let prev = filtered_prefix(ns, q, k - 1);
        if search_keep(*ns[k - 1], q) {
            prev.push(ns[k - 1])
        } else {
            prev
        }
    }
}

/// Keep the nodes whose labels contain the query, case-insensitively
/// and in order.
#[verifier::loop_isolation(false)]
pub fn filter_by_search<'a>(nodes: Vec<&'a TreeNode>, query: &str) -> (r: Vec<&'a TreeNode>)
    ensures
        r@ == filtered_prefix(nodes@, query@, nodes@.len() as int),
{
    let lq = to_ascii_lower(query);
    let n = nodes.len();
    let mut out: Vec<&TreeNode> = Vec::new();
    let mut i: usize = 0;
    while i < n
        invariant
            0 <= i <= n,
            lq@ == lower_seq(query@),
            out@ == filtered_prefix(nodes@, query@, i as int),
        decreases n - i,
    {
        let ll = to_ascii_lower(nodes[i].label.as_str());
        if str_contains(ll.as_str(), lq.as_str()) {
            out.push(nodes[i]);
        }
        proof {
            assert(out@ =~= filtered_prefix(nodes@, query@, i + 1));
        }
        i = i + 1;
    }
    out
}

/// The position of the selected id among the visible nodes: the
/// first position bearing it, or 0 when none does.
pub open spec fn is_first_pos(ns: Seq<&TreeNode>, sel: usize, i: int) -> bool {
    &&& 0 <= i < ns.len()
    &&& ns[i].id == sel
    &&& forall|j: int| 0 <= j < i ==> ns[j].id != sel
}

/// Whether some visible node bears the selected id.
pub open spec fn has_id(ns: Seq<&TreeNode>, sel: usize) -> bool {
    exists|i: int| 0 <= i < ns.len() && ns[i].id == sel
}

/// The position the selection stands at: the first position bearing
/// the selected id, or 0 when none does.
pub open spec fn sel_pos(ns: Seq<&TreeNode>, sel: usize) -> int {
    if has_id(ns, sel) {
        choose|i: int| is_first_pos(ns, sel, i)
    } else {
        0
    }
}

/// Find the position of the selected id, defaulting to 0.
#[verifier::loop_isolation(false)]
fn find_sel_pos(visible: &Vec<&TreeNode>, sel: usize) -> (r: usize)
    ensures
        r as int == sel_pos(visible@, sel),
        has_id(visible@, sel) ==> is_first_pos(visible@, sel, r as int),
        !has_id(visible@, sel) ==> r == 0,
{
    let n = visible.len();
    let mut i: usize = 0;
    while i < n
        invariant
            0 <= i <= n,
            forall|j: int| 0 <= j < i ==> visible@[j].id != sel,
        decreases n - i,
    {
        if visible[i].id == sel {
            proof {
                assert(is_first_pos(visible@, sel, i as int));
                assert forall|k: int| is_first_pos(visible@, sel, k) implies k == i as int by {
                    if k < i {
                        assert(visible@[k].id != sel);
                    }
                    if i < k {
                        assert(visible@[i as int].id != sel);
                    }
                }
            }
            return i;
        }
        i = i + 1;
    }
    0
}

/// The selection one step up: the previous visible node when the
/// selection is past the first, else unchanged. An empty list leaves
/// the selection alone.
pub fn selection_up(visible: &Vec<&TreeNode>, selected: usize) -> (r: usize)
    ensures
        ({
            let idx = sel_pos(visible@, selected);
            if visible@.len() == 0 {
                r == selected
            } else if idx > 0 {
                r == visible@[idx - 1].id
            } else {
                r == selected
            }
        }),
{
    if visible.len() == 0 {
        return selected;
    }
    let idx = find_sel_pos(visible, selected);
    if idx > 0 {
        visible[idx - 1].id
    } else {
        selected
    }
}

/// The selection one step down: the next visible node when the
/// selection is before the last, else unchanged. An empty list
/// leaves the selection alone.
pub fn selection_down(visible: &Vec<&TreeNode>, selected: usize) -> (r: usize)
    ensures
        ({
            let idx = sel_pos(visible@, selected);
            if visible@.len() == 0 {
                r == selected
            } else if idx < visible@.len() - 1 {
                r == visible@[idx + 1].id
            } else {
                r == selected
            }
        }),
{
    if visible.len() == 0 {
        return selected;
    }
    let idx = find_sel_pos(visible, selected);
    if idx < visible.len() - 1 {
        visible[idx + 1].id
    } else {
        selected
    }
}

/// The selection after a search narrows the view: unchanged when
/// still visible, else the first visible node, else unchanged.
pub fn reselect_if_hidden(visible: &Vec<&TreeNode>, selected: usize) -> (r: usize)
    ensures
        has_id(visible@, selected) ==> r == selected,
        !has_id(visible@, selected) && visible@.len() > 0 ==> r == visible@[0].id,
        !has_id(visible@, selected) && visible@.len() == 0 ==> r == selected,
{
    let n = visible.len();
    let mut i: usize = 0;
    while i < n
        invariant
            n == visible@.len(),
            0 <= i <= n,
            forall|j: int| 0 <= j < i ==> (#[trigger] visible@[j]).id != selected,
        decreases n - i,
    {
        if visible[i].id == selected {
            proof {
                assert(visible@[i as int].id == selected);
            }
            return selected;
        }
        i = i + 1;
    }
    if n > 0 {
        visible[0].id
    } else {
        selected
    }
}



/// A system name that is orphaned stays in the orphan list: part of
/// the orphan filter kept over any prefix of the system names.
proof fn lemma_orphan_prefix_contains(
    entities: Seq<EntityWithSource>,
    names: Seq<Seq<char>>,
    i: int,
    k: int,
)
    requires
        0 <= i < k <= names.len(),
        is_orphan(entities, names[i]),
    ensures
        orphan_names_prefix(entities, names, k).contains(names[i]),
    decreases k,
{
    if k - 1 == i {
        let pre = orphan_names_prefix(entities, names, k - 1);
        assert(orphan_names_prefix(entities, names, k)[pre.len() as int] == names[i]);
    } else {
        lemma_orphan_prefix_contains(entities, names, i, k - 1);
        let pre = orphan_names_prefix(entities, names, k - 1);
        let j = choose|j: int| 0 <= j < pre.len() && pre[j] == names[i];
        assert(orphan_names_prefix(entities, names, k)[j] == names[i]);
    }
}

/// Orphan-domain placement: a system name that records no domain, or
/// records one that no Domain entity bears, stands among the orphaned
/// names that the Systems bucket lists — and it can stand under no
/// domain of the Domains bucket, which gathers exactly the system
/// names whose recorded domain is that existing domain's name.
pub proof fn lemma_orphan_system_placement(entities: Seq<EntityWithSource>, sysname: Seq<char>)
    requires
        system_names(entities).contains(sysname),
        match sys_domain(entities, sysname) {
            None => true,
            Some(d) => !domain_names(entities).contains(d),
        },
    ensures
        orphan_names(entities).contains(sysname),
        forall|d: Seq<char>|
            domain_names(entities).contains(d) ==> sys_domain(entities, sysname) != Some(d),
{
    let names = system_names(entities);
    let i = choose|i: int| 0 <= i < names.len() && names[i] == sysname;
    lemma_orphan_prefix_contains(entities, names, i, names.len() as int);
}

/// Idempotent rebuild: two trees built from the same unmodified
/// snapshot are structurally identical — same labels, depths,
/// category flags, child links, root lists, and the same source
/// entity behind every entity node.
pub proof fn lemma_tree_rebuild_deterministic(
    t1: EntityTree,
    t2: EntityTree,
    entities: Seq<EntityWithSource>,
)
    requires
        nodes_match(t1.nodes@, 0, tree_model(entities).0, entities),
        usizes_view(t1.root_children@) == tree_model(entities).1,
        nodes_match(t2.nodes@, 0, tree_model(entities).0, entities),
        usizes_view(t2.root_children@) == tree_model(entities).1,
    ensures
        t1.nodes@.len() == t2.nodes@.len(),
        forall|i: int|
            0 <= i < t1.nodes@.len() ==> {
                &&& (#[trigger] t1.nodes@[i]).id == t2.nodes@[i].id
                &&& t1.nodes@[i].label@ == t2.nodes@[i].label@
                &&& t1.nodes@[i].depth == t2.nodes@[i].depth
                &&& t1.nodes@[i].is_category == t2.nodes@[i].is_category
                &&& usizes_view(t1.nodes@[i].children@) == usizes_view(t2.nodes@[i].children@)
                &&& (t1.nodes@[i].entity is Some <==> t2.nodes@[i].entity is Some)
            },
        usizes_view(t1.root_children@) == usizes_view(t2.root_children@),
{
    let m = tree_model(entities).0;
    assert forall|i: int| 0 <= i < t1.nodes@.len() implies {
        &&& (#[trigger] t1.nodes@[i]).id == t2.nodes@[i].id
        &&& t1.nodes@[i].label@ == t2.nodes@[i].label@
        &&& t1.nodes@[i].depth == t2.nodes@[i].depth
        &&& t1.nodes@[i].is_category == t2.nodes@[i].is_category
        &&& usizes_view(t1.nodes@[i].children@) == usizes_view(t2.nodes@[i].children@)
        &&& (t1.nodes@[i].entity is Some <==> t2.nodes@[i].entity is Some)
    } by {
        assert(node_matches(t1.nodes@[i], i, m[i], entities));
        assert(node_matches(t2.nodes@[i], i, m[i], entities));
        assert(usizes_view(t1.nodes@[i].children@) =~= usizes_view(t2.nodes@[i].children@));
    }
}



/// Region well-formedness of a model run standing at `base` within
/// an arena of `total` nodes: every child link points strictly past
/// its own node and stays inside the arena.
pub open spec fn chunk_wf(ms: Seq<TreeNodeV>, base: int, total: int) -> bool {
    forall|i: int, k: int|
        0 <= i < ms.len() && 0 <= k < ms[i].children.len() ==> base + i < (
        #[trigger] ms[i].children[k]) < total
}

/// All ids lie within the half-open range.
pub open spec fn ids_in(ids: Seq<int>, lo: int, hi: int) -> bool {
    forall|r: int| 0 <= r < ids.len() ==> lo <= #[trigger] ids[r] < hi
}

/// Well-formed runs concatenate to a well-formed run.
proof fn lemma_chunk_wf_concat(a: Seq<TreeNodeV>, b: Seq<TreeNodeV>, base: int, total: int)
    requires
        chunk_wf(a, base, total),
        chunk_wf(b, base + a.len(), total),
    ensures
        chunk_wf(a + b, base, total),
{
    assert forall|i: int, k: int|
        0 <= i < (a + b).len() && 0 <= k < (a + b)[i].children.len() implies base + i < (
    #[trigger] (a + b)[i].children[k]) < total by {
        if i < a.len() {
            assert((a + b)[i] == a[i]);
        } else {
            assert((a + b)[i] == b[i - a.len()]);
        }
    }
}

/// A run of leaves is well-formed anywhere: leaves have no children.
proof fn lemma_leaves_wf(
    entities: Seq<EntityWithSource>,
    idxs: Seq<int>,
    depth: int,
    base: int,
    total: int,
)
    ensures
        chunk_wf(leaves_model(entities, idxs, depth), base, total),
{
}

/// One system subtree is well-formed when the arena reaches past it.
proof fn lemma_system_chunk_wf(
    entities: Seq<EntityWithSource>,
    sysname: Seq<char>,
    sys_idx: int,
    start: int,
    depth: int,
    total: int,
)
    requires
        total >= start + system_chunk_model(entities, sysname, sys_idx, start, depth).len(),
    ensures
        chunk_wf(system_chunk_model(entities, sysname, sys_idx, start, depth), start, total),
{
    let m = system_chunk_model(entities, sysname, sys_idx, start, depth);
    let comps = comps_of(entities, sysname);
    assert forall|i: int, k: int|
        0 <= i < m.len() && 0 <= k < m[i].children.len() implies start + i < (
    #[trigger] m[i].children[k]) < total by {
        if i == 0 {
            assert(m[0].children[k] == start + 1 + k);
        } else {
            assert(m[i] == leaves_model(entities, comps, depth + 1)[i - 1]);
        }
    }
}

/// The subtrees of the systems of one name are well-formed, and the
/// system-node ids stay within the run.
proof fn lemma_sys_chunks_wf(
    entities: Seq<EntityWithSource>,
    sysname: Seq<char>,
    idxs: Seq<int>,
    start: int,
    depth: int,
    k: int,
    total: int,
)
    requires
        k >= 0,
        total >= start + sys_chunks_model(entities, sysname, idxs, start, depth, k).0.len(),
    ensures
        chunk_wf(sys_chunks_model(entities, sysname, idxs, start, depth, k).0, start, total),
        ids_in(
            sys_chunks_model(entities, sysname, idxs, start, depth, k).1,
            start,
            start + sys_chunks_model(entities, sysname, idxs, start, depth, k).0.len(),
        ),
    decreases k,
{
    if k > 0 {
        let (pre, ids) = sys_chunks_model(entities, sysname, idxs, start, depth, k - 1);
        let c = system_chunk_model(entities, sysname, idxs[k - 1], start + pre.len(), depth);
        lemma_sys_chunks_wf(entities, sysname, idxs, start, depth, k - 1, total);
        lemma_system_chunk_wf(entities, sysname, idxs[k - 1], start + pre.len(), depth, total);
        lemma_chunk_wf_concat(pre, c, start, total);
    }
}

/// The subtrees of the systems recorded under one domain are
/// well-formed, and the system-node ids stay within the run.
proof fn lemma_domain_systems_wf(
    entities: Seq<EntityWithSource>,
    names: Seq<Seq<char>>,
    dname: Seq<char>,
    start: int,
    depth: int,
    k: int,
    total: int,
)
    requires
        k >= 0,
        total >= start + domain_systems_model(entities, names, dname, start, depth, k).0.len(),
    ensures
        chunk_wf(domain_systems_model(entities, names, dname, start, depth, k).0, start, total),
        ids_in(
            domain_systems_model(entities, names, dname, start, depth, k).1,
            start,
            start + domain_systems_model(entities, names, dname, start, depth, k).0.len(),
        ),
    decreases k,
{
    if k > 0 {
        let (pre, ids) = domain_systems_model(entities, names, dname, start, depth, k - 1);
        lemma_domain_systems_wf(entities, names, dname, start, depth, k - 1, total);
        if sys_domain(entities, names[k - 1]) == Some(dname) {
            let g = system_group(entities, names[k - 1]);
            let (c, cids) = sys_chunks_model(
                entities,
                names[k - 1],
                g,
                start + pre.len(),
                depth,
                g.len() as int,
            );
            lemma_sys_chunks_wf(
                entities,
                names[k - 1],
                g,
                start + pre.len(),
                depth,
                g.len() as int,
                total,
            );
            lemma_chunk_wf_concat(pre, c, start, total);
        }
    }
}

/// One domain subtree is well-formed when the arena reaches past it.
proof fn lemma_domain_chunk_wf(
    entities: Seq<EntityWithSource>,
    dname: Seq<char>,
    d_idx: int,
    start: int,
    total: int,
)
    requires
        total >= start + domain_chunk_model(entities, dname, d_idx, start).len(),
    ensures
        chunk_wf(domain_chunk_model(entities, dname, d_idx, start), start, total),
{
    let m = domain_chunk_model(entities, dname, d_idx, start);
    let names = system_names(entities);
    let (sys_nodes, sys_ids) = domain_systems_model(
        entities,
        names,
        dname,
        start + 1,
        2,
        names.len() as int,
    );
    lemma_domain_systems_wf(entities, names, dname, start + 1, 2, names.len() as int, total);
    assert forall|i: int, k: int|
        0 <= i < m.len() && 0 <= k < m[i].children.len() implies start + i < (
    #[trigger] m[i].children[k]) < total by {
        if i == 0 {
            assert(m[0].children == sys_ids);
        } else {
            assert(m[i] == sys_nodes[i - 1]);
        }
    }
}

/// The subtrees of the domains of one name are well-formed, and the
/// domain-node ids stay within the run.
proof fn lemma_domain_chunks_wf(
    entities: Seq<EntityWithSource>,
    dname: Seq<char>,
    idxs: Seq<int>,
    start: int,
    k: int,
    total: int,
)
    requires
        k >= 0,
        total >= start + domain_chunks_model(entities, dname, idxs, start, k).0.len(),
    ensures
        chunk_wf(domain_chunks_model(entities, dname, idxs, start, k).0, start, total),
        ids_in(
            domain_chunks_model(entities, dname, idxs, start, k).1,
            start,
            start + domain_chunks_model(entities, dname, idxs, start, k).0.len(),
        ),
    decreases k,
{
    if k > 0 {
        let (pre, ids) = domain_chunks_model(entities, dname, idxs, start, k - 1);
        let c = domain_chunk_model(entities, dname, idxs[k - 1], start + pre.len());
        lemma_domain_chunks_wf(entities, dname, idxs, start, k - 1, total);
        lemma_domain_chunk_wf(entities, dname, idxs[k - 1], start + pre.len(), total);
        lemma_chunk_wf_concat(pre, c, start, total);
    }
}

/// The whole domain forest is well-formed, and the domain-node ids
/// stay within the run.
proof fn lemma_domains_forest_wf(
    entities: Seq<EntityWithSource>,
    names: Seq<Seq<char>>,
    start: int,
    k: int,
    total: int,
)
    requires
        k >= 0,
        total >= start + domains_forest_model(entities, names, start, k).0.len(),
    ensures
        chunk_wf(domains_forest_model(entities, names, start, k).0, start, total),
        ids_in(
            domains_forest_model(entities, names, start, k).1,
            start,
            start + domains_forest_model(entities, names, start, k).0.len(),
        ),
    decreases k,
{
    if k > 0 {
        let (pre, ids) = domains_forest_model(entities, names, start, k - 1);
        let g = domain_group(entities, names[k - 1]);
        let (c, cids) = domain_chunks_model(
            entities,
            names[k - 1],
            g,
            start + pre.len(),
            g.len() as int,
        );
        lemma_domains_forest_wf(entities, names, start, k - 1, total);
        lemma_domain_chunks_wf(
            entities,
            names[k - 1],
            g,
            start + pre.len(),
            g.len() as int,
            total,
        );
        lemma_chunk_wf_concat(pre, c, start, total);
    }
}

/// The whole orphan forest is well-formed, and the system-node ids
/// stay within the run.
proof fn lemma_orphans_forest_wf(
    entities: Seq<EntityWithSource>,
    names: Seq<Seq<char>>,
    start: int,
    k: int,
    total: int,
)
    requires
        k >= 0,
        total >= start + orphans_forest_model(entities, names, start, k).0.len(),
    ensures
        chunk_wf(orphans_forest_model(entities, names, start, k).0, start, total),
        ids_in(
            orphans_forest_model(entities, names, start, k).1,
            start,
            start + orphans_forest_model(entities, names, start, k).0.len(),
        ),
    decreases k,
{
    if k > 0 {
        let (pre, ids) = orphans_forest_model(entities, names, start, k - 1);
        let g = system_group(entities, names[k - 1]);
        let (c, cids) = sys_chunks_model(
            entities,
            names[k - 1],
            g,
            start + pre.len(),
            1,
            g.len() as int,
        );
        lemma_orphans_forest_wf(entities, names, start, k - 1, total);
        lemma_sys_chunks_wf(
            entities,
            names[k - 1],
            g,
            start + pre.len(),
            1,
            g.len() as int,
            total,
        );
        lemma_chunk_wf_concat(pre, c, start, total);
    }
}

/// The whole model arena is well-formed and its root ids in range.
proof fn lemma_tree_model_wf(entities: Seq<EntityWithSource>)
    ensures
        chunk_wf(tree_model(entities).0, 0, tree_model(entities).0.len() as int),
        ids_in(tree_model(entities).1, 0, tree_model(entities).0.len() as int),
{
    let (d, dr) = domains_section_model(entities);
    let (sm, sr) = systems_section_model(entities, d.len() as int);
    let (om, orr) = other_section_model(entities, d.len() + sm.len() as int);
    let total = (d + sm + om).len() as int;
    let dnames = domain_names(entities);
    if dnames.len() > 0 {
        let (f, ids) = domains_forest_model(entities, dnames, 1, dnames.len() as int);
        lemma_domains_forest_wf(entities, dnames, 1, dnames.len() as int, total);
        assert forall|i: int, k: int|
            0 <= i < d.len() && 0 <= k < d[i].children.len() implies i < (
        #[trigger] d[i].children[k]) < total by {
            if i == 0 {
                assert(d[0].children == ids);
            } else {
                assert(d[i] == f[i - 1]);
            }
        }
        assert(chunk_wf(d, 0, total));
    } else {
        assert(chunk_wf(d, 0, total));
    }
    let onames = orphan_names(entities);
    if onames.len() > 0 {
        let (f, ids) = orphans_forest_model(entities, onames, d.len() as int + 1, onames.len() as int);
        lemma_orphans_forest_wf(entities, onames, d.len() as int + 1, onames.len() as int, total);
        assert forall|i: int, k: int|
            0 <= i < sm.len() && 0 <= k < sm[i].children.len() implies d.len() + i < (
        #[trigger] sm[i].children[k]) < total by {
            if i == 0 {
                assert(sm[0].children == ids);
            } else {
                assert(sm[i] == f[i - 1]);
            }
        }
        assert(chunk_wf(sm, d.len() as int, total));
    } else {
        assert(chunk_wf(sm, d.len() as int, total));
    }
    let ug = ungrouped(entities);
    let obase = d.len() as int + sm.len() as int;
    if ug.len() > 0 {
        let f = leaves_model(entities, ug, 1);
        assert forall|i: int, k: int|
            0 <= i < om.len() && 0 <= k < om[i].children.len() implies obase + i < (
        #[trigger] om[i].children[k]) < total by {
            if i == 0 {
                assert(om[0].children =~= Seq::new(ug.len(), |j: int| obase + 1 + j));
            } else {
                assert(om[i] == f[i - 1]);
            }
        }
        assert(chunk_wf(om, obase, total));
    } else {
        assert(chunk_wf(om, obase, total));
    }
    lemma_chunk_wf_concat(d, sm, 0, total);
    lemma_chunk_wf_concat(d + sm, om, 0, total);
    assert(ids_in(dr + sr + orr, 0, total));
}

/// A tree realizing the model of some snapshot is well-formed.
pub proof fn lemma_tree_wf_from_model(t: EntityTree, entities: Seq<EntityWithSource>)
    requires
        nodes_match(t.nodes@, 0, tree_model(entities).0, entities),
        usizes_view(t.root_children@) == tree_model(entities).1,
    ensures
        tree_wf(t),
{
    lemma_tree_model_wf(entities);
    let m = tree_model(entities).0;
    assert forall|i: int, k: int|
        0 <= i < t.nodes@.len() && 0 <= k < t.nodes@[i].children@.len() implies i < (
    #[trigger] t.nodes@[i].children@[k]) < t.nodes@.len() by {
        assert(node_matches(t.nodes@[i], i, m[i], entities));
        assert(t.nodes@[i].children@[k] as int == m[i].children[k]);
    }
    assert forall|r: int| 0 <= r < t.root_children@.len() implies (
    #[trigger] t.root_children@[r]) < t.nodes@.len() by {
        assert(usizes_view(t.root_children@)[r] == t.root_children@[r] as int);
    }
}



/// The node does not carry a System entity with an orphaned name.
pub open spec fn node_no_orphan(m: TreeNodeV, entities: Seq<EntityWithSource>) -> bool {
    match m.entity {
        Some(k) => (0 <= k < entities.len() && entities[k].entity.kind == EntityKind::System)
            ==> !is_orphan(entities, entities[k].entity.metadata.name@),
        None => true,
    }
}

/// No node of the run carries a System entity with an orphaned name.
pub open spec fn no_orphan_system_nodes(
    ms: Seq<TreeNodeV>,
    entities: Seq<EntityWithSource>,
) -> bool {
    forall|i: int| 0 <= i < ms.len() ==> node_no_orphan(#[trigger] ms[i], entities)
}

/// Orphan-free runs concatenate to an orphan-free run.
proof fn lemma_no_orphan_concat(
    a: Seq<TreeNodeV>,
    b: Seq<TreeNodeV>,
    entities: Seq<EntityWithSource>,
)
    requires
        no_orphan_system_nodes(a, entities),
        no_orphan_system_nodes(b, entities),
    ensures
        no_orphan_system_nodes(a + b, entities),
{
    assert forall|i: int| 0 <= i < (a + b).len() implies node_no_orphan(
        #[trigger] (a + b)[i],
        entities,
    ) by {
        if i < a.len() {
            assert((a + b)[i] == a[i]);
        } else {
            assert((a + b)[i] == b[i - a.len()]);
        }
    }
}

/// Every entity the component buckets list is component-like.
proof fn lemma_comps_of_kinds(entities: Seq<EntityWithSource>, name: Seq<char>, n: int)
    requires
        n >= 0,
    ensures
        forall|r: int|
            0 <= r < comps_of_prefix(entities, name, n).len() ==> {
                let k = #[trigger] comps_of_prefix(entities, name, n)[r];
                &&& 0 <= k < entities.len() || n > entities.len()
                &&& 0 <= k < n
                &&& is_component_kind(entities[k].entity.kind)
            },
    decreases n,
{
    if n > 0 {
        lemma_comps_of_kinds(entities, name, n - 1);
    }
}

/// Every entity a system group lists is a System entity bearing the
/// group's name.
proof fn lemma_system_group_names(entities: Seq<EntityWithSource>, name: Seq<char>, n: int)
    requires
        n >= 0,
    ensures
        forall|r: int|
            0 <= r < system_group_prefix(entities, name, n).len() ==> {
                let k = #[trigger] system_group_prefix(entities, name, n)[r];
                &&& 0 <= k < n
                &&& entities[k].entity.kind == EntityKind::System
                &&& entities[k].entity.metadata.name@ == name
            },
    decreases n,
{
    if n > 0 {
        lemma_system_group_names(entities, name, n - 1);
    }
}

/// Every entity a domain group lists is a Domain entity.
proof fn lemma_domain_group_kinds(entities: Seq<EntityWithSource>, name: Seq<char>, n: int)
    requires
        n >= 0,
    ensures
        forall|r: int|
            0 <= r < domain_group_prefix(entities, name, n).len() ==> {
                let k = #[trigger] domain_group_prefix(entities, name, n)[r];
                &&& 0 <= k < n
                &&& entities[k].entity.kind == EntityKind::Domain
            },
    decreases n,
{
    if n > 0 {
        lemma_domain_group_kinds(entities, name, n - 1);
    }
}

/// A system subtree for a non-orphaned name holds no orphaned
/// System node.
proof fn lemma_system_chunk_no_orphan(
    entities: Seq<EntityWithSource>,
    sysname: Seq<char>,
    sys_idx: int,
    start: int,
    depth: int,
)
    requires
        !is_orphan(entities, sysname),
        0 <= sys_idx < entities.len(),
        entities[sys_idx].entity.kind == EntityKind::System,
        entities[sys_idx].entity.metadata.name@ == sysname,
    ensures
        no_orphan_system_nodes(
            system_chunk_model(entities, sysname, sys_idx, start, depth),
            entities,
        ),
{
    let m = system_chunk_model(entities, sysname, sys_idx, start, depth);
    let comps = comps_of(entities, sysname);
    lemma_comps_of_kinds(entities, sysname, entities.len() as int);
    assert forall|i: int| 0 <= i < m.len() implies node_no_orphan(#[trigger] m[i], entities) by {
        if i > 0 {
            assert(m[i] == leaves_model(entities, comps, depth + 1)[i - 1]);
            assert(m[i].entity == Some(comps[i - 1]));
        }
    }
}

/// The subtrees of the systems of one non-orphaned name hold no
/// orphaned System node.
proof fn lemma_sys_chunks_no_orphan(
    entities: Seq<EntityWithSource>,
    sysname: Seq<char>,
    idxs: Seq<int>,
    start: int,
    depth: int,
    k: int,
)
    requires
        !is_orphan(entities, sysname),
        idxs == system_group(entities, sysname),
        0 <= k <= idxs.len(),
    ensures
        no_orphan_system_nodes(
            sys_chunks_model(entities, sysname, idxs, start, depth, k).0,
            entities,
        ),
    decreases k,
{
    if k > 0 {
        let (pre, ids) = sys_chunks_model(entities, sysname, idxs, start, depth, k - 1);
        lemma_sys_chunks_no_orphan(entities, sysname, idxs, start, depth, k - 1);
        lemma_system_group_names(entities, sysname, entities.len() as int);
        lemma_system_chunk_no_orphan(
            entities,
            sysname,
            idxs[k - 1],
            start + pre.len(),
            depth,
        );
        lemma_no_orphan_concat(
            pre,
            system_chunk_model(entities, sysname, idxs[k - 1], start + pre.len(), depth),
            entities,
        );
    }
}

/// The system subtrees gathered under an existing domain hold no
/// orphaned System node.
proof fn lemma_domain_systems_no_orphan(
    entities: Seq<EntityWithSource>,
    names: Seq<Seq<char>>,
    dname: Seq<char>,
    start: int,
    depth: int,
    k: int,
)
    requires
        domain_names(entities).contains(dname),
        0 <= k <= names.len(),
    ensures
        no_orphan_system_nodes(
            domain_systems_model(entities, names, dname, start, depth, k).0,
            entities,
        ),
    decreases k,
{
    if k > 0 {
        let (pre, ids) = domain_systems_model(entities, names, dname, start, depth, k - 1);
        lemma_domain_systems_no_orphan(entities, names, dname, start, depth, k - 1);
        if sys_domain(entities, names[k - 1]) == Some(dname) {
            let g = system_group(entities, names[k - 1]);
            assert(!is_orphan(entities, names[k - 1]));
            lemma_sys_chunks_no_orphan(
                entities,
                names[k - 1],
                g,
                start + pre.len(),
                depth,
                g.len() as int,
            );
            lemma_no_orphan_concat(
                pre,
                sys_chunks_model(entities, names[k - 1], g, start + pre.len(), depth, g.len() as int).0,
                entities,
            );
        }
    }
}

/// One domain subtree holds no orphaned System node.
proof fn lemma_domain_chunk_no_orphan(
    entities: Seq<EntityWithSource>,
    dname: Seq<char>,
    d_idx: int,
    start: int,
)
    requires
        domain_names(entities).contains(dname),
        0 <= d_idx < entities.len(),
        entities[d_idx].entity.kind == EntityKind::Domain,
    ensures
        no_orphan_system_nodes(domain_chunk_model(entities, dname, d_idx, start), entities),
{
    let m = domain_chunk_model(entities, dname, d_idx, start);
    let names = system_names(entities);
    let (sys_nodes, sys_ids) = domain_systems_model(
        entities,
        names,
        dname,
        start + 1,
        2,
        names.len() as int,
    );
    lemma_domain_systems_no_orphan(entities, names, dname, start + 1, 2, names.len() as int);
    assert forall|i: int| 0 <= i < m.len() implies node_no_orphan(#[trigger] m[i], entities) by {
        if i > 0 {
            assert(m[i] == sys_nodes[i - 1]);
        }
    }
}

/// The subtrees of the domains of one name hold no orphaned System
/// node.
proof fn lemma_domain_chunks_no_orphan(
    entities: Seq<EntityWithSource>,
    dname: Seq<char>,
    idxs: Seq<int>,
    start: int,
    k: int,
)
    requires
        domain_names(entities).contains(dname),
        idxs == domain_group(entities, dname),
        0 <= k <= idxs.len(),
    ensures
        no_orphan_system_nodes(
            domain_chunks_model(entities, dname, idxs, start, k).0,
            entities,
        ),
    decreases k,
{
    if k > 0 {
        let (pre, ids) = domain_chunks_model(entities, dname, idxs, start, k - 1);
        lemma_domain_chunks_no_orphan(entities, dname, idxs, start, k - 1);
        lemma_domain_group_kinds(entities, dname, entities.len() as int);
        lemma_domain_chunk_no_orphan(entities, dname, idxs[k - 1], start + pre.len());
        lemma_no_orphan_concat(
            pre,
            domain_chunk_model(entities, dname, idxs[k - 1], start + pre.len()),
            entities,
        );
    }
}

/// The whole domain forest holds no orphaned System node.
proof fn lemma_domains_forest_no_orphan(
    entities: Seq<EntityWithSource>,
    names: Seq<Seq<char>>,
    start: int,
    k: int,
)
    requires
        names == domain_names(entities),
        0 <= k <= names.len(),
    ensures
        no_orphan_system_nodes(domains_forest_model(entities, names, start, k).0, entities),
    decreases k,
{
    if k > 0 {
        let (pre, ids) = domains_forest_model(entities, names, start, k - 1);
        lemma_domains_forest_no_orphan(entities, names, start, k - 1);
        let g = domain_group(entities, names[k - 1]);
        assert(domain_names(entities).contains(names[k - 1]));
        lemma_domain_chunks_no_orphan(
            entities,
            names[k - 1],
            g,
            start + pre.len(),
            g.len() as int,
        );
        lemma_no_orphan_concat(
            pre,
            domain_chunks_model(entities, names[k - 1], g, start + pre.len(), g.len() as int).0,
            entities,
        );
    }
}

/// Orphan-domain placement, structurally: the Domains section never
/// holds a System entity whose name records no domain or records one
/// that no Domain entity bears.
pub proof fn lemma_no_orphan_under_domains(entities: Seq<EntityWithSource>)
    ensures
        no_orphan_system_nodes(domains_section_model(entities).0, entities),
{
    let names = domain_names(entities);
    if names.len() > 0 {
        let (f, ids) = domains_forest_model(entities, names, 1, names.len() as int);
        lemma_domains_forest_no_orphan(entities, names, 1, names.len() as int);
        let m = domains_section_model(entities).0;
        assert forall|i: int| 0 <= i < m.len() implies node_no_orphan(
            #[trigger] m[i],
            entities,
        ) by {
            if i > 0 {
                assert(m[i] == f[i - 1]);
            }
        }
    }
}


} // verus!
