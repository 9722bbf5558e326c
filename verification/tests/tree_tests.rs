use bsv::entity::Entity;
use bsv::entity::EntityKind;
use bsv::entity::EntityWithSource;
use bsv::entity::Metadata;
use bsv::tree::filter_by_search;
use bsv::tree::reselect_if_hidden;
use bsv::tree::selection_down;
use bsv::tree::selection_up;
use bsv::tree::EntityTree;
use bsv::tree::TreeNode;
use bsv::tree::TreeState;
use bsv::value::Value;

fn entity(kind: EntityKind, name: &str, spec: Value) -> EntityWithSource {
    EntityWithSource::new(
        Entity {
            api_version: "backstage.io/v1alpha1".to_string(),
            kind,
            metadata: Metadata {
                name: name.to_string(),
                title: None,
                namespace: None,
                description: None,
                labels: Vec::new(),
                annotations: Vec::new(),
                tags: Vec::new(),
                links: Vec::new(),
            },
            spec,
        },
        "catalog-info.yaml".to_string(),
    )
}

fn str_field(key: &str, value: &str) -> Value {
    Value::Mapping(vec![(key.to_string(), Value::Str(value.to_string()))])
}

#[test]
fn test_tree_concrete_scenario() {
    // Domain "platform", System "auth" in it, Component "svc" in the
    // system: one root chain of four nodes with ids 0 through 3.
    let snapshot = vec![
        entity(EntityKind::Domain, "platform", Value::Null),
        entity(EntityKind::System, "auth", str_field("domain", "platform")),
        entity(EntityKind::Component, "svc", str_field("system", "auth")),
    ];
    let tree = EntityTree::build(snapshot);

    assert_eq!(tree.nodes.len(), 4);
    assert_eq!(tree.root_children, vec![0]);

    assert_eq!(tree.nodes[0].id, 0);
    assert_eq!(tree.nodes[0].label, "Domains");
    assert_eq!(tree.nodes[0].depth, 0);
    assert!(tree.nodes[0].is_category);
    assert_eq!(tree.nodes[0].children, vec![1]);

    assert_eq!(tree.nodes[1].label, "Domain: platform");
    assert_eq!(tree.nodes[1].depth, 1);
    assert_eq!(tree.nodes[1].children, vec![2]);

    assert_eq!(tree.nodes[2].label, "System: auth");
    assert_eq!(tree.nodes[2].depth, 2);
    assert_eq!(tree.nodes[2].children, vec![3]);

    assert_eq!(tree.nodes[3].label, "Component: svc");
    assert_eq!(tree.nodes[3].depth, 3);
    assert!(tree.nodes[3].children.is_empty());
}

#[test]
fn test_orphan_system_under_systems() {
    // A System naming a Domain that does not exist goes under
    // "Systems", never under "Domains".
    let snapshot = vec![
        entity(EntityKind::Domain, "platform", Value::Null),
        entity(EntityKind::System, "auth", str_field("domain", "nonexistent")),
    ];
    let tree = EntityTree::build(snapshot);

    let roots: Vec<&str> = tree
        .root_children
        .iter()
        .map(|&id| tree.nodes[id].label.as_str())
        .collect();
    assert_eq!(roots, vec!["Domains", "Systems"]);

    // The Domains bucket holds only the bare domain node.
    let domains_id = tree.root_children[0];
    assert_eq!(tree.nodes[domains_id].children.len(), 1);
    let dom_node = tree.nodes[domains_id].children[0];
    assert_eq!(tree.nodes[dom_node].label, "Domain: platform");
    assert!(tree.nodes[dom_node].children.is_empty());

    // The orphaned system sits under Systems.
    let systems_id = tree.root_children[1];
    assert_eq!(tree.nodes[systems_id].children.len(), 1);
    let sys_node = tree.nodes[systems_id].children[0];
    assert_eq!(tree.nodes[sys_node].label, "System: auth");
    assert_eq!(tree.nodes[sys_node].depth, 1);
}

#[test]
fn test_ungrouped_entities_under_other() {
    let snapshot = vec![
        entity(EntityKind::Group, "team-a", Value::Null),
        entity(EntityKind::Component, "standalone", Value::Null),
        entity(EntityKind::User, "alice", Value::Null),
    ];
    let tree = EntityTree::build(snapshot);
    assert_eq!(tree.root_children.len(), 1);
    let other_id = tree.root_children[0];
    assert_eq!(tree.nodes[other_id].label, "Other Entities");
    let labels: Vec<&str> = tree.nodes[other_id]
        .children
        .iter()
        .map(|&id| tree.nodes[id].label.as_str())
        .collect();
    assert_eq!(labels, vec!["Group: team-a", "Component: standalone", "User: alice"]);
}

#[test]
fn test_empty_snapshot_empty_tree() {
    let tree = EntityTree::build(Vec::new());
    assert!(tree.nodes.is_empty());
    assert!(tree.root_children.is_empty());
}

#[test]
fn test_tree_rebuild_identical() {
    let snapshot = vec![
        entity(EntityKind::Domain, "platform", Value::Null),
        entity(EntityKind::System, "auth", str_field("domain", "platform")),
        entity(EntityKind::Component, "svc", str_field("system", "auth")),
        entity(EntityKind::User, "alice", Value::Null),
    ];
    let t1 = EntityTree::build(snapshot.clone());
    let t2 = EntityTree::build(snapshot);
    assert_eq!(t1.nodes.len(), t2.nodes.len());
    assert_eq!(t1.root_children, t2.root_children);
    for (a, b) in t1.nodes.iter().zip(t2.nodes.iter()) {
        assert_eq!(a.id, b.id);
        assert_eq!(a.label, b.label);
        assert_eq!(a.depth, b.depth);
        assert_eq!(a.children, b.children);
        assert_eq!(a.is_category, b.is_category);
        assert_eq!(a.entity.is_some(), b.entity.is_some());
    }
}

#[test]
fn test_visible_nodes_follow_expansion() {
    let snapshot = vec![
        entity(EntityKind::Domain, "platform", Value::Null),
        entity(EntityKind::System, "auth", str_field("domain", "platform")),
        entity(EntityKind::Component, "svc", str_field("system", "auth")),
    ];
    let tree = EntityTree::build(snapshot);
    let mut state = TreeState::new();

    // Nothing expanded: only the root category shows.
    let visible = tree.visible_nodes(&state);
    assert_eq!(visible.len(), 1);
    assert_eq!(visible[0].label, "Domains");

    // Expanding the category reveals the domain.
    state.toggle_expanded(0);
    let visible = tree.visible_nodes(&state);
    let labels: Vec<&str> = visible.iter().map(|n| n.label.as_str()).collect();
    assert_eq!(labels, vec!["Domains", "Domain: platform"]);

    // Expand everything: the full pre-order chain shows.
    state.expand_all(&tree);
    let visible = tree.visible_nodes(&state);
    let labels: Vec<&str> = visible.iter().map(|n| n.label.as_str()).collect();
    assert_eq!(
        labels,
        vec!["Domains", "Domain: platform", "System: auth", "Component: svc"]
    );
}

#[test]
fn test_toggle_and_collapse() {
    let snapshot = vec![
        entity(EntityKind::Domain, "platform", Value::Null),
        entity(EntityKind::System, "auth", str_field("domain", "platform")),
    ];
    let tree = EntityTree::build(snapshot);
    let mut state = TreeState::new();
    assert!(!state.is_expanded(0));
    tree.toggle_expand(&mut state);
    assert!(state.is_expanded(0));
    tree.toggle_expand(&mut state);
    assert!(!state.is_expanded(0));

    // A leaf cannot be expanded.
    state.selected = 2;
    tree.toggle_expand(&mut state);
    assert!(!state.is_expanded(2));
}

fn label_node(id: usize, label: &str) -> TreeNode {
    TreeNode {
        id,
        label: label.to_string(),
        depth: 0,
        entity: None,
        children: Vec::new(),
        is_category: false,
    }
}

#[test]
fn test_search_filter_case_insensitive() {
    // Labels filtered on "AUTH" keep exactly "System: auth".
    let n0 = label_node(0, "Domains");
    let n1 = label_node(1, "Domain: platform");
    let n2 = label_node(2, "System: auth");
    let filtered = filter_by_search(vec![&n0, &n1, &n2], "AUTH");
    let labels: Vec<&str> = filtered.iter().map(|n| n.label.as_str()).collect();
    assert_eq!(labels, vec!["System: auth"]);

    // The empty query keeps everything.
    let all = filter_by_search(vec![&n0, &n1, &n2], "");
    assert_eq!(all.len(), 3);
}

#[test]
fn test_selection_stepping() {
    let n0 = label_node(10, "a");
    let n1 = label_node(11, "b");
    let n2 = label_node(12, "c");
    let visible = vec![&n0, &n1, &n2];

    assert_eq!(selection_up(&visible, 11), 10);
    assert_eq!(selection_up(&visible, 10), 10);
    assert_eq!(selection_down(&visible, 11), 12);
    assert_eq!(selection_down(&visible, 12), 12);
    // An unknown selection counts as the first position.
    assert_eq!(selection_up(&visible, 99), 99);
    assert_eq!(selection_down(&visible, 99), 11);
    // An empty list leaves the selection alone.
    let empty: Vec<&TreeNode> = Vec::new();
    assert_eq!(selection_up(&empty, 5), 5);
    assert_eq!(selection_down(&empty, 5), 5);

    // Reselect when the selection is filtered out.
    assert_eq!(reselect_if_hidden(&visible, 11), 11);
    assert_eq!(reselect_if_hidden(&visible, 99), 10);
    assert_eq!(reselect_if_hidden(&empty, 99), 99);
}

#[test]
fn test_get_node() {
    let snapshot = vec![entity(EntityKind::User, "alice", Value::Null)];
    let tree = EntityTree::build(snapshot);
    assert!(tree.get_node(0).is_some());
    assert_eq!(tree.get_node(1).map(|n| n.id), Some(1));
    assert!(tree.get_node(99).is_none());
}

#[test]
fn test_duplicate_domain_names_grouped() {
    // Two Domain entities sharing a name both stand under Domains.
    let snapshot = vec![
        entity(EntityKind::Domain, "platform", Value::Null),
        entity(EntityKind::Domain, "platform", Value::Null),
    ];
    let tree = EntityTree::build(snapshot);
    assert_eq!(tree.root_children.len(), 1);
    let cat = tree.root_children[0];
    assert_eq!(tree.nodes[cat].children.len(), 2);
}
