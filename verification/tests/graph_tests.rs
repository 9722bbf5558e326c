use bsv::entity::Entity;
use bsv::entity::EntityKind;
use bsv::entity::EntityWithSource;
use bsv::entity::Metadata;
use bsv::graph::inverse_label;
use bsv::graph::RelationType;
use bsv::graph::RelationshipGraph;
use bsv::value::Value;

fn entity(kind: EntityKind, name: &str, spec: Value) -> EntityWithSource {
    EntityWithSource::new(
        Entity {
            api_version: "backstage.io/v1alpha1".to_string(),
            kind,
            metadata: Metadata {
                name: name.to_string(),
                title: None,
                namespace: None,
                description: None,
                labels: Vec::new(),
                annotations: Vec::new(),
                tags: Vec::new(),
                links: Vec::new(),
            },
            spec,
        },
        "catalog-info.yaml".to_string(),
    )
}

fn depends_on(names: &[&str]) -> Value {
    Value::Mapping(vec![(
        "dependsOn".to_string(),
        Value::Sequence(names.iter().map(|n| Value::Str(n.to_string())).collect()),
    )])
}

#[test]
fn test_relation_labels() {
    assert_eq!(RelationType::Owner.label(), "owned by");
    assert_eq!(RelationType::DependsOn.label(), "depends on");
    assert_eq!(RelationType::HasMember.label(), "has member");
    assert_eq!(inverse_label(&RelationType::Owner), "owns");
    assert_eq!(inverse_label(&RelationType::DependencyOf), "depended on by");
    // Relations without a special incoming reading fall back.
    assert_eq!(inverse_label(&RelationType::DependsOn), "depends on");
}

#[test]
fn test_graph_symmetry_both_orders() {
    // A depends on B: A's outgoing lists DependsOn B (existing), and
    // B's incoming lists DependencyOf A — in either snapshot order.
    let a = entity(EntityKind::Component, "a", depends_on(&["b"]));
    let b = entity(EntityKind::Component, "b", Value::Null);

    for snapshot in [vec![a.clone(), b.clone()], vec![b.clone(), a.clone()]] {
        let ga = RelationshipGraph::build(&snapshot.iter().find(|e| e.entity.metadata.name == "a").unwrap(), &snapshot);
        let gb = RelationshipGraph::build(&snapshot.iter().find(|e| e.entity.metadata.name == "b").unwrap(), &snapshot);

        let out: Vec<_> = ga
            .outgoing
            .iter()
            .filter(|(r, _)| *r == RelationType::DependsOn)
            .collect();
        assert_eq!(out.len(), 1);
        assert_eq!(out[0].1.display_name, "b");
        assert!(out[0].1.exists);

        let inc: Vec<_> = gb
            .incoming
            .iter()
            .filter(|(r, _)| *r == RelationType::DependencyOf)
            .collect();
        assert_eq!(inc.len(), 1);
        assert_eq!(inc[0].1.display_name, "a");
        assert!(inc[0].1.exists);
    }
}

#[test]
fn test_dangling_owner_reference() {
    // An owner that no entity bears yields exactly one Owner edge
    // with exists false and the raw name displayed.
    let spec = Value::Mapping(vec![("owner".to_string(), Value::Str("ghost".to_string()))]);
    let e = entity(EntityKind::Component, "svc", spec);
    let snapshot = vec![e.clone()];
    let g = RelationshipGraph::build(&e, &snapshot);
    let owners: Vec<_> = g
        .outgoing
        .iter()
        .filter(|(r, _)| *r == RelationType::Owner)
        .collect();
    assert_eq!(owners.len(), 1);
    assert!(!owners[0].1.exists);
    assert_eq!(owners[0].1.display_name, "ghost");
    assert_eq!(owners[0].1.kind, "group");
}

#[test]
fn test_outgoing_field_order_and_center() {
    let spec = Value::Mapping(vec![
        ("owner".to_string(), Value::Str("team-a".to_string())),
        ("system".to_string(), Value::Str("sys".to_string())),
        (
            "providesApis".to_string(),
            Value::Sequence(vec![
                Value::Str("api-one".to_string()),
                Value::Number(7),
                Value::Str("api-two".to_string()),
            ]),
        ),
    ]);
    let e = entity(EntityKind::Component, "svc", spec);
    let snapshot = vec![e.clone()];
    let g = RelationshipGraph::build(&e, &snapshot);

    assert_eq!(g.center.display_name, "svc");
    assert_eq!(g.center.kind, "Component");
    assert!(g.center.exists);

    let rels: Vec<RelationType> = g.outgoing.iter().map(|(r, _)| *r).collect();
    assert_eq!(
        rels,
        vec![
            RelationType::Owner,
            RelationType::System,
            RelationType::ProvidesApi,
            RelationType::ProvidesApi,
        ]
    );
    // The non-string array item is silently skipped.
    assert_eq!(g.outgoing[2].1.display_name, "api-one");
    assert_eq!(g.outgoing[3].1.display_name, "api-two");
}

#[test]
fn test_incoming_at_most_one_edge_per_field() {
    // The focal key appearing twice in one dependsOn array still
    // yields a single DependencyOf edge.
    let a = entity(EntityKind::Component, "a", depends_on(&["b", "b"]));
    let b = entity(EntityKind::Component, "b", Value::Null);
    let snapshot = vec![a, b.clone()];
    let g = RelationshipGraph::build(&snapshot[1], &snapshot);
    let inc: Vec<_> = g
        .incoming
        .iter()
        .filter(|(r, _)| *r == RelationType::DependencyOf)
        .collect();
    assert_eq!(inc.len(), 1);
}

#[test]
fn test_graph_rebuild_identical() {
    let a = entity(EntityKind::Component, "a", depends_on(&["b"]));
    let b = entity(EntityKind::Api, "b", Value::Null);
    let snapshot = vec![a, b];
    let g1 = RelationshipGraph::build(&snapshot[0], &snapshot);
    let g2 = RelationshipGraph::build(&snapshot[0], &snapshot);
    assert_eq!(g1.center.display_name, g2.center.display_name);
    assert_eq!(g1.outgoing.len(), g2.outgoing.len());
    assert_eq!(g1.incoming.len(), g2.incoming.len());
    for (x, y) in g1.outgoing.iter().zip(g2.outgoing.iter()) {
        assert_eq!(x.0, y.0);
        assert_eq!(x.1.display_name, y.1.display_name);
        assert_eq!(x.1.kind, y.1.kind);
        assert_eq!(x.1.exists, y.1.exists);
    }
}
