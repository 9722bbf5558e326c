use std::collections::HashSet;

use bsv::entity::Entity;
use bsv::entity::EntityIndex;
use bsv::entity::EntityKind;
use bsv::entity::EntityRef;
use bsv::entity::EntityWithSource;
use bsv::entity::Metadata;
use bsv::entity::ValidationError;
use bsv::value::Value;

fn meta(name: &str, title: Option<&str>, namespace: Option<&str>) -> Metadata {
    Metadata {
        name: name.to_string(),
        title: title.map(String::from),
        namespace: namespace.map(String::from),
        description: None,
        labels: Vec::new(),
        annotations: Vec::new(),
        tags: Vec::new(),
        links: Vec::new(),
    }
}

fn entity(kind: EntityKind, name: &str, namespace: Option<&str>, spec: Value) -> Entity {
    Entity {
        api_version: "backstage.io/v1alpha1".to_string(),
        kind,
        metadata: meta(name, None, namespace),
        spec,
    }
}

#[test]
fn test_entity_ref_parsing_variations() {
    // Full format: "component:default/my-service"
    let ref1 = EntityRef::parse("component:default/my-service", "component");
    assert_eq!(ref1.kind, "component");
    assert_eq!(ref1.namespace, "default");
    assert_eq!(ref1.name, "my-service");
    assert!(!ref1.kind_inferred);
    assert!(!ref1.namespace_inferred);

    // Just name (infer kind and namespace): "my-service"
    let ref2 = EntityRef::parse("my-service", "component");
    assert_eq!(ref2.kind, "component");
    assert_eq!(ref2.namespace, "default");
    assert_eq!(ref2.name, "my-service");
    assert!(ref2.kind_inferred);
    assert!(ref2.namespace_inferred);

    // Kind and name: "api:my-api"
    let ref3 = EntityRef::parse("api:my-api", "component");
    assert_eq!(ref3.kind, "api");
    assert_eq!(ref3.namespace, "default");
    assert_eq!(ref3.name, "my-api");
    assert!(!ref3.kind_inferred);
    assert!(ref3.namespace_inferred);

    // Namespace and name: "default/my-service"
    let ref4 = EntityRef::parse("default/my-service", "system");
    assert_eq!(ref4.kind, "system");
    assert_eq!(ref4.namespace, "default");
    assert_eq!(ref4.name, "my-service");
    assert!(ref4.kind_inferred);
    assert!(!ref4.namespace_inferred);

    // Custom namespace
    let ref5 = EntityRef::parse("component:production/my-service", "component");
    assert_eq!(ref5.kind, "component");
    assert_eq!(ref5.namespace, "production");
    assert_eq!(ref5.name, "my-service");
    assert!(!ref5.kind_inferred);
    assert!(!ref5.namespace_inferred);

    // Edge case: empty string (becomes default namespace and empty name)
    let ref6 = EntityRef::parse("", "component");
    assert_eq!(ref6.kind, "component");
    assert_eq!(ref6.namespace, "default");
    assert_eq!(ref6.name, "");
    assert!(ref6.kind_inferred);
    assert!(ref6.namespace_inferred);

    // Edge case: special characters in name
    let ref7 = EntityRef::parse("my-service-123", "component");
    assert_eq!(ref7.name, "my-service-123");

    // Edge case: uppercase kind is lowercased
    let ref8 = EntityRef::parse("Component:my-service", "component");
    assert_eq!(ref8.kind, "component");

    // Edge case: just kind delimiter
    let ref9 = EntityRef::parse("api:", "component");
    assert_eq!(ref9.kind, "api");
    assert_eq!(ref9.namespace, "default");
    assert_eq!(ref9.name, "");

    // Edge case: just namespace delimiter
    let ref10 = EntityRef::parse("production/", "component");
    assert_eq!(ref10.kind, "component");
    assert_eq!(ref10.namespace, "production");
    assert_eq!(ref10.name, "");
}

#[test]
fn test_entity_ref_canonical_format() {
    let ref1 = EntityRef::parse("component:default/my-service", "component");
    assert_eq!(ref1.canonical(), "component:default/my-service");

    let ref2 = EntityRef::parse("my-service", "component");
    assert_eq!(ref2.canonical(), "component:default/my-service");

    let ref3 = EntityRef::parse("api:production/my-api", "component");
    assert_eq!(ref3.canonical(), "api:production/my-api");

    assert_eq!(ref1.canonical(), ref1.canonical());
    assert_eq!(ref2.canonical(), ref2.canonical());
    assert_eq!(ref3.canonical(), ref3.canonical());
}

#[test]
fn test_entity_ref_known_kinds() {
    assert!(EntityRef::parse("component:default/test", "component").is_known_kind());
    assert!(EntityRef::parse("api:default/test", "api").is_known_kind());
    assert!(EntityRef::parse("resource:default/test", "resource").is_known_kind());
    assert!(EntityRef::parse("system:default/test", "system").is_known_kind());
    assert!(EntityRef::parse("domain:default/test", "domain").is_known_kind());
    assert!(EntityRef::parse("group:default/test", "group").is_known_kind());
    assert!(EntityRef::parse("user:default/test", "user").is_known_kind());
    assert!(EntityRef::parse("location:default/test", "location").is_known_kind());

    assert!(!EntityRef::parse("custom:default/test", "custom").is_known_kind());
    assert!(!EntityRef::parse("widget:default/test", "widget").is_known_kind());

    assert!(EntityRef::parse("Component:default/test", "component").is_known_kind());
    assert!(EntityRef::parse("API:default/test", "api").is_known_kind());
}

#[test]
fn test_entity_index_operations() {
    let entity1 = entity(EntityKind::Component, "service-a", Some("default"), Value::Null);
    let entity2 = entity(EntityKind::Api, "api-b", Some("production"), Value::Null);
    let entity3 = entity(EntityKind::System, "system-c", None, Value::Null);

    let entities = vec![
        EntityWithSource::new(entity1, "test1.yaml".to_string()),
        EntityWithSource::new(entity2, "test2.yaml".to_string()),
        EntityWithSource::new(entity3, "test3.yaml".to_string()),
    ];

    let index = EntityIndex::build(&entities);

    assert!(index.contains(&EntityRef::parse("component:default/service-a", "component")));
    assert!(index.contains(&EntityRef::parse("service-a", "component")));
    assert!(index.contains(&EntityRef::parse("api:production/api-b", "api")));
    assert!(index.contains(&EntityRef::parse("system:default/system-c", "system")));

    assert!(!index.contains(&EntityRef::parse("component:default/nonexistent", "component")));
    assert!(!index.contains(&EntityRef::parse("api:default/api-b", "api")));
    assert!(!index.contains(&EntityRef::parse("component:production/service-a", "component")));
}

#[test]
fn test_entity_display_name() {
    let entity_with_title = Entity {
        api_version: "backstage.io/v1alpha1".to_string(),
        kind: EntityKind::Component,
        metadata: meta("service-a", Some("Service A (Production)"), None),
        spec: Value::Null,
    };
    assert_eq!(entity_with_title.display_name(), "Service A (Production)");

    let entity_without_title = Entity {
        api_version: "backstage.io/v1alpha1".to_string(),
        kind: EntityKind::Component,
        metadata: meta("service-b", None, None),
        spec: Value::Null,
    };
    assert_eq!(entity_without_title.display_name(), "service-b");
}

#[test]
fn test_entity_ref_key() {
    let entity1 = entity(EntityKind::Component, "my-service", Some("production"), Value::Null);
    assert_eq!(entity1.ref_key(), "component:production/my-service");

    let entity2 = entity(EntityKind::Api, "my-api", None, Value::Null);
    assert_eq!(entity2.ref_key(), "api:default/my-api");

    let entity3 = entity(EntityKind::System, "platform", Some("default"), Value::Null);
    assert_eq!(entity3.ref_key(), "system:default/platform");
}

#[test]
fn test_entity_kind_display() {
    assert_eq!(EntityKind::Component.label(), "Component");
    assert_eq!(EntityKind::Api.label(), "API");
    assert_eq!(EntityKind::Resource.label(), "Resource");
    assert_eq!(EntityKind::System.label(), "System");
    assert_eq!(EntityKind::Domain.label(), "Domain");
    assert_eq!(EntityKind::Group.label(), "Group");
    assert_eq!(EntityKind::User.label(), "User");
    assert_eq!(EntityKind::Location.label(), "Location");
    assert_eq!(EntityKind::Unknown.label(), "Unknown");
}

#[test]
fn test_entity_spec_accessors() {
    let spec = Value::Mapping(vec![
        ("system".to_string(), Value::Str("platform".to_string())),
        ("domain".to_string(), Value::Str("payments".to_string())),
        ("owner".to_string(), Value::Str("team-a".to_string())),
        ("lifecycle".to_string(), Value::Str("production".to_string())),
        ("type".to_string(), Value::Str("service".to_string())),
    ]);

    let e = entity(EntityKind::Component, "test-service", None, spec);

    assert_eq!(e.system(), Some("platform".to_string()));
    assert_eq!(e.domain(), Some("payments".to_string()));
    assert_eq!(e.owner(), Some("team-a".to_string()));
    assert_eq!(e.lifecycle(), Some("production".to_string()));
    assert_eq!(e.entity_type(), Some("service".to_string()));

    let empty_entity = entity(EntityKind::Component, "test", None, Value::Null);

    assert_eq!(empty_entity.system(), None);
    assert_eq!(empty_entity.domain(), None);
    assert_eq!(empty_entity.owner(), None);
    assert_eq!(empty_entity.lifecycle(), None);
    assert_eq!(empty_entity.entity_type(), None);
}

#[test]
fn test_entity_with_source() {
    let e = entity(EntityKind::Component, "test", None, Value::Null);

    let source_path = "/path/to/catalog-info.yaml".to_string();
    let entity_with_source = EntityWithSource::new(e.clone(), source_path.clone());

    assert_eq!(entity_with_source.source_file, source_path);
    assert!(entity_with_source.validation_errors.is_empty());

    let errors = vec![
        ValidationError {
            path: "spec.owner".to_string(),
            message: "Required field missing".to_string(),
        },
        ValidationError {
            path: "metadata.name".to_string(),
            message: "Invalid format".to_string(),
        },
    ];

    let entity_with_errors =
        EntityWithSource::new(e, source_path).with_validation_errors(errors.clone());

    assert_eq!(entity_with_errors.validation_errors.len(), 2);
    assert_eq!(entity_with_errors.validation_errors[0].path, "spec.owner");
    assert_eq!(
        entity_with_errors.validation_errors[0].message,
        "Required field missing"
    );
}

#[test]
fn test_entity_ref_hash_and_eq() {
    let ref1 = EntityRef::parse("component:default/my-service", "component");
    let ref2 = EntityRef::parse("component:default/my-service", "component");
    let ref3 = EntityRef::parse("component:default/other-service", "component");

    assert_eq!(ref1, ref2);
    assert_ne!(ref1, ref3);

    let mut set = HashSet::new();
    set.insert(ref1.clone());
    assert!(set.contains(&ref2));
    assert!(!set.contains(&ref3));

    // Inferred flags affect structural equality.
    let ref4 = EntityRef::parse("my-service", "component");
    assert_ne!(ref1, ref4);

    // But canonical strings are the same.
    assert_eq!(ref1.canonical(), ref4.canonical());
}

#[test]
fn test_validation_error() {
    let error = ValidationError {
        path: "spec.type".to_string(),
        message: "Unknown type specified".to_string(),
    };

    assert_eq!(error.path, "spec.type");
    assert_eq!(error.message, "Unknown type specified");

    let cloned = error.clone();
    assert_eq!(cloned.path, error.path);
    assert_eq!(cloned.message, error.message);
}

#[test]
fn test_canonical_stability_under_reparse() {
    // Re-parsing a canonical string under any default kind reproduces it.
    for (r, d) in [
        ("component:default/my-service", "component"),
        ("my-service", "api"),
        ("Weird:NS/name", "x"),
        ("a:b:c/d/e", "system"),
        ("", "Group"),
        ("api:", "component"),
    ] {
        let c1 = EntityRef::parse(r, d).canonical();
        for d2 in ["component", "system", "weird", ""] {
            let c2 = EntityRef::parse(&c1, d2).canonical();
            assert_eq!(c2, c1);
        }
    }
}

#[test]
fn test_index_self_consistency() {
    // Every indexed entity is found again when its own key is parsed
    // under an arbitrary default kind.
    let entities = vec![
        EntityWithSource::new(
            entity(EntityKind::Component, "svc", Some("team/x"), Value::Null),
            "a.yaml".to_string(),
        ),
        EntityWithSource::new(entity(EntityKind::Domain, "platform", None, Value::Null), "b.yaml".to_string()),
    ];
    let index = EntityIndex::build(&entities);
    for e in &entities {
        let key = e.entity.ref_key();
        assert!(index.contains(&EntityRef::parse(&key, "anyKind")));
    }
}

#[test]
fn test_lowercasing_through_parse() {
    // The kind part really is lowercased, for both explicit and
    // defaulted kinds.
    let r = EntityRef::parse("COMPONENT:Team/Svc", "whatever");
    assert_eq!(r.kind, "component");
    assert_eq!(r.namespace, "Team");
    assert_eq!(r.name, "Svc");
    let r2 = EntityRef::parse("plain-name", "GROUP");
    assert_eq!(r2.kind, "group");
}
