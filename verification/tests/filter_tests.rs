//! Tests of the filter module.

use infrahub_erd::filter::{filter_schema, NamePattern};
use infrahub_erd::parse::{Attribute, Cardinality, Entity, Relationship, Schema};

fn test_schema() -> Schema {
    Schema {
        entities: vec![
            Entity {
                name: "InfraDevice".to_string(),
                attributes: vec![Attribute {
                    name: "name".to_string(),
                    attr_type: "TextAttribute".to_string(),
                }],
                relationships: vec![
                    Relationship {
                        field_name: "interfaces".to_string(),
                        target: "InfraInterface".to_string(),
                        cardinality: Cardinality::Many,
                    },
                    Relationship {
                        field_name: "site".to_string(),
                        target: "LocationSite".to_string(),
                        cardinality: Cardinality::One,
                    },
                ],
                implements: vec![],
            },
            Entity {
                name: "InfraInterface".to_string(),
                attributes: vec![],
                relationships: vec![Relationship {
                    field_name: "device".to_string(),
                    target: "InfraDevice".to_string(),
                    cardinality: Cardinality::One,
                }],
                implements: vec![],
            },
            Entity {
                name: "LocationSite".to_string(),
                attributes: vec![Attribute {
                    name: "name".to_string(),
                    attr_type: "TextAttribute".to_string(),
                }],
                relationships: vec![Relationship {
                    field_name: "devices".to_string(),
                    target: "InfraDevice".to_string(),
                    cardinality: Cardinality::Many,
                }],
                implements: vec![],
            },
        ],
        enums: vec![],
    }
}

#[test]
fn test_no_filters() {
    let schema = filter_schema(test_schema(), None, None);
    let names: Vec<&str> = schema.entities.iter().map(|e| e.name.as_str()).collect();
    assert_eq!(names, ["InfraDevice", "InfraInterface", "LocationSite"]);
}

#[test]
fn test_include_only() {
    let re = NamePattern::new("^Infra").unwrap();
    let schema = filter_schema(test_schema(), Some(&re), None);
    let names: Vec<&str> = schema.entities.iter().map(|e| e.name.as_str()).collect();
    assert_eq!(names, ["InfraDevice", "InfraInterface"]);
}

#[test]
fn test_include_removes_dangling_relationships() {
    let re = NamePattern::new("^Infra").unwrap();
    let schema = filter_schema(test_schema(), Some(&re), None);
    let device = schema
        .entities
        .iter()
        .find(|e| e.name == "InfraDevice")
        .unwrap();
    // site relationship to LocationSite should be gone
    assert_eq!(device.relationships.len(), 1);
    assert_eq!(device.relationships[0].target, "InfraInterface");
}

#[test]
fn test_exclude_only() {
    let re = NamePattern::new("Interface").unwrap();
    let schema = filter_schema(test_schema(), None, Some(&re));
    let names: Vec<&str> = schema.entities.iter().map(|e| e.name.as_str()).collect();
    assert_eq!(names, ["InfraDevice", "LocationSite"]);
}

#[test]
fn test_exclude_removes_dangling_relationships() {
    let re = NamePattern::new("Interface").unwrap();
    let schema = filter_schema(test_schema(), None, Some(&re));
    let device = schema
        .entities
        .iter()
        .find(|e| e.name == "InfraDevice")
        .unwrap();
    // interfaces relationship to InfraInterface should be gone
    assert_eq!(device.relationships.len(), 1);
    assert_eq!(device.relationships[0].target, "LocationSite");
}

#[test]
fn test_include_and_exclude() {
    let inclusion = NamePattern::new("^Infra").unwrap();
    let exclusion = NamePattern::new("Interface$").unwrap();
    let schema = filter_schema(test_schema(), Some(&inclusion), Some(&exclusion));
    let names: Vec<&str> = schema.entities.iter().map(|e| e.name.as_str()).collect();
    assert_eq!(names, ["InfraDevice"]);
    // all relationships point to excluded entities
    assert!(schema.entities[0].relationships.is_empty());
}

#[test]
fn test_exclude_everything() {
    let re = NamePattern::new(".*").unwrap();
    let schema = filter_schema(test_schema(), None, Some(&re));
    assert!(schema.entities.is_empty());
}

#[test]
fn test_include_matches_nothing() {
    let re = NamePattern::new("^NonExistent$").unwrap();
    let schema = filter_schema(test_schema(), Some(&re), None);
    assert!(schema.entities.is_empty());
}

#[test]
fn test_attributes_preserved() {
    let re = NamePattern::new("InfraDevice").unwrap();
    let schema = filter_schema(test_schema(), Some(&re), None);
    let device = schema
        .entities
        .iter()
        .find(|e| e.name == "InfraDevice")
        .unwrap();
    assert_eq!(device.attributes.len(), 1);
    assert_eq!(device.attributes[0].name, "name");
}
