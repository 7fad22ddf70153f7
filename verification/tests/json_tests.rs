//! Tests of the json document model.

use infrahub_erd::json::document;
use infrahub_erd::parse::{Attribute, Cardinality, Entity, Relationship, Schema};

fn test_schema() -> Schema {
    Schema {
        enums: vec![],
        entities: vec![
            Entity {
                name: "InfraDevice".to_string(),
                attributes: vec![Attribute { name: "name".to_string(), attr_type: "TextAttribute".to_string() }],
                relationships: vec![
                    Relationship {
                        field_name: "interfaces".to_string(),
                        target: "InfraInterface".to_string(),
                        cardinality: Cardinality::Many,
                    },
                    Relationship {
                        field_name: "site".to_string(),
                        target: "LocationSite".to_string(),
                        cardinality: Cardinality::One,
                    },
                ],
                implements: vec![],
            },
            Entity {
                name: "InfraInterface".to_string(),
                attributes: vec![],
                relationships: vec![Relationship {
                    field_name: "device".to_string(),
                    target: "InfraDevice".to_string(),
                    cardinality: Cardinality::One,
                }],
                implements: vec![],
            },
        ],
    }
}

#[test]
fn document_lists_entities_attributes_and_edges() {
    let doc = document(&test_schema(), true);
    assert_eq!(doc.entities.len(), 2);

    let device = &doc.entities[0];
    assert_eq!(device.name, "InfraDevice");
    assert_eq!(device.attributes.len(), 1);
    assert_eq!(device.attributes[0].name, "name");
    assert_eq!(device.attributes[0].attr_type, "TextAttribute");
    assert_eq!(device.relationships.len(), 2);
    assert_eq!(device.relationships[0].field_name, "interfaces");
    assert_eq!(device.relationships[0].target, "InfraInterface");
    assert_eq!(device.relationships[0].cardinality, Cardinality::Many);
    assert_eq!(device.relationships[1].field_name, "site");
    assert_eq!(device.relationships[1].cardinality, Cardinality::One);

    let iface = &doc.entities[1];
    assert_eq!(iface.name, "InfraInterface");
    assert!(iface.attributes.is_empty());

    // InfraDevice<->InfraInterface (merged) + InfraDevice->LocationSite
    assert_eq!(doc.edges.len(), 2);
    let bidi = doc.edges.iter().find(|e| e.right_to_left.is_some()).unwrap();
    assert_eq!(bidi.left, "InfraDevice");
    assert_eq!(bidi.right, "InfraInterface");
    assert_eq!(bidi.left_to_right.field_name, "interfaces");
    assert_eq!(bidi.left_to_right.cardinality, Cardinality::Many);
    let rev = bidi.right_to_left.as_ref().unwrap();
    assert_eq!(rev.field_name, "device");
    assert_eq!(rev.cardinality, Cardinality::One);
    let uni = doc.edges.iter().find(|e| e.right_to_left.is_none()).unwrap();
    assert_eq!(uni.left, "InfraDevice");
    assert_eq!(uni.right, "LocationSite");
    assert_eq!(uni.left_to_right.field_name, "site");
}

#[test]
fn document_without_attributes_keeps_relationships_and_edges() {
    let doc = document(&test_schema(), false);
    assert_eq!(doc.entities[0].name, "InfraDevice");
    assert!(doc.entities[0].attributes.is_empty());
    assert_eq!(doc.entities[0].relationships.len(), 2);
    assert!(!doc.edges.is_empty());
}

#[test]
fn document_of_empty_schema_is_empty() {
    let doc = document(&Schema { entities: vec![], enums: vec![] }, true);
    assert!(doc.entities.is_empty());
    assert!(doc.edges.is_empty());
}

#[test]
fn document_keeps_names_verbatim() {
    let schema = Schema {
        enums: vec![],
        entities: vec![Entity {
            name: "My \"Entity\"".to_string(),
            attributes: vec![Attribute { name: "field\nname".to_string(), attr_type: "Type<T>".to_string() }],
            relationships: vec![Relationship {
                field_name: "a\\rel".to_string(),
                target: "Other|Node".to_string(),
                cardinality: Cardinality::One,
            }],
            implements: vec![],
        }],
    };
    let doc = document(&schema, true);
    assert_eq!(doc.entities[0].name, "My \"Entity\"");
    assert_eq!(doc.entities[0].attributes[0].name, "field\nname");
    assert_eq!(doc.entities[0].attributes[0].attr_type, "Type<T>");
    assert_eq!(doc.entities[0].relationships[0].field_name, "a\\rel");
    assert_eq!(doc.edges.len(), 1);
    assert_eq!(doc.edges[0].right, "Other|Node");
}
