//! Tests of the mermaid module.

use infrahub_erd::mermaid::render;
use infrahub_erd::parse::{Attribute, Cardinality, Entity, EnumType, Relationship, Schema};
use infrahub_erd::render::escape_quotes;

/// build a standard test schema with InfraDevice and InfraInterface.
///
/// the same fixture in every renderer's tests.
#[allow(dead_code)]
fn test_schema() -> Schema {
    Schema {
        enums: vec![],
        entities: vec![
            Entity {
                name: "InfraDevice".to_string(),
                attributes: vec![Attribute {
                    name: "name".to_string(),
                    attr_type: "TextAttribute".to_string(),
                }],
                relationships: vec![
                    Relationship {
                        field_name: "interfaces".to_string(),
                        target: "InfraInterface".to_string(),
                        cardinality: Cardinality::Many,
                    },
                    Relationship {
                        field_name: "site".to_string(),
                        target: "LocationSite".to_string(),
                        cardinality: Cardinality::One,
                    },
                ],
                implements: vec![],
            },
            Entity {
                name: "InfraInterface".to_string(),
                attributes: vec![],
                relationships: vec![Relationship {
                    field_name: "device".to_string(),
                    target: "InfraDevice".to_string(),
                    cardinality: Cardinality::One,
                }],
                implements: vec![],
            },
        ],
    }
}

/// build a test schema with one enum-typed attribute (`status: Status`) and
/// one ordinary attribute (`hostname: TextAttribute`).
///
/// the same fixture in every renderer's tests to assert enum-value rendering and
/// that non-enum attributes stay unchanged.
#[allow(dead_code)]
fn enum_schema() -> Schema {
    Schema {
        entities: vec![Entity {
            name: "Server".to_string(),
            attributes: vec![
                Attribute {
                    name: "status".to_string(),
                    attr_type: "Status".to_string(),
                },
                Attribute {
                    name: "hostname".to_string(),
                    attr_type: "TextAttribute".to_string(),
                },
            ],
            relationships: vec![],
            implements: vec![],
        }],
        enums: vec![EnumType {
            name: "Status".to_string(),
            values: vec!["ACTIVE".to_string(), "INACTIVE".to_string()],
        }],
    }
}

/// build a test schema chaining `InfraDevice.primary_group -> CoreGroup`
/// and `CoreGroup.members -> CoreNode`, with `CoreRepository` implementing
/// the generic `CoreGenericRepository` that `InfraDevice.repository` points
/// at.
///
/// the same fixture in every renderer's tests, to assert interface-derived
/// entities and inheritance edges render like any other.
#[allow(dead_code)]
fn generic_schema() -> Schema {
    Schema {
        enums: vec![],
        entities: vec![
            Entity {
                name: "CoreGroup".to_string(),
                attributes: vec![Attribute {
                    name: "group_type".to_string(),
                    attr_type: "TextAttribute".to_string(),
                }],
                relationships: vec![Relationship {
                    field_name: "members".to_string(),
                    target: "CoreNode".to_string(),
                    cardinality: Cardinality::Many,
                }],
                implements: vec![],
            },
            Entity {
                name: "CoreNode".to_string(),
                attributes: vec![],
                relationships: vec![],
                implements: vec![],
            },
            Entity {
                name: "InfraDevice".to_string(),
                attributes: vec![],
                relationships: vec![Relationship {
                    field_name: "primary_group".to_string(),
                    target: "CoreGroup".to_string(),
                    cardinality: Cardinality::One,
                },
                Relationship {
                    field_name: "repository".to_string(),
                    target: "CoreGenericRepository".to_string(),
                    cardinality: Cardinality::One,
                }],
                implements: vec![],
            },
            Entity {
                name: "CoreRepository".to_string(),
                attributes: vec![],
                relationships: vec![],
                implements: vec!["CoreGenericRepository".to_string()],
            },
            Entity {
                name: "CoreGenericRepository".to_string(),
                attributes: vec![],
                relationships: vec![],
                implements: vec![],
            },
        ],
    }
}

/// build a test schema with a single entity that references itself
/// (`Tree.parent -> Tree`).
///
/// the same fixture in every renderer's tests to assert self-loop edges render.
#[allow(dead_code)]
fn self_ref_schema() -> Schema {
    Schema {
        enums: vec![],
        entities: vec![Entity {
            name: "Tree".to_string(),
            attributes: vec![],
            relationships: vec![Relationship {
                field_name: "parent".to_string(),
                target: "Tree".to_string(),
                cardinality: Cardinality::One,
            }],
            implements: vec![],
        }],
    }
}


#[test]
fn mermaid_test_render_with_attributes() {
    let mermaid = render(&test_schema(), true).unwrap();
    assert!(mermaid.starts_with("erDiagram\n"));
    assert!(mermaid.contains("\"InfraDevice\" {"));
    assert!(mermaid.contains("        TextAttribute name"));
    assert!(mermaid.contains("\"InfraInterface\" {}"));
    // bidirectional edge merged with combined label
    assert!(
        mermaid.contains("\"InfraDevice\" ||--o{ \"InfraInterface\" : \"interfaces / device\"")
    );
    // unidirectional edge unchanged
    assert!(mermaid.contains("\"InfraDevice\" ||--|| \"LocationSite\" : \"site\""));
    // reverse edge no longer rendered separately
    assert!(!mermaid.contains("\"InfraInterface\" ||--|| \"InfraDevice\""));
}

#[test]
fn mermaid_test_render_without_attributes() {
    let mermaid = render(&test_schema(), false).unwrap();
    assert!(mermaid.contains("\"InfraDevice\" {}"));
    assert!(mermaid.contains("\"InfraInterface\" {}"));
    assert!(!mermaid.contains("TextAttribute"));
    assert!(
        mermaid.contains("\"InfraDevice\" ||--o{ \"InfraInterface\" : \"interfaces / device\"")
    );
}

#[test]
fn mermaid_test_render_empty_schema() {
    let schema = Schema {
        entities: vec![],
        enums: vec![],
    };
    let mermaid = render(&schema, true).unwrap();
    assert_eq!(mermaid, "erDiagram\n");
}

#[test]
fn mermaid_test_render_enum_attribute() {
    let mermaid = render(&enum_schema(), true).unwrap();
    // enum-typed attribute lists its allowed values in order, separated by
    // `-`, which every mermaid version lexes
    assert!(mermaid.contains("        Status(ACTIVE-INACTIVE) status"));
    assert!(!mermaid.contains("ACTIVE,INACTIVE"));
    // non-enum attribute is unchanged: bare type, no value list
    assert!(mermaid.contains("TextAttribute hostname"));
    assert!(!mermaid.contains("TextAttribute("));
}

#[test]
fn test_escape_mermaid() {
    assert_eq!(escape_quotes("plain"), "plain");
    assert_eq!(escape_quotes(r#"with "quotes""#), "with 'quotes'");
    assert_eq!(escape_quotes(r#""""#), "''");
}

#[test]
fn test_render_isolated_entity() {
    let schema = Schema {
        enums: vec![],
        entities: vec![Entity {
            name: "Standalone".to_string(),
            attributes: vec![],
            relationships: vec![],
            implements: vec![],
        }],
    };
    let mermaid = render(&schema, true).unwrap();
    assert!(mermaid.contains("\"Standalone\" {}"));
}

#[test]
fn mermaid_test_render_special_chars_in_names() {
    let schema = Schema {
        enums: vec![],
        entities: vec![Entity {
            name: "My Entity".to_string(),
            attributes: vec![Attribute {
                name: "full name".to_string(),
                attr_type: "Text".to_string(),
            }],
            relationships: vec![Relationship {
                field_name: "a \"rel\"".to_string(),
                target: "Other Entity".to_string(),
                cardinality: Cardinality::One,
            }],
            implements: vec![],
        }],
    };
    let mermaid = render(&schema, true).unwrap();
    assert!(mermaid.contains("\"My Entity\" {"));
    // attribute name with space is sanitized to underscore
    assert!(mermaid.contains("        Text full_name"));
    assert!(mermaid.contains("\"My Entity\" ||--|| \"Other Entity\" : \"a 'rel'\""));
}

#[test]
fn mermaid_test_render_special_chars_in_edge_labels_and_type() {
    let schema = Schema {
        enums: vec![],
        entities: vec![
            Entity {
                name: "A".to_string(),
                attributes: vec![Attribute {
                    name: "path".to_string(),
                    attr_type: "Set{String}".to_string(),
                }],
                relationships: vec![Relationship {
                    field_name: "ref:link".to_string(),
                    target: "B".to_string(),
                    cardinality: Cardinality::Many,
                }],
                implements: vec![],
            },
            Entity {
                name: "B".to_string(),
                attributes: vec![Attribute {
                    name: "tag val".to_string(),
                    attr_type: "Text|Blob".to_string(),
                }],
                relationships: vec![Relationship {
                    field_name: "back|ref".to_string(),
                    target: "A".to_string(),
                    cardinality: Cardinality::One,
                }],
                implements: vec![],
            },
        ],
    };
    let mermaid = render(&schema, true).unwrap();
    // braces in attr_type are replaced to avoid breaking block syntax
    assert!(mermaid.contains("        Set(String) path"));
    // spaces in attr_name are replaced with underscores; pipe in type is preserved
    assert!(mermaid.contains("        Text|Blob tag_val"));
    // colons and pipes pass through in quoted edge labels
    assert!(mermaid.contains(r#""A" ||--o{ "B" : "ref:link / back|ref""#));
}

#[test]
fn mermaid_test_render_self_referential_edge() {
    let mermaid = render(&self_ref_schema(), false).unwrap();
    // self-loop edge: left == right
    assert!(mermaid.contains(r#""Tree" ||--|| "Tree" : "parent""#));
}

#[test]
fn mermaid_test_render_generic_entities() {
    let mermaid = render(&generic_schema(), true).unwrap();
    // an interface-derived entity is a node like any other
    assert!(mermaid.contains("\"CoreGroup\" {"));
    assert!(mermaid.contains("TextAttribute group_type"));
    assert!(mermaid.contains("\"CoreNode\" {}"));
    // concrete -> generic and generic -> generic both render
    assert!(mermaid.contains(r#""InfraDevice" ||--|| "CoreGroup" : "primary_group""#));
    assert!(mermaid.contains(r#""CoreGroup" ||--o{ "CoreNode" : "members""#));
}
