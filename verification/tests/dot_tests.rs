//! Tests of the dot module.

use infrahub_erd::dot::{escape_dot_label, render};
use infrahub_erd::parse::{Attribute, Cardinality, Entity, EnumType, Relationship, Schema};

/// build a standard test schema with InfraDevice and InfraInterface.
///
/// the same fixture in every renderer's tests.
#[allow(dead_code)]
fn test_schema() -> Schema {
    Schema {
        enums: vec![],
        entities: vec![
            Entity {
                name: "InfraDevice".to_string(),
                attributes: vec![Attribute {
                    name: "name".to_string(),
                    attr_type: "TextAttribute".to_string(),
                }],
                relationships: vec![
                    Relationship {
                        field_name: "interfaces".to_string(),
                        target: "InfraInterface".to_string(),
                        cardinality: Cardinality::Many,
                    },
                    Relationship {
                        field_name: "site".to_string(),
                        target: "LocationSite".to_string(),
                        cardinality: Cardinality::One,
                    },
                ],
                implements: vec![],
            },
            Entity {
                name: "InfraInterface".to_string(),
                attributes: vec![],
                relationships: vec![Relationship {
                    field_name: "device".to_string(),
                    target: "InfraDevice".to_string(),
                    cardinality: Cardinality::One,
                }],
                implements: vec![],
            },
        ],
    }
}

/// build a test schema with one enum-typed attribute (`status: Status`) and
/// one ordinary attribute (`hostname: TextAttribute`).
///
/// the same fixture in every renderer's tests to assert enum-value rendering and
/// that non-enum attributes stay unchanged.
#[allow(dead_code)]
fn enum_schema() -> Schema {
    Schema {
        entities: vec![Entity {
            name: "Server".to_string(),
            attributes: vec![
                Attribute {
                    name: "status".to_string(),
                    attr_type: "Status".to_string(),
                },
                Attribute {
                    name: "hostname".to_string(),
                    attr_type: "TextAttribute".to_string(),
                },
            ],
            relationships: vec![],
            implements: vec![],
        }],
        enums: vec![EnumType {
            name: "Status".to_string(),
            values: vec!["ACTIVE".to_string(), "INACTIVE".to_string()],
        }],
    }
}

/// build a test schema chaining `InfraDevice.primary_group -> CoreGroup`
/// and `CoreGroup.members -> CoreNode`, with `CoreRepository` implementing
/// the generic `CoreGenericRepository` that `InfraDevice.repository` points
/// at.
///
/// the same fixture in every renderer's tests, to assert interface-derived
/// entities and inheritance edges render like any other.
#[allow(dead_code)]
fn generic_schema() -> Schema {
    Schema {
        enums: vec![],
        entities: vec![
            Entity {
                name: "CoreGroup".to_string(),
                attributes: vec![Attribute {
                    name: "group_type".to_string(),
                    attr_type: "TextAttribute".to_string(),
                }],
                relationships: vec![Relationship {
                    field_name: "members".to_string(),
                    target: "CoreNode".to_string(),
                    cardinality: Cardinality::Many,
                }],
                implements: vec![],
            },
            Entity {
                name: "CoreNode".to_string(),
                attributes: vec![],
                relationships: vec![],
                implements: vec![],
            },
            Entity {
                name: "InfraDevice".to_string(),
                attributes: vec![],
                relationships: vec![Relationship {
                    field_name: "primary_group".to_string(),
                    target: "CoreGroup".to_string(),
                    cardinality: Cardinality::One,
                },
                Relationship {
                    field_name: "repository".to_string(),
                    target: "CoreGenericRepository".to_string(),
                    cardinality: Cardinality::One,
                }],
                implements: vec![],
            },
            Entity {
                name: "CoreRepository".to_string(),
                attributes: vec![],
                relationships: vec![],
                implements: vec!["CoreGenericRepository".to_string()],
            },
            Entity {
                name: "CoreGenericRepository".to_string(),
                attributes: vec![],
                relationships: vec![],
                implements: vec![],
            },
        ],
    }
}

/// build a test schema with a single entity that references itself
/// (`Tree.parent -> Tree`).
///
/// the same fixture in every renderer's tests to assert self-loop edges render.
#[allow(dead_code)]
fn self_ref_schema() -> Schema {
    Schema {
        enums: vec![],
        entities: vec![Entity {
            name: "Tree".to_string(),
            attributes: vec![],
            relationships: vec![Relationship {
                field_name: "parent".to_string(),
                target: "Tree".to_string(),
                cardinality: Cardinality::One,
            }],
            implements: vec![],
        }],
    }
}


#[test]
fn dot_test_render_with_attributes() {
    let dot = render(&test_schema(), true).unwrap();
    assert!(dot.contains("digraph schema {"));
    assert!(dot.contains("rankdir=LR"));
    assert!(dot.contains("\"InfraDevice\" [label=\"{InfraDevice|name: TextAttribute\\l}\"]"));
    assert!(dot.contains("\"InfraInterface\" [label=\"InfraInterface\"]"));
    // bidirectional edge merged: headlabel/taillabel instead of separate edges
    assert!(dot.contains(
        "\"InfraDevice\" -> \"InfraInterface\" [taillabel=\"interfaces\", headlabel=\"device\", arrowhead=crow, arrowtail=normal, dir=both]"
    ));
    // unidirectional edge to non-entity target unchanged
    assert!(dot.contains("\"InfraDevice\" -> \"LocationSite\" [label=\"site\"]"));
    // reverse edge no longer rendered separately
    assert!(!dot.contains("\"InfraInterface\" -> \"InfraDevice\""));
}

#[test]
fn dot_test_render_without_attributes() {
    let dot = render(&test_schema(), false).unwrap();
    assert!(dot.contains("\"InfraDevice\" [label=\"InfraDevice\"]"));
    assert!(!dot.contains("TextAttribute"));
}

#[test]
fn dot_test_render_enum_attribute() {
    let dot = render(&enum_schema(), true).unwrap();
    // enum-typed attribute lists its allowed values in order
    assert!(dot.contains("status: Status(ACTIVE,INACTIVE)"));
    // non-enum attribute is unchanged: bare type, no value list
    assert!(dot.contains("hostname: TextAttribute"));
    assert!(!dot.contains("TextAttribute("));
}

#[test]
fn dot_test_render_empty_schema() {
    let schema = Schema {
        entities: vec![],
        enums: vec![],
    };
    let dot = render(&schema, true).unwrap();
    assert!(dot.contains("digraph schema {"));
    assert!(dot.contains("}"));
}

#[test]
fn test_escape_dot_label() {
    assert_eq!(escape_dot_label("plain"), "plain");
    assert_eq!(escape_dot_label(r#"a"b"#), r#"a\"b"#);
    assert_eq!(escape_dot_label("a{b}c"), r"a\{b\}c");
    assert_eq!(escape_dot_label("a|b"), r"a\|b");
    assert_eq!(escape_dot_label("a<b>c"), r"a\<b\>c");
    assert_eq!(escape_dot_label(r"a\b"), r"a\\b");
}

#[test]
fn dot_test_render_special_chars_in_names() {
    let schema = Schema {
        enums: vec![],
        entities: vec![Entity {
            name: "My|Entity".to_string(),
            attributes: vec![Attribute {
                name: "field{x}".to_string(),
                attr_type: "Type<T>".to_string(),
            }],
            relationships: vec![Relationship {
                field_name: "ref\"edge".to_string(),
                target: "Other|Node".to_string(),
                cardinality: Cardinality::One,
            }],
            implements: vec![],
        }],
    };

    let dot = render(&schema, true).unwrap();
    // entity name escaped in node id and label
    assert!(dot.contains(r#""My\|Entity" [label="{My\|Entity|field\{x\}: Type\<T\>\l}"]"#));
    // edge label and target escaped
    assert!(dot.contains(r#""My\|Entity" -> "Other\|Node" [label="ref\"edge"]"#));
}

#[test]
fn dot_test_render_self_referential_edge() {
    let dot = render(&self_ref_schema(), false).unwrap();
    // self-loop edge: left == right
    assert!(dot.contains(r#""Tree" -> "Tree" [label="parent"]"#));
}

#[test]
fn dot_test_render_generic_entities() {
    let dot = render(&generic_schema(), true).unwrap();
    // an interface-derived entity is a node like any other
    assert!(dot.contains(r#""CoreGroup" [label="{CoreGroup|group_type: TextAttribute\l}"]"#));
    assert!(dot.contains(r#""CoreNode" [label="CoreNode"]"#));
    // concrete -> generic and generic -> generic both render
    assert!(dot.contains(r#""InfraDevice" -> "CoreGroup" [label="primary_group"]"#));
    assert!(dot.contains(r#""CoreGroup" -> "CoreNode" [label="members", arrowhead=crow]"#));
}
