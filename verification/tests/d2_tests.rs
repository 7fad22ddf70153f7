//! Tests of the d2 module.

use infrahub_erd::d2::{format_key, format_value, render, reserved_keywords};
use infrahub_erd::parse::{Attribute, Cardinality, Entity, EnumType, Relationship, Schema};

/// build a standard test schema with InfraDevice and InfraInterface.
///
/// the same fixture in every renderer's tests.
#[allow(dead_code)]
fn test_schema() -> Schema {
    Schema {
        enums: vec![],
        entities: vec![
            Entity {
                name: "InfraDevice".to_string(),
                attributes: vec![Attribute {
                    name: "name".to_string(),
                    attr_type: "TextAttribute".to_string(),
                }],
                relationships: vec![
                    Relationship {
                        field_name: "interfaces".to_string(),
                        target: "InfraInterface".to_string(),
                        cardinality: Cardinality::Many,
                    },
                    Relationship {
                        field_name: "site".to_string(),
                        target: "LocationSite".to_string(),
                        cardinality: Cardinality::One,
                    },
                ],
                implements: vec![],
            },
            Entity {
                name: "InfraInterface".to_string(),
                attributes: vec![],
                relationships: vec![Relationship {
                    field_name: "device".to_string(),
                    target: "InfraDevice".to_string(),
                    cardinality: Cardinality::One,
                }],
                implements: vec![],
            },
        ],
    }
}

/// build a test schema with one enum-typed attribute (`status: Status`) and
/// one ordinary attribute (`hostname: TextAttribute`).
///
/// the same fixture in every renderer's tests to assert enum-value rendering and
/// that non-enum attributes stay unchanged.
#[allow(dead_code)]
fn enum_schema() -> Schema {
    Schema {
        entities: vec![Entity {
            name: "Server".to_string(),
            attributes: vec![
                Attribute {
                    name: "status".to_string(),
                    attr_type: "Status".to_string(),
                },
                Attribute {
                    name: "hostname".to_string(),
                    attr_type: "TextAttribute".to_string(),
                },
            ],
            relationships: vec![],
            implements: vec![],
        }],
        enums: vec![EnumType {
            name: "Status".to_string(),
            values: vec!["ACTIVE".to_string(), "INACTIVE".to_string()],
        }],
    }
}

/// build a test schema chaining `InfraDevice.primary_group -> CoreGroup`
/// and `CoreGroup.members -> CoreNode`, with `CoreRepository` implementing
/// the generic `CoreGenericRepository` that `InfraDevice.repository` points
/// at.
///
/// the same fixture in every renderer's tests, to assert interface-derived
/// entities and inheritance edges render like any other.
#[allow(dead_code)]
fn generic_schema() -> Schema {
    Schema {
        enums: vec![],
        entities: vec![
            Entity {
                name: "CoreGroup".to_string(),
                attributes: vec![Attribute {
                    name: "group_type".to_string(),
                    attr_type: "TextAttribute".to_string(),
                }],
                relationships: vec![Relationship {
                    field_name: "members".to_string(),
                    target: "CoreNode".to_string(),
                    cardinality: Cardinality::Many,
                }],
                implements: vec![],
            },
            Entity {
                name: "CoreNode".to_string(),
                attributes: vec![],
                relationships: vec![],
                implements: vec![],
            },
            Entity {
                name: "InfraDevice".to_string(),
                attributes: vec![],
                relationships: vec![Relationship {
                    field_name: "primary_group".to_string(),
                    target: "CoreGroup".to_string(),
                    cardinality: Cardinality::One,
                },
                Relationship {
                    field_name: "repository".to_string(),
                    target: "CoreGenericRepository".to_string(),
                    cardinality: Cardinality::One,
                }],
                implements: vec![],
            },
            Entity {
                name: "CoreRepository".to_string(),
                attributes: vec![],
                relationships: vec![],
                implements: vec!["CoreGenericRepository".to_string()],
            },
            Entity {
                name: "CoreGenericRepository".to_string(),
                attributes: vec![],
                relationships: vec![],
                implements: vec![],
            },
        ],
    }
}

/// build a test schema with a single entity that references itself
/// (`Tree.parent -> Tree`).
///
/// the same fixture in every renderer's tests to assert self-loop edges render.
#[allow(dead_code)]
fn self_ref_schema() -> Schema {
    Schema {
        enums: vec![],
        entities: vec![Entity {
            name: "Tree".to_string(),
            attributes: vec![],
            relationships: vec![Relationship {
                field_name: "parent".to_string(),
                target: "Tree".to_string(),
                cardinality: Cardinality::One,
            }],
            implements: vec![],
        }],
    }
}


#[test]
fn d2_test_render_with_attributes() {
    let d2 = render(&test_schema(), true).unwrap();
    assert!(d2.contains("InfraDevice: {"));
    assert!(d2.contains("  shape: sql_table"));
    assert!(d2.contains("  name: TextAttribute"));
    // InfraInterface has no attributes, just the shape
    assert!(d2.contains("InfraInterface: {\n  shape: sql_table\n}"));
    // bidirectional edge with crow's-foot arrowheads
    assert!(d2.contains("InfraDevice -- InfraInterface: interfaces / device {"));
    assert!(d2.contains("  source-arrowhead.shape: cf-one"));
    assert!(d2.contains("  target-arrowhead.shape: cf-many"));
    // unidirectional edge
    assert!(d2.contains("InfraDevice -- LocationSite: site {"));
    // reverse edge not rendered separately
    assert!(!d2.contains("InfraInterface -- InfraDevice"));
}

#[test]
fn d2_test_render_without_attributes() {
    let d2 = render(&test_schema(), false).unwrap();
    assert!(d2.contains("InfraDevice: {\n  shape: sql_table\n}"));
    assert!(!d2.contains("TextAttribute"));
    // edges still present
    assert!(d2.contains("InfraDevice -- InfraInterface: interfaces / device {"));
}

#[test]
fn d2_test_render_enum_attribute() {
    let d2 = render(&enum_schema(), true).unwrap();
    // enum-typed attribute lists its allowed values in order (format_value
    // quotes the value because it contains parentheses)
    assert!(d2.contains("status: \"Status(ACTIVE,INACTIVE)\""));
    // non-enum attribute is unchanged: bare unquoted type, no value list
    assert!(d2.contains("hostname: TextAttribute"));
    assert!(!d2.contains("TextAttribute("));
}

#[test]
fn d2_test_render_empty_schema() {
    let schema = Schema {
        entities: vec![],
        enums: vec![],
    };
    let d2 = render(&schema, true).unwrap();
    assert_eq!(d2, "");
}

#[test]
fn test_format_key() {
    assert_eq!(format_key("plain"), "plain");
    assert_eq!(format_key("CamelCase"), "CamelCase");
    assert_eq!(format_key("with-hyphen"), "with-hyphen");
    assert_eq!(format_key("under_score"), "under_score");
    assert_eq!(format_key("with space"), "\"with space\"");
    assert_eq!(format_key("with|pipe"), "\"with|pipe\"");
    assert_eq!(format_key(r#"with"quote"#), r#""with\"quote""#);
    assert_eq!(format_key(r"back\slash"), r#""back\\slash""#);
    assert_eq!(format_key(""), "\"\"");
}

#[test]
fn test_format_key_quotes_reserved_keywords() {
    for keyword in reserved_keywords() {
        assert_eq!(
            format_key(keyword),
            format!("\"{keyword}\""),
            "{keyword} must be quoted"
        );
    }
    // d2 matches keywords case-insensitively, so casing does not escape them
    assert_eq!(format_key("Label"), "\"Label\"");
    assert_eq!(format_key("HEIGHT"), "\"HEIGHT\"");
    // names that merely contain or extend a keyword stay bare
    assert_eq!(format_key("labels"), "labels");
    assert_eq!(format_key("shape_id"), "shape_id");
    assert_eq!(format_key("my-label"), "my-label");
}

#[test]
fn test_format_value() {
    assert_eq!(format_value("TextAttribute"), "TextAttribute");
    assert_eq!(format_value("Text/String"), "\"Text/String\"");
    assert_eq!(format_value(r#"with"quote"#), r#""with\"quote""#);
    assert_eq!(format_value(""), "\"\"");
    // reserved keywords carry no meaning in value position
    assert_eq!(format_value("label"), "label");
    assert_eq!(format_value("shape"), "shape");
}

#[test]
fn test_render_reserved_keyword_attributes() {
    let schema = Schema {
        enums: vec![],
        entities: vec![Entity {
            name: "CoreArtifact".to_string(),
            attributes: vec![
                Attribute {
                    name: "label".to_string(),
                    attr_type: "TextAttribute".to_string(),
                },
                Attribute {
                    name: "icon".to_string(),
                    attr_type: "TextAttribute".to_string(),
                },
                Attribute {
                    name: "height".to_string(),
                    attr_type: "NumberAttribute".to_string(),
                },
                Attribute {
                    name: "constraint".to_string(),
                    attr_type: "TextAttribute".to_string(),
                },
                Attribute {
                    name: "fill".to_string(),
                    attr_type: "TextAttribute".to_string(),
                },
                Attribute {
                    name: "name".to_string(),
                    attr_type: "TextAttribute".to_string(),
                },
            ],
            relationships: vec![],
            implements: vec![],
        }],
    };
    let d2 = render(&schema, true).unwrap();
    assert!(d2.contains("  \"label\": TextAttribute"));
    assert!(d2.contains("  \"icon\": TextAttribute"));
    assert!(d2.contains("  \"height\": NumberAttribute"));
    assert!(d2.contains("  \"constraint\": TextAttribute"));
    assert!(d2.contains("  \"fill\": TextAttribute"));
    assert!(d2.contains("  name: TextAttribute"));
    // the renderer's own shape directive is the only bare `shape:` line
    assert_eq!(d2.matches("\n  shape: sql_table\n").count(), 1);
}

#[test]
fn test_render_reserved_keyword_entity_and_edge_names() {
    let schema = Schema {
        enums: vec![],
        entities: vec![Entity {
            name: "style".to_string(),
            attributes: vec![],
            relationships: vec![Relationship {
                field_name: "link".to_string(),
                target: "layers".to_string(),
                cardinality: Cardinality::Many,
            }],
            implements: vec![],
        }],
    };
    let d2 = render(&schema, false).unwrap();
    assert!(d2.contains("\"style\": {"));
    // edge endpoints are keys and get quoted; the label is a value and does not
    assert!(d2.contains("\"style\" -- \"layers\": link {"));
}

#[test]
fn test_renderer_keyword_lines_stay_unquoted() {
    let d2 = render(&test_schema(), true).unwrap();
    assert!(d2.contains("  shape: sql_table"));
    assert!(d2.contains("  source-arrowhead.shape: cf-one"));
    assert!(d2.contains("  target-arrowhead.shape: cf-many"));
    assert!(!d2.contains("\"shape\": sql_table"));
    assert!(!d2.contains("\"source-arrowhead\""));
    assert!(!d2.contains("\"target-arrowhead\""));
}

#[test]
fn d2_test_render_special_chars_in_names() {
    let schema = Schema {
        enums: vec![],
        entities: vec![Entity {
            name: "My Entity".to_string(),
            attributes: vec![Attribute {
                name: "full name".to_string(),
                attr_type: "Text".to_string(),
            }],
            relationships: vec![Relationship {
                field_name: "rel".to_string(),
                target: "Other Entity".to_string(),
                cardinality: Cardinality::One,
            }],
            implements: vec![],
        }],
    };
    let d2 = render(&schema, true).unwrap();
    assert!(d2.contains("\"My Entity\": {"));
    assert!(d2.contains("  \"full name\": Text"));
    assert!(d2.contains("\"My Entity\" -- \"Other Entity\": rel {"));
}

#[test]
fn d2_test_render_special_chars_in_edge_labels_and_type() {
    let schema = Schema {
        enums: vec![],
        entities: vec![
            Entity {
                name: "A".to_string(),
                attributes: vec![Attribute {
                    name: "path".to_string(),
                    attr_type: "Text/String".to_string(),
                }],
                relationships: vec![Relationship {
                    field_name: "my ref".to_string(),
                    target: "B".to_string(),
                    cardinality: Cardinality::Many,
                }],
                implements: vec![],
            },
            Entity {
                name: "B".to_string(),
                attributes: vec![],
                relationships: vec![Relationship {
                    field_name: "back\"ref".to_string(),
                    target: "A".to_string(),
                    cardinality: Cardinality::One,
                }],
                implements: vec![],
            },
        ],
    };
    let d2 = render(&schema, true).unwrap();
    // attr_type with slash is quoted
    assert!(d2.contains(r#"  path: "Text/String""#));
    // bidirectional edge with special chars in both labels
    assert!(d2.contains(r#"A -- B: "my ref" / "back\"ref" {"#));
}

#[test]
fn d2_test_render_self_referential_edge() {
    let d2 = render(&self_ref_schema(), false).unwrap();
    // self-loop edge: left == right
    assert!(d2.contains("Tree -- Tree: parent {"));
}

#[test]
fn d2_test_render_generic_entities() {
    let d2 = render(&generic_schema(), true).unwrap();
    // an interface-derived entity is a node like any other
    assert!(d2.contains("CoreGroup: {\n  shape: sql_table\n  group_type: TextAttribute\n}"));
    assert!(d2.contains("CoreNode: {\n  shape: sql_table\n}"));
    // concrete -> generic and generic -> generic both render
    assert!(d2.contains("InfraDevice -- CoreGroup: primary_group {"));
    assert!(d2.contains("CoreGroup -- CoreNode: members {"));
}

#[test]
fn test_render_inheritance_edge() {
    let d2 = render(&generic_schema(), true).unwrap();
    assert!(d2.contains(
        "CoreRepository -> CoreGenericRepository: is a {\n  target-arrowhead.shape: triangle\n  target-arrowhead.style.filled: false\n  style.stroke-dash: 3\n}"
    ));
    // the relationship aimed at the same generic stays an undirected `--` edge
    assert!(d2.contains("InfraDevice -- CoreGenericRepository: repository {"));
}
