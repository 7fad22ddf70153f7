//! Tests of the render module.

use infrahub_erd::dedup::{EdgeSide, MergedEdge};
use infrahub_erd::parse::{Cardinality, EnumType, Schema};
use infrahub_erd::render::{attribute_type_display, crowsfoot_edge_bidirectional, crowsfoot_edge_unidirectional, escape_attr, escape_quotes};

#[test]
fn test_escape_quotes() {
    assert_eq!(escape_quotes("plain"), "plain");
    assert_eq!(escape_quotes(r#"with "quotes""#), "with 'quotes'");
    assert_eq!(escape_quotes(r#""""#), "''");
}

#[test]
fn test_escape_attr() {
    assert_eq!(escape_attr("plain"), "plain");
    assert_eq!(escape_attr(r#"with "quotes""#), "with 'quotes'");
    assert_eq!(escape_attr("Set{String}"), "Set(String)");
    assert_eq!(escape_attr("no}close"), "no)close");
    assert_eq!(escape_attr("no{open"), "no(open");
}

#[test]
fn test_attribute_type_display() {
    let schema = Schema {
        entities: vec![],
        enums: vec![
            EnumType {
                name: "Status".to_string(),
                values: vec!["ACTIVE".to_string(), "INACTIVE".to_string()],
            },
            EnumType {
                name: "Empty".to_string(),
                values: vec![],
            },
        ],
    };
    // enum type appends its values in declaration order
    assert_eq!(
        attribute_type_display(&schema, "Status"),
        "Status(ACTIVE,INACTIVE)"
    );
    // non-enum type is returned unchanged
    assert_eq!(
        attribute_type_display(&schema, "TextAttribute"),
        "TextAttribute"
    );
    // zero-value enum yields the bare type name — no stray parentheses
    assert_eq!(attribute_type_display(&schema, "Empty"), "Empty");
}

#[test]
fn test_crowsfoot_edge_bidirectional() {

    let edge = MergedEdge {
        left: "A".to_string(),
        right: "B".to_string(),
        left_to_right: EdgeSide {
            field_name: "bs".to_string(),
            cardinality: Cardinality::Many,
        },
        right_to_left: Some(EdgeSide {
            field_name: "a".to_string(),
            cardinality: Cardinality::One,
        }),
    };
    let rev = edge.right_to_left.as_ref().unwrap();

    let mut out = String::new();
    crowsfoot_edge_bidirectional(&mut out, &edge, rev);
    assert!(out.contains("\"A\" ||--o{ \"B\" : \"bs / a\""));
}

#[test]
fn test_crowsfoot_edge_unidirectional() {

    let edge = MergedEdge {
        left: "A".to_string(),
        right: "B".to_string(),
        left_to_right: EdgeSide {
            field_name: "b".to_string(),
            cardinality: Cardinality::One,
        },
        right_to_left: None,
    };

    let mut out = String::new();
    crowsfoot_edge_unidirectional(&mut out, &edge);
    assert!(out.contains("\"A\" ||--|| \"B\" : \"b\""));
}

#[test]
fn test_crowsfoot_edge_special_chars_in_labels() {

    let bidi = MergedEdge {
        left: "A".to_string(),
        right: "B".to_string(),
        left_to_right: EdgeSide {
            field_name: "ref:link".to_string(),
            cardinality: Cardinality::Many,
        },
        right_to_left: Some(EdgeSide {
            field_name: "back|ref".to_string(),
            cardinality: Cardinality::One,
        }),
    };
    let uni = MergedEdge {
        left: "C".to_string(),
        right: "D".to_string(),
        left_to_right: EdgeSide {
            field_name: "items{0}".to_string(),
            cardinality: Cardinality::One,
        },
        right_to_left: None,
    };

    let mut out = String::new();
    crowsfoot_edge_bidirectional(&mut out, &bidi, bidi.right_to_left.as_ref().unwrap());
    crowsfoot_edge_unidirectional(&mut out, &uni);
    // colons and pipes pass through inside quoted labels
    assert!(out.contains(r#""A" ||--o{ "B" : "ref:link / back|ref""#));
    // braces pass through inside quoted labels
    assert!(out.contains(r#""C" ||--|| "D" : "items{0}""#));
}
