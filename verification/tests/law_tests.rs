//! Concrete checks of the properties the library proves of all inputs.

use infrahub_erd::d2::{format_key, quote};
use infrahub_erd::dedup::deduplicate;
use infrahub_erd::dot::escape_dot_label;
use infrahub_erd::error::Error;
use infrahub_erd::filter::{filter_schema, NamePattern};
use infrahub_erd::parse::{parse_graphql_schema, Attribute, Cardinality, Entity, Relationship, Schema};
use infrahub_erd::render::{escape_attr, escape_quotes};
use infrahub_erd::{d2, dot, mermaid, plantuml};

fn rel(field: &str, target: &str, c: Cardinality) -> Relationship {
    Relationship { field_name: field.to_string(), target: target.to_string(), cardinality: c }
}

fn entity(name: &str, attrs: &[(&str, &str)], rels: Vec<Relationship>, implements: &[&str]) -> Entity {
    Entity {
        name: name.to_string(),
        attributes: attrs
            .iter()
            .map(|(n, t)| Attribute { name: n.to_string(), attr_type: t.to_string() })
            .collect(),
        relationships: rels,
        implements: implements.iter().map(|s| s.to_string()).collect(),
    }
}

/// A schema with a merged pair, a surplus forward relationship, edges with
/// no partner and a self loop.
fn mixed_schema() -> Schema {
    Schema {
        enums: vec![],
        entities: vec![
            entity(
                "B",
                &[("name", "TextAttribute")],
                vec![rel("a", "A", Cardinality::One), rel("c", "C", Cardinality::Many)],
                &[],
            ),
            entity(
                "A",
                &[],
                vec![
                    rel("bs", "B", Cardinality::Many),
                    rel("more_bs", "B", Cardinality::Many),
                    rel("self_ref", "A", Cardinality::One),
                ],
                &["G"],
            ),
            entity("C", &[], vec![], &["G"]),
            entity("G", &[("kind", "Dropdown")], vec![rel("owner", "A", Cardinality::One)], &[]),
        ],
    }
}

fn directed_sides(schema: &Schema) -> Vec<(String, String, String)> {
    let mut sides = Vec::new();
    for e in deduplicate(schema) {
        sides.push((e.left.clone(), e.right.clone(), e.left_to_right.field_name.clone()));
        if let Some(rev) = &e.right_to_left {
            sides.push((e.right.clone(), e.left.clone(), rev.field_name.clone()));
        }
    }
    sides.sort();
    sides
}

#[test]
fn deduplicate_draws_every_relationship_once() {
    let schema = mixed_schema();
    let mut expected: Vec<(String, String, String)> = Vec::new();
    for e in &schema.entities {
        for r in &e.relationships {
            expected.push((e.name.clone(), r.target.clone(), r.field_name.clone()));
        }
    }
    expected.sort();
    assert_eq!(directed_sides(&schema), expected);
}

#[test]
fn deduplicate_merges_in_name_order_and_never_self_loops() {
    let edges = deduplicate(&mixed_schema());
    for e in &edges {
        if e.right_to_left.is_some() {
            assert!(e.left < e.right);
        }
        if e.left == e.right {
            assert!(e.right_to_left.is_none());
        }
    }
    // A<->B merges once (bs / a); more_bs stays forward, B->C and G->A have
    // no partner.
    assert_eq!(edges.iter().filter(|e| e.right_to_left.is_some()).count(), 1);
    assert_eq!(edges.len(), 5);
}

#[test]
fn deduplicate_output_is_sorted() {
    let edges = deduplicate(&mixed_schema());
    let keys: Vec<(String, String, String)> = edges
        .iter()
        .map(|e| (e.left.clone(), e.right.clone(), e.left_to_right.field_name.clone()))
        .collect();
    let mut sorted = keys.clone();
    sorted.sort();
    assert_eq!(keys, sorted);
    assert_eq!(keys[0], ("A".to_string(), "A".to_string(), "self_ref".to_string()));
}

#[test]
fn deduplicate_pairs_opposite_relationships() {
    let edges = deduplicate(&mixed_schema());
    for x in edges.iter().filter(|e| e.right_to_left.is_none() && e.left != e.right) {
        for y in edges.iter().filter(|e| e.right_to_left.is_none()) {
            assert!(!(x.left == y.right && x.right == y.left));
        }
    }
}

fn names(schema: &Schema) -> Vec<String> {
    schema.entities.iter().map(|e| e.name.clone()).collect()
}

#[test]
fn filter_leaves_no_dangling_edges() {
    let inclusion = NamePattern::new("^[ABG]$").unwrap();
    let exclusion = NamePattern::new("^B$").unwrap();
    let schema = filter_schema(mixed_schema(), Some(&inclusion), Some(&exclusion));
    assert_eq!(names(&schema), ["A", "G"]);
    for e in &schema.entities {
        for r in &e.relationships {
            assert!(names(&schema).contains(&r.target));
        }
        for p in &e.implements {
            assert!(names(&schema).contains(p));
        }
    }
    let a = &schema.entities[0];
    assert_eq!(a.relationships.len(), 1);
    assert_eq!(a.relationships[0].field_name, "self_ref");
    assert_eq!(a.implements, ["G"]);
}

#[test]
fn filter_prunes_inheritance_edge_with_its_generic() {
    let exclusion = NamePattern::new("^G$").unwrap();
    let schema = filter_schema(mixed_schema(), None, Some(&exclusion));
    assert_eq!(names(&schema), ["B", "A", "C"]);
    assert!(schema.entities.iter().all(|e| e.implements.is_empty()));
}

#[test]
fn filters_compose_inclusion_first() {
    let inclusion = NamePattern::new("^[ABC]$").unwrap();
    let exclusion = NamePattern::new("C").unwrap();
    let both = filter_schema(mixed_schema(), Some(&inclusion), Some(&exclusion));
    let first = filter_schema(mixed_schema(), Some(&inclusion), None);
    let then = filter_schema(first, None, Some(&exclusion));
    assert_eq!(names(&both), names(&then));
    for (x, y) in both.entities.iter().zip(then.entities.iter()) {
        let xr: Vec<&str> = x.relationships.iter().map(|r| r.field_name.as_str()).collect();
        let yr: Vec<&str> = y.relationships.iter().map(|r| r.field_name.as_str()).collect();
        assert_eq!(xr, yr);
        assert_eq!(x.implements, y.implements);
    }
    assert_eq!(names(&both), ["B", "A"]);
}

fn without_attributes(schema: &Schema) -> Schema {
    Schema {
        enums: vec![],
        entities: schema
            .entities
            .iter()
            .map(|e| Entity {
                name: e.name.clone(),
                attributes: vec![],
                relationships: e
                    .relationships
                    .iter()
                    .map(|r| rel(&r.field_name, &r.target, r.cardinality))
                    .collect(),
                implements: e.implements.clone(),
            })
            .collect(),
    }
}

#[test]
fn hidden_attributes_match_a_schema_without_any() {
    let schema = mixed_schema();
    let stripped = without_attributes(&schema);
    assert_eq!(dot::render(&schema, false).unwrap(), dot::render(&stripped, true).unwrap());
    assert_eq!(mermaid::render(&schema, false).unwrap(), mermaid::render(&stripped, true).unwrap());
    assert_eq!(plantuml::render(&schema, false).unwrap(), plantuml::render(&stripped, true).unwrap());
    assert_eq!(d2::render(&schema, false).unwrap(), d2::render(&stripped, true).unwrap());
    assert_ne!(dot::render(&schema, false).unwrap(), dot::render(&schema, true).unwrap());
}

/// A backslash stands for the character after it.
fn unescape(t: &str) -> String {
    let mut out = String::new();
    let mut chars = t.chars();
    while let Some(c) = chars.next() {
        if c == '\\' {
            if let Some(next) = chars.next() {
                out.push(next);
                continue;
            }
        }
        out.push(c);
    }
    out
}

#[test]
fn backslash_escapes_read_back() {
    for s in ["plain", r#"a"b"#, "a{b}c|<d>", r"back\slash\\", "\\", "é ü"] {
        assert_eq!(unescape(&escape_dot_label(s)), s);
        let q = quote(s);
        assert!(q.starts_with('"') && q.ends_with('"'));
        assert_eq!(unescape(&q[1..q.len() - 1]), s);
    }
}

#[test]
fn replacing_escapes_keep_length_and_drop_quotes() {
    for s in [r#"with "quotes""#, "Set{String}", "a b", ""] {
        let q = escape_quotes(s);
        assert_eq!(q.chars().count(), s.chars().count());
        assert!(!q.contains('"'));
        let a = escape_attr(s);
        assert_eq!(a.chars().count(), s.chars().count());
        assert!(!a.contains('"') && !a.contains('{') && !a.contains('}'));
    }
}

#[test]
fn reserved_keys_are_quoted_in_any_case() {
    assert_eq!(format_key("Shape"), "\"Shape\"");
    assert_eq!(format_key("STROKE-DASH"), "\"STROKE-DASH\"");
    assert_eq!(format_key("shapes"), "shapes");
}

const GENERIC_SDL: &str = r#"
interface CoreNode { id: String! }
interface CoreGroup { id: String! members: NestedPaginatedCoreNode }
interface CoreGenericRepository { id: String! name: TextAttribute }
interface AttributeInterface { is_default: Boolean }
type TextAttribute implements AttributeInterface { value: String }
type CoreRepository implements CoreNode & CoreGenericRepository {
  id: String!
  name: TextAttribute
  owner: NestedEdgedInfraDevice
}
type InfraDevice implements CoreNode {
  id: String!
  name: TextAttribute
  repository: NestedEdgedCoreGenericRepository
  primary_group: NestedEdgedCoreGroup
  member_of_groups: NestedPaginatedCoreGroup
}
type CoreStandardGroup implements CoreNode & CoreGroup { id: String! name: TextAttribute }
type NestedEdgedInfraDevice { node: InfraDevice }
type NestedEdgedCoreGenericRepository { node: CoreGenericRepository }
type NestedEdgedCoreGroup { node: CoreGroup }
type NestedPaginatedCoreGroup { edges: [NestedEdgedCoreGroup] }
type NestedPaginatedCoreNode { edges: [NestedEdgedInfraDevice] }
"#;

#[test]
fn parsed_schema_is_well_formed() {
    let schema = parse_graphql_schema(GENERIC_SDL).unwrap();
    let ns = names(&schema);
    let mut sorted = ns.clone();
    sorted.sort();
    sorted.dedup();
    assert_eq!(ns, sorted);
    for e in &schema.entities {
        for r in &e.relationships {
            assert!(ns.contains(&r.target), "{} -> {}", e.name, r.target);
        }
        for p in &e.implements {
            assert!(ns.contains(p));
            assert_ne!(p, "CoreNode");
        }
    }
    let repo = schema.entities.iter().find(|e| e.name == "CoreRepository").unwrap();
    assert_eq!(repo.implements, ["CoreGenericRepository"]);
    let group = schema.entities.iter().find(|e| e.name == "CoreStandardGroup").unwrap();
    assert_eq!(group.implements, ["CoreGroup"]);
    let device = schema.entities.iter().find(|e| e.name == "InfraDevice").unwrap();
    // member_of_groups is drawn on no entity
    assert!(device.relationships.iter().all(|r| r.field_name != "member_of_groups"));
}

#[test]
fn invalid_sdl_is_a_parse_error_with_the_parser_message() {
    match parse_graphql_schema("type {") {
        Err(Error::Parse(m)) => assert!(!m.is_empty()),
        other => panic!("expected a parse error, got {other:?}"),
    }
    assert_eq!(Error::Parse("x".to_string()).message(), "schema parse error: x");
    assert_eq!(Error::Config("y".to_string()).message(), "config error: y");
}

#[test]
fn name_patterns_compile_and_match() {
    let p = NamePattern::new("^Infra").unwrap();
    assert!(p.is_match("InfraDevice"));
    assert!(!p.is_match("LocationSite"));
    assert!(NamePattern::new("(").is_err());
    assert!(!NamePattern::new("(").err().unwrap().is_empty());
}

#[test]
fn unicode_letters_stand_bare_in_d2() {
    assert_eq!(format_key("größe"), "größe");
    assert_eq!(format_key("a b"), "\"a b\"");
}

#[test]
fn list_types_are_many() {
    let sdl = r#"
type A { id: String! bs: [NestedEdgedB!]! one_b: NestedEdgedB }
type B { id: String! }
type NestedEdgedB { node: B }
"#;
    let schema = parse_graphql_schema(sdl).unwrap();
    let a = &schema.entities[0];
    assert_eq!(a.name, "A");
    let bs = a.relationships.iter().find(|r| r.field_name == "bs").unwrap();
    assert_eq!(bs.target, "B");
    assert_eq!(bs.cardinality, Cardinality::Many);
    let one = a.relationships.iter().find(|r| r.field_name == "one_b").unwrap();
    assert_eq!(one.cardinality, Cardinality::One);
}

#[test]
fn filtering_twice_changes_nothing_more() {
    let inclusion = NamePattern::new("^[ABG]$").unwrap();
    let exclusion = NamePattern::new("^B$").unwrap();
    let once = filter_schema(mixed_schema(), Some(&inclusion), Some(&exclusion));
    let twice = filter_schema(
        filter_schema(mixed_schema(), Some(&inclusion), Some(&exclusion)),
        Some(&inclusion),
        Some(&exclusion),
    );
    assert_eq!(names(&once), names(&twice));
    for (x, y) in once.entities.iter().zip(twice.entities.iter()) {
        assert_eq!(x.relationships.len(), y.relationships.len());
        assert_eq!(x.implements, y.implements);
        assert_eq!(x.attributes.len(), y.attributes.len());
    }
    assert_eq!(names(&filter_schema(mixed_schema(), None, None)), names(&mixed_schema()));
}

#[test]
fn mermaid_alone_separates_enum_values_with_hyphens() {
    let schema = Schema {
        enums: vec![infrahub_erd::parse::EnumType {
            name: "Status".to_string(),
            values: vec!["A".to_string(), "B".to_string(), "C".to_string()],
        }],
        entities: vec![entity("Server", &[("status", "Status")], vec![], &[])],
    };
    assert!(mermaid::render(&schema, true).unwrap().contains("        Status(A-B-C) status\n"));
    assert!(dot::render(&schema, true).unwrap().contains("status: Status(A,B,C)"));
    assert!(plantuml::render(&schema, true).unwrap().contains("Status(A,B,C)"));
    assert!(d2::render(&schema, true).unwrap().contains("\"Status(A,B,C)\""));
}

#[test]
fn block_string_with_wide_whitespace_is_refused() {
    let sdl = "\"\"\"\n a\n\u{3000}b\n\"\"\"\ntype A { id: String! }\n";
    match parse_graphql_schema(sdl) {
        Err(Error::Parse(m)) => assert!(m.contains("block string")),
        other => panic!("expected a parse error, got {other:?}"),
    }
    // the same description indented with ASCII spaces parses
    let ascii = "\"\"\"\n a\n  b\n\"\"\"\ntype A { id: String! }\n";
    assert_eq!(names(&parse_graphql_schema(ascii).unwrap()), ["A"]);
    // wide whitespace without any block string is read as usual
    let wide = "# a\u{3000}comment\ntype A { id: String! }\n";
    assert_eq!(names(&parse_graphql_schema(wide).unwrap()), ["A"]);
}
