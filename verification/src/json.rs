//! json document model
//!
//! the document that json output serializes: entities with their attributes
//! and relationships, and the deduplicated edges, for programmatic
//! consumption.

use vstd::prelude::*;
use crate::dedup::{deduplicate, deduplicated, edges_view, MergedEdge, MergedEdgeView};
use crate::parse::{Attribute, AttributeView, Entity, EntityView, Relationship, RelationshipView, Schema, SchemaView};
use crate::text::copy_string;

verus! {

/// one entity of the json document.
#[derive(Debug)]
pub struct JsonEntity {
    pub name: String,
    pub attributes: Vec<Attribute>,
    pub relationships: Vec<Relationship>,
}

/// the json document: every entity, then the deduplicated edges.
#[derive(Debug)]
pub struct JsonDocument {
    pub entities: Vec<JsonEntity>,
    pub edges: Vec<MergedEdge>,
}

/// The view of a json entity.
#[verifier::ext_equal]
pub struct JsonEntityView {
    pub name: Seq<char>,
    pub attributes: Seq<AttributeView>,
    pub relationships: Seq<RelationshipView>,
}

/// The view of a json document.
#[verifier::ext_equal]
pub struct JsonDocumentView {
    pub entities: Seq<JsonEntityView>,
    pub edges: Seq<MergedEdgeView>,
}

impl View for JsonEntity {
    type V = JsonEntityView;

    open spec fn view(&self) -> JsonEntityView {
        JsonEntityView {
            name: self.name@,
            attributes: self.attributes@.map_values(|a: Attribute| a@),
            relationships: self.relationships@.map_values(|r: Relationship| r@),
        }
    }
}

impl View for JsonDocument {
    type V = JsonDocumentView;

    open spec fn view(&self) -> JsonDocumentView {
        JsonDocumentView {
            entities: self.entities@.map_values(|e: JsonEntity| e@),
            edges: edges_view(self.edges@),
        }
    }
}

/// The json entity of a schema entity: its attributes only when they are
/// shown.
pub open spec fn json_entity(e: EntityView, show_attributes: bool) -> JsonEntityView {
    JsonEntityView {
        name: e.name,
        attributes: if show_attributes {
            e.attributes
        } else {
            Seq::empty()
        },
        relationships: e.relationships,
    }
}

/// The json document of a schema.
pub open spec fn json_document(schema: SchemaView, show_attributes: bool) -> JsonDocumentView {
    JsonDocumentView {
        entities: schema.entities.map_values(|e: EntityView| json_entity(e, show_attributes)),
        edges: deduplicated(schema),
    }
}

/// A copy of a list of attributes.
fn copy_attributes(v: &Vec<Attribute>) -> (res: Vec<Attribute>)
    ensures
        res@.map_values(|a: Attribute| a@) == v@.map_values(|a: Attribute| a@),
{
    let mut out: Vec<Attribute> = Vec::new();
    let mut i: usize = 0;
    while i < v.len()
        invariant
            i <= v@.len(),
            out@.map_values(|a: Attribute| a@) == v@.take(i as int).map_values(|a: Attribute| a@),
        decreases v@.len() - i,
    {
        let a = Attribute { name: copy_string(&v[i].name), attr_type: copy_string(&v[i].attr_type) };
        let ghost prev = out@.map_values(|a: Attribute| a@);
        out.push(a);
        assert(out@.map_values(|a: Attribute| a@) =~= prev.push(v@[i as int]@));
        assert(v@.take(i + 1) =~= v@.take(i as int).push(v@[i as int]));
        assert(out@.map_values(|a: Attribute| a@) =~= v@.take(i + 1).map_values(|a: Attribute| a@));
        i += 1;
    }
    assert(v@.take(v@.len() as int) =~= v@);
    out
}

/// A copy of a list of relationships.
fn copy_relationships(v: &Vec<Relationship>) -> (res: Vec<Relationship>)
    ensures
        res@.map_values(|r: Relationship| r@) == v@.map_values(|r: Relationship| r@),
{
    let mut out: Vec<Relationship> = Vec::new();
    let mut i: usize = 0;
    while i < v.len()
        invariant
            i <= v@.len(),
            out@.map_values(|r: Relationship| r@) == v@.take(i as int).map_values(|r: Relationship| r@),
        decreases v@.len() - i,
    {
        let r = Relationship {
            field_name: copy_string(&v[i].field_name),
            target: copy_string(&v[i].target),
            cardinality: v[i].cardinality,
        };
        let ghost prev = out@.map_values(|r: Relationship| r@);
        out.push(r);
        assert(out@.map_values(|r: Relationship| r@) =~= prev.push(v@[i as int]@));
        assert(v@.take(i + 1) =~= v@.take(i as int).push(v@[i as int]));
        assert(out@.map_values(|r: Relationship| r@) =~= v@.take(i + 1).map_values(|r: Relationship| r@));
        i += 1;
    }
    assert(v@.take(v@.len() as int) =~= v@);
    out
}

/// build the json document of a schema; attributes are listed only when
/// `show_attributes` is set, and relationships always.
pub fn document(schema: &Schema, show_attributes: bool) -> (res: JsonDocument)
    ensures
        res@ == json_document(schema@, show_attributes),
{
    let ghost ents = schema@.entities;
    let edges = deduplicate(schema);
    let mut entities: Vec<JsonEntity> = Vec::new();
    let mut i: usize = 0;
    while i < schema.entities.len()
        invariant
            ents == schema@.entities,
            i <= ents.len(),
            entities@.map_values(|e: JsonEntity| e@) == ents.take(i as int).map_values(
                |e: EntityView| json_entity(e, show_attributes),
            ),
        decreases ents.len() - i,
    {
        let e: &Entity = &schema.entities[i];
        assert(e@ == ents[i as int]);
        let attributes = if show_attributes {
            copy_attributes(&e.attributes)
        } else {
            Vec::new()
        };
        let je = JsonEntity {
            name: copy_string(&e.name),
            attributes,
            relationships: copy_relationships(&e.relationships),
        };
        assert(je@ =~= json_entity(ents[i as int], show_attributes));
        let ghost prev = entities@.map_values(|e: JsonEntity| e@);
        entities.push(je);
        assert(entities@.map_values(|e: JsonEntity| e@) =~= prev.push(je@));
        assert(ents.take(i + 1) =~= ents.take(i as int).push(ents[i as int]));
        assert(entities@.map_values(|e: JsonEntity| e@) =~= ents.take(i + 1).map_values(
            |e: EntityView| json_entity(e, show_attributes),
        ));
        i += 1;
    }
    assert(ents.take(ents.len() as int) =~= ents);
    let doc = JsonDocument { entities, edges };
    assert(doc@ =~= json_document(schema@, show_attributes));
    doc
}

} // verus!
