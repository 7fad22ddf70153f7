//! plantuml output
//!
//! renders a parsed schema as a plantuml er diagram.

use vstd::prelude::*;
use crate::dedup::{EdgeSide, EdgeSideView, MergedEdge, MergedEdgeView};
use crate::error::Error;
use crate::parse::Schema;
use crate::parse::SchemaView;
use crate::render::{contains_text, lemma_document_has_inheritance, crowsfoot_bidirectional_text, crowsfoot_edge_bidirectional, crowsfoot_edge_unidirectional,
    crowsfoot_unidirectional_text, document_text, render_document, Renderer};
use crate::text::{append_mapped, map_chars, CharRule};

verus! {

/// render a schema as a plantuml er diagram string
pub fn render(schema: &Schema, show_attributes: bool) -> (res: Result<String, Error>)
    ensures
        res matches Ok(s) && s@ == document_text(PlantUmlRenderer, schema@, show_attributes),
{
    render_document(&PlantUmlRenderer, schema, show_attributes)
}

/// plantuml er-diagram emitter: `entity` blocks with `name : type` attribute
/// rows wrapped in `@startuml`/`@enduml`, and shared crow's-foot edges.
pub struct PlantUmlRenderer;

impl Renderer for PlantUmlRenderer {
    open spec fn header_text(&self) -> Seq<char> {
        "@startuml\n"@
    }

    open spec fn value_separator_text(&self) -> Seq<char> {
        ","@
    }

    open spec fn footer_text(&self) -> Seq<char> {
        "@enduml\n"@
    }

    open spec fn entity_open_text(&self, name: Seq<char>, with_attributes: bool) -> Seq<char> {
        if with_attributes {
            "    entity \""@ + map_chars(CharRule::Quotes, name) + "\" {\n"@
        } else {
            "    entity \""@ + map_chars(CharRule::Quotes, name) + "\" {}\n"@
        }
    }

    open spec fn attribute_line_text(&self, name: Seq<char>, type_display: Seq<char>) -> Seq<char> {
        "        "@ + map_chars(CharRule::Attr, name) + " : "@ + map_chars(CharRule::Attr, type_display) + "\n"@
    }

    open spec fn entity_close_text(&self, with_attributes: bool) -> Seq<char> {
        if with_attributes {
            "    }\n"@
        } else {
            Seq::empty()
        }
    }

    open spec fn bidirectional_text(&self, edge: MergedEdgeView, rev: EdgeSideView) -> Seq<char> {
        crowsfoot_bidirectional_text(edge, rev)
    }

    open spec fn unidirectional_text(&self, edge: MergedEdgeView) -> Seq<char> {
        crowsfoot_unidirectional_text(edge)
    }

    open spec fn inheritance_text(&self, child: Seq<char>, parent: Seq<char>) -> Seq<char> {
        "    \""@ + map_chars(CharRule::Quotes, child) + "\" --|> \""@ + map_chars(CharRule::Quotes, parent) + "\"\n"@
    }

    fn document_header(&self, out: &mut String) {
        out.append("@startuml\n");
    }

    fn value_separator(&self) -> (res: &'static str) {
        ","
    }

    fn document_footer(&self, out: &mut String) {
        out.append("@enduml\n");
    }

    fn entity_open(&self, out: &mut String, name: &str, with_attributes: bool) {
        let ghost start = out@;
        out.append("    entity \"");
        append_mapped(out, name, CharRule::Quotes);
        if with_attributes {
            out.append("\" {\n");
        } else {
            out.append("\" {}\n");
        }
        assert(out@ =~= start + self.entity_open_text(name@, with_attributes));
    }

    fn attribute_line(&self, out: &mut String, name: &str, type_display: &str) {
        let ghost start = out@;
        out.append("        ");
        append_mapped(out, name, CharRule::Attr);
        out.append(" : ");
        append_mapped(out, type_display, CharRule::Attr);
        out.append("\n");
        assert(out@ =~= start + self.attribute_line_text(name@, type_display@));
    }

    fn entity_close(&self, out: &mut String, with_attributes: bool) {
        let ghost start = out@;
        if with_attributes {
            out.append("    }\n");
        }
        assert(out@ =~= start + self.entity_close_text(with_attributes));
    }

    fn edge_bidirectional(&self, out: &mut String, edge: &MergedEdge, rev: &EdgeSide) {
        crowsfoot_edge_bidirectional(out, edge, rev);
    }

    fn edge_unidirectional(&self, out: &mut String, edge: &MergedEdge) {
        crowsfoot_edge_unidirectional(out, edge);
    }

    fn inheritance_edge(&self, out: &mut String, child: &str, parent: &str) {
        let ghost start = out@;
        out.append("    \"");
        append_mapped(out, child, CharRule::Quotes);
        out.append("\" --|> \"");
        append_mapped(out, parent, CharRule::Quotes);
        out.append("\"\n");
        assert(out@ =~= start + self.inheritance_text(child@, parent@));
    }
}


/// For every entity E and every generic G that it implements, the PlantUML
/// document holds the line `"E" --|> "G"`: the generalization arrow runs from
/// the implementor to the generic, double quotes in either name replaced,
/// whether or not attributes are shown.
pub proof fn lemma_plantuml_inheritance_lines(schema: SchemaView, show_attributes: bool, i: int, j: int)
    requires
        0 <= i < schema.entities.len(),
        0 <= j < schema.entities[i].implements.len(),
    ensures
        ({
            let e = schema.entities[i];
            contains_text(
                document_text(PlantUmlRenderer, schema, show_attributes),
                "    \""@ + map_chars(CharRule::Quotes, e.name) + "\" --|> \""@ + map_chars(
                    CharRule::Quotes,
                    e.implements[j],
                ) + "\"\n"@,
            )
        }),
{
    lemma_document_has_inheritance(PlantUmlRenderer, schema, show_attributes, i, j);
}

} // verus!
