//! dot output
//!
//! renders a parsed schema as a graphviz dot diagram.

use vstd::prelude::*;
use crate::dedup::{EdgeSide, EdgeSideView, MergedEdge, MergedEdgeView};
use crate::error::Error;
use crate::parse::{Cardinality, Schema};
use crate::dedup::deduplicated;
use crate::parse::SchemaView;
use crate::render::{contains_text, document_text, lemma_document_has_edge, render_document, Renderer};
use crate::text::{append_mapped, lemma_concat_starts_ends, map_chars, mapped, seq_ends_with, seq_starts_with, CharRule};

verus! {

/// escape a string for use inside a dot record label.
///
/// record labels use `{`, `}`, `|`, and `<`, `>` as structural delimiters,
/// and the enclosing attribute value uses `"` and `\`. all of these must be
/// backslash-escaped when they appear in literal text.
pub fn escape_dot_label(s: &str) -> (res: String)
    ensures
        res@ == map_chars(CharRule::DotLabel, s@),
{
    mapped(s, CharRule::DotLabel)
}

/// A name as a DOT record label.
pub open spec fn dot_label(s: Seq<char>) -> Seq<char> {
    map_chars(CharRule::DotLabel, s)
}

/// The arrow shape for a cardinality.
pub open spec fn dot_arrow(c: Cardinality) -> Seq<char> {
    match c {
        Cardinality::One => "normal"@,
        Cardinality::Many => "crow"@,
    }
}

/// render a schema as a graphviz dot string
pub fn render(schema: &Schema, show_attributes: bool) -> (res: Result<String, Error>)
    ensures
        res matches Ok(s) && s@ == document_text(DotRenderer, schema@, show_attributes),
{
    render_document(&DotRenderer, schema, show_attributes)
}

/// graphviz dot emitter: record-shaped nodes with `\l`-joined attribute rows
/// and crow's-foot cardinality on directed edges.
pub struct DotRenderer;

impl Renderer for DotRenderer {
    open spec fn header_text(&self) -> Seq<char> {
        "digraph schema {\n"@ + "  rankdir=LR;\n"@ + "  node [shape=record, fontname=\"Helvetica\", fontsize=11];\n"@
            + "  edge [fontname=\"Helvetica\", fontsize=9];\n"@
    }

    open spec fn value_separator_text(&self) -> Seq<char> {
        ","@
    }

    open spec fn footer_text(&self) -> Seq<char> {
        "}\n"@
    }

    open spec fn entity_open_text(&self, name: Seq<char>, with_attributes: bool) -> Seq<char> {
        if with_attributes {
            "  \""@ + dot_label(name) + "\" [label=\"{"@ + dot_label(name) + "|"@
        } else {
            "  \""@ + dot_label(name) + "\" [label=\""@ + dot_label(name) + "\"];\n"@
        }
    }

    open spec fn attribute_line_text(&self, name: Seq<char>, type_display: Seq<char>) -> Seq<char> {
        dot_label(name) + ": "@ + dot_label(type_display) + "\\l"@
    }

    open spec fn entity_close_text(&self, with_attributes: bool) -> Seq<char> {
        if with_attributes {
            "}\"];\n"@
        } else {
            Seq::empty()
        }
    }

    open spec fn bidirectional_text(&self, edge: MergedEdgeView, rev: EdgeSideView) -> Seq<char> {
        "  \""@ + dot_label(edge.left) + "\" -> \""@ + dot_label(edge.right) + "\" [taillabel=\""@ + dot_label(
            edge.left_to_right.field_name,
        ) + "\", headlabel=\""@ + dot_label(rev.field_name) + "\", arrowhead="@ + dot_arrow(
            edge.left_to_right.cardinality,
        ) + ", arrowtail="@ + dot_arrow(rev.cardinality) + ", dir=both];\n"@
    }

    open spec fn unidirectional_text(&self, edge: MergedEdgeView) -> Seq<char> {
        "  \""@ + dot_label(edge.left) + "\" -> \""@ + dot_label(edge.right) + "\" [label=\""@ + dot_label(
            edge.left_to_right.field_name,
        ) + "\""@ + match edge.left_to_right.cardinality {
            Cardinality::One => Seq::empty(),
            Cardinality::Many => ", arrowhead=crow"@,
        } + "];\n"@
    }

    open spec fn inheritance_text(&self, child: Seq<char>, parent: Seq<char>) -> Seq<char> {
        "  \""@ + dot_label(child) + "\" -> \""@ + dot_label(parent) + "\" [arrowhead=onormal, style=dashed];\n"@
    }

    fn document_header(&self, out: &mut String) {
        out.append("digraph schema {\n");
        out.append("  rankdir=LR;\n");
        out.append("  node [shape=record, fontname=\"Helvetica\", fontsize=11];\n");
        out.append("  edge [fontname=\"Helvetica\", fontsize=9];\n");
    }

    fn value_separator(&self) -> (res: &'static str) {
        ","
    }

    fn document_footer(&self, out: &mut String) {
        out.append("}\n");
    }

    fn entity_open(&self, out: &mut String, name: &str, with_attributes: bool) {
        let ghost start = out@;
        out.append("  \"");
        append_mapped(out, name, CharRule::DotLabel);
        if with_attributes {
            out.append("\" [label=\"{");
            append_mapped(out, name, CharRule::DotLabel);
            out.append("|");
        } else {
            out.append("\" [label=\"");
            append_mapped(out, name, CharRule::DotLabel);
            out.append("\"];\n");
        }
        assert(out@ =~= start + self.entity_open_text(name@, with_attributes));
    }

    fn attribute_line(&self, out: &mut String, name: &str, type_display: &str) {
        let ghost start = out@;
        append_mapped(out, name, CharRule::DotLabel);
        out.append(": ");
        append_mapped(out, type_display, CharRule::DotLabel);
        out.append("\\l");
        assert(out@ =~= start + self.attribute_line_text(name@, type_display@));
    }

    fn entity_close(&self, out: &mut String, with_attributes: bool) {
        let ghost start = out@;
        if with_attributes {
            out.append("}\"];\n");
        }
        assert(out@ =~= start + self.entity_close_text(with_attributes));
    }

    fn edge_bidirectional(&self, out: &mut String, edge: &MergedEdge, rev: &EdgeSide) {
        let ghost start = out@;
        let arrowhead = match edge.left_to_right.cardinality {
            Cardinality::One => "normal",
            Cardinality::Many => "crow",
        };
        let arrowtail = match rev.cardinality {
            Cardinality::One => "normal",
            Cardinality::Many => "crow",
        };
        out.append("  \"");
        append_mapped(out, edge.left.as_str(), CharRule::DotLabel);
        out.append("\" -> \"");
        append_mapped(out, edge.right.as_str(), CharRule::DotLabel);
        out.append("\" [taillabel=\"");
        append_mapped(out, edge.left_to_right.field_name.as_str(), CharRule::DotLabel);
        out.append("\", headlabel=\"");
        append_mapped(out, rev.field_name.as_str(), CharRule::DotLabel);
        out.append("\", arrowhead=");
        out.append(arrowhead);
        out.append(", arrowtail=");
        out.append(arrowtail);
        out.append(", dir=both];\n");
        assert(out@ =~= start + self.bidirectional_text(edge@, rev@));
    }

    fn edge_unidirectional(&self, out: &mut String, edge: &MergedEdge) {
        let ghost start = out@;
        out.append("  \"");
        append_mapped(out, edge.left.as_str(), CharRule::DotLabel);
        out.append("\" -> \"");
        append_mapped(out, edge.right.as_str(), CharRule::DotLabel);
        out.append("\" [label=\"");
        append_mapped(out, edge.left_to_right.field_name.as_str(), CharRule::DotLabel);
        out.append("\"");
        match edge.left_to_right.cardinality {
            Cardinality::One => {},
            Cardinality::Many => out.append(", arrowhead=crow"),
        }
        out.append("];\n");
        assert(out@ =~= start + self.unidirectional_text(edge@));
    }

    fn inheritance_edge(&self, out: &mut String, child: &str, parent: &str) {
        let ghost start = out@;
        out.append("  \"");
        append_mapped(out, child, CharRule::DotLabel);
        out.append("\" -> \"");
        append_mapped(out, parent, CharRule::DotLabel);
        out.append("\" [arrowhead=onormal, style=dashed];\n");
        assert(out@ =~= start + self.inheritance_text(child@, parent@));
    }
}


/// The arrow a DOT edge end gets: `crow` towards many, `normal` towards one.
proof fn lemma_dot_arrow_words(c: Cardinality)
    ensures
        dot_arrow(c) == (if c == Cardinality::Many { "crow"@ } else { "normal"@ }),
{
}

/// A merged edge's DOT line names its two entities and both fields, and ends
/// with its arrows: the arrowhead is `crow` exactly when the left-to-right
/// relationship is to many, the arrowtail `crow` exactly when the
/// right-to-left one is, and each is `normal` otherwise.
pub proof fn lemma_dot_merged_edge_line(edge: MergedEdgeView, rev: EdgeSideView)
    ensures
        seq_starts_with(
            DotRenderer.bidirectional_text(edge, rev),
            "  \""@ + dot_label(edge.left) + "\" -> \""@ + dot_label(edge.right) + "\" [taillabel=\""@ + dot_label(
                edge.left_to_right.field_name,
            ) + "\", headlabel=\""@ + dot_label(rev.field_name) + "\""@,
        ),
        seq_ends_with(
            DotRenderer.bidirectional_text(edge, rev),
            ", arrowhead="@ + (if edge.left_to_right.cardinality == Cardinality::Many {
                "crow"@
            } else {
                "normal"@
            }) + ", arrowtail="@ + (if rev.cardinality == Cardinality::Many {
                "crow"@
            } else {
                "normal"@
            }) + ", dir=both];\n"@,
        ),
{
    lemma_dot_arrow_words(edge.left_to_right.cardinality);
    lemma_dot_arrow_words(rev.cardinality);
    let head = "  \""@ + dot_label(edge.left) + "\" -> \""@ + dot_label(edge.right) + "\" [taillabel=\""@ + dot_label(
        edge.left_to_right.field_name,
    ) + "\", headlabel=\""@ + dot_label(rev.field_name) + "\""@;
    let tail = ", arrowhead="@ + dot_arrow(edge.left_to_right.cardinality) + ", arrowtail="@ + dot_arrow(
        rev.cardinality,
    ) + ", dir=both];\n"@;
    reveal_strlit("\", arrowhead=");
    reveal_strlit("\"");
    reveal_strlit(", arrowhead=");
    assert("\", arrowhead="@ =~= "\""@ + ", arrowhead="@);
    assert(DotRenderer.bidirectional_text(edge, rev) =~= head + tail);
    lemma_concat_starts_ends(head, tail);
}

/// Every merged edge of a schema is drawn in its DOT document by a line that
/// names its entities and fields and carries its two arrows.
pub proof fn lemma_dot_document_merged_edges(schema: SchemaView, show_attributes: bool, m: int)
    requires
        0 <= m < deduplicated(schema).len(),
        deduplicated(schema)[m].right_to_left is Some,
    ensures
        ({
            let e = deduplicated(schema)[m];
            let rev = e.right_to_left->Some_0;
            exists|line: Seq<char>|
                #[trigger] contains_text(document_text(DotRenderer, schema, show_attributes), line) && seq_starts_with(
                    line,
                    "  \""@ + dot_label(e.left) + "\" -> \""@ + dot_label(e.right) + "\" [taillabel=\""@ + dot_label(
                        e.left_to_right.field_name,
                    ) + "\", headlabel=\""@ + dot_label(rev.field_name) + "\""@,
                ) && seq_ends_with(
                    line,
                    ", arrowhead="@ + (if e.left_to_right.cardinality == Cardinality::Many {
                        "crow"@
                    } else {
                        "normal"@
                    }) + ", arrowtail="@ + (if rev.cardinality == Cardinality::Many {
                        "crow"@
                    } else {
                        "normal"@
                    }) + ", dir=both];\n"@,
                )
        }),
{
    let e = deduplicated(schema)[m];
    let rev = e.right_to_left->Some_0;
    lemma_document_has_edge(DotRenderer, schema, show_attributes, m);
    lemma_dot_merged_edge_line(e, rev);
    let line = DotRenderer.bidirectional_text(e, rev);
    assert(contains_text(document_text(DotRenderer, schema, show_attributes), line));
}

} // verus!
