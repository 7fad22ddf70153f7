//! d2 output
//!
//! renders a parsed schema as a d2 diagram with sql_table shapes for entities
//! and crow's-foot edges for relationships.

use vstd::prelude::*;
use crate::dedup::{EdgeSide, EdgeSideView, MergedEdge, MergedEdgeView};
use crate::error::Error;
use crate::parse::{Cardinality, Schema};
use crate::dedup::deduplicated;
use crate::parse::SchemaView;
use crate::render::{contains_text, document_text, lemma_document_has_edge, render_document, Renderer};
use crate::text::{append_mapped, lemma_concat_starts_ends, map_chars, seq_ends_with, seq_starts_with, CharRule};

verus! {

/// What `char::is_alphanumeric` says of a character.
pub uninterp spec fn unicode_alphanumeric(c: char) -> bool;

/// An ASCII character.
pub open spec fn is_ascii_char(c: char) -> bool {
    (c as u32) < 128
}

/// An ASCII letter or digit.
pub open spec fn ascii_alphanumeric(c: char) -> bool {
    ('a' <= c && c <= 'z') || ('A' <= c && c <= 'Z') || ('0' <= c && c <= '9')
}

/// `char::is_alphanumeric`: whether the character is alphabetic or numeric
/// in the Unicode sense; among ASCII characters, exactly the letters and
/// digits.
#[verifier::external_body]
fn is_alphanumeric(c: char) -> (res: bool)
    ensures
        res == unicode_alphanumeric(c),
        is_ascii_char(c) ==> (res == ascii_alphanumeric(c)),
{
    c.is_alphanumeric()
}

/// d2 reserved keywords, which d2 only honours when they appear unquoted.
///
/// the union of the keyword tables in d2's `d2ast/keywords.go`, matched
/// case-insensitively as d2 does.
pub open spec fn reserved_keyword_list() -> Seq<Seq<char>> {
    seq![
        "3d"@,
        "animated"@,
        "bold"@,
        "border-radius"@,
        "class"@,
        "classes"@,
        "constraint"@,
        "direction"@,
        "double-border"@,
        "fill"@,
        "fill-pattern"@,
        "filled"@,
        "font"@,
        "font-color"@,
        "font-size"@,
        "grid-columns"@,
        "grid-gap"@,
        "grid-rows"@,
        "height"@,
        "horizontal-gap"@,
        "icon"@,
        "italic"@,
        "label"@,
        "layers"@,
        "left"@,
        "link"@,
        "multiple"@,
        "near"@,
        "opacity"@,
        "scenarios"@,
        "shadow"@,
        "shape"@,
        "source-arrowhead"@,
        "steps"@,
        "stroke"@,
        "stroke-dash"@,
        "stroke-width"@,
        "style"@,
        "target-arrowhead"@,
        "text-transform"@,
        "tooltip"@,
        "top"@,
        "underline"@,
        "vars"@,
        "vertical-gap"@,
        "width"@
    ]
}

/// the d2 reserved keywords, in the order of [`reserved_keyword_list`].
pub fn reserved_keywords() -> (res: Vec<&'static str>)
    ensures
        res@.map_values(|s: &str| s@) == reserved_keyword_list(),
{
    let mut v: Vec<&'static str> = Vec::new();
    v.push("3d");
    v.push("animated");
    v.push("bold");
    v.push("border-radius");
    v.push("class");
    v.push("classes");
    v.push("constraint");
    v.push("direction");
    v.push("double-border");
    v.push("fill");
    v.push("fill-pattern");
    v.push("filled");
    v.push("font");
    v.push("font-color");
    v.push("font-size");
    v.push("grid-columns");
    v.push("grid-gap");
    v.push("grid-rows");
    v.push("height");
    v.push("horizontal-gap");
    v.push("icon");
    v.push("italic");
    v.push("label");
    v.push("layers");
    v.push("left");
    v.push("link");
    v.push("multiple");
    v.push("near");
    v.push("opacity");
    v.push("scenarios");
    v.push("shadow");
    v.push("shape");
    v.push("source-arrowhead");
    v.push("steps");
    v.push("stroke");
    v.push("stroke-dash");
    v.push("stroke-width");
    v.push("style");
    v.push("target-arrowhead");
    v.push("text-transform");
    v.push("tooltip");
    v.push("top");
    v.push("underline");
    v.push("vars");
    v.push("vertical-gap");
    v.push("width");
    assert(v@.map_values(|s: &str| s@) =~= reserved_keyword_list());
    v
}

/// The code of a character with ASCII capitals lowered.
pub open spec fn ascii_lower_code(c: char) -> int {
    if 'A' <= c && c <= 'Z' {
        c as int + 32
    } else {
        c as int
    }
}

/// Two strings equal but for the case of ASCII letters.
pub open spec fn eq_ignore_ascii_case(a: Seq<char>, b: Seq<char>) -> bool {
    a.len() == b.len() && forall|i: int| 0 <= i < a.len() ==> ascii_lower_code(#[trigger] a[i]) == ascii_lower_code(b[i])
}

/// `s` is a reserved keyword in any case.
pub open spec fn is_reserved_keyword(s: Seq<char>) -> bool {
    exists|k: int| 0 <= k < reserved_keyword_list().len() && #[trigger] eq_ignore_ascii_case(reserved_keyword_list()[k], s)
}

/// A character that may stand in a bare d2 identifier.
pub open spec fn is_bare_char(c: char) -> bool {
    (if is_ascii_char(c) {
        ascii_alphanumeric(c)
    } else {
        unicode_alphanumeric(c)
    }) || c == '_' || c == '-'
}

/// A non-empty string of bare identifier characters.
pub open spec fn is_bare_text(s: Seq<char>) -> bool {
    s.len() > 0 && forall|i: int| 0 <= i < s.len() ==> #[trigger] is_bare_char(s[i])
}

/// A string in double quotes, with internal quotes and backslashes escaped.
pub open spec fn quoted(s: Seq<char>) -> Seq<char> {
    "\""@ + map_chars(CharRule::Quoted, s) + "\""@
}

/// A string as a d2 key.
pub open spec fn key_text(s: Seq<char>) -> Seq<char> {
    if is_bare_text(s) && !is_reserved_keyword(s) {
        s
    } else {
        quoted(s)
    }
}

/// A string as a d2 value.
pub open spec fn value_text(s: Seq<char>) -> Seq<char> {
    if is_bare_text(s) {
        s
    } else {
        quoted(s)
    }
}

/// The crow's-foot arrowhead shape for a cardinality.
pub open spec fn arrowhead_text(c: Cardinality) -> Seq<char> {
    match c {
        Cardinality::One => "cf-one"@,
        Cardinality::Many => "cf-many"@,
    }
}

/// The code of `c` with ASCII capitals lowered.
fn lower_code(c: char) -> (res: u32)
    ensures
        res as int == ascii_lower_code(c),
{
    if 'A' <= c && c <= 'Z' {
        (c as u32) + 32
    } else {
        c as u32
    }
}

/// Whether two strings are equal but for the case of ASCII letters.
fn eq_ignore_case(a: &str, b: &str) -> (res: bool)
    ensures
        res == eq_ignore_ascii_case(a@, b@),
{
    let n = a.unicode_len();
    if n != b.unicode_len() {
        return false;
    }
    let mut i: usize = 0;
    while i < n
        invariant
            n == a@.len(),
            n == b@.len(),
            i <= n,
            forall|k: int| 0 <= k < i ==> ascii_lower_code(#[trigger] a@[k]) == ascii_lower_code(b@[k]),
        decreases n - i,
    {
        if lower_code(a.get_char(i)) != lower_code(b.get_char(i)) {
            return false;
        }
        i += 1;
    }
    true
}

/// Whether `s` is a reserved keyword in any case.
fn is_reserved(s: &str) -> (res: bool)
    ensures
        res == is_reserved_keyword(s@),
{
    let keywords = reserved_keywords();
    let ghost kv = keywords@.map_values(|k: &str| k@);
    let mut i: usize = 0;
    while i < keywords.len()
        invariant
            kv == keywords@.map_values(|k: &str| k@),
            kv == reserved_keyword_list(),
            i <= keywords@.len(),
            forall|k: int| 0 <= k < i ==> !eq_ignore_ascii_case(#[trigger] reserved_keyword_list()[k], s@),
        decreases keywords@.len() - i,
    {
        assert(kv[i as int] == keywords@[i as int]@);
        if eq_ignore_case(keywords[i], s) {
            return true;
        }
        i += 1;
    }
    false
}

/// whether a string can stand as a bare d2 identifier.
pub fn is_bare(s: &str) -> (res: bool)
    ensures
        res == is_bare_text(s@),
{
    let n = s.unicode_len();
    if n == 0 {
        return false;
    }
    let mut i: usize = 0;
    while i < n
        invariant
            n == s@.len(),
            i <= n,
            forall|k: int| 0 <= k < i ==> #[trigger] is_bare_char(s@[k]),
        decreases n - i,
    {
        let c = s.get_char(i);
        if !(is_alphanumeric(c) || c == '_' || c == '-') {
            assert(!is_bare_char(s@[i as int]));
            return false;
        }
        i += 1;
    }
    true
}

/// Appends `s` in double quotes, escaping internal quotes and backslashes.
fn append_quoted(out: &mut String, s: &str)
    ensures
        final(out)@ == old(out)@ + quoted(s@),
{
    let ghost start = out@;
    out.append("\"");
    append_mapped(out, s, CharRule::Quoted);
    out.append("\"");
    assert(out@ =~= start + quoted(s@));
}

/// wrap a string in double quotes, escaping internal quotes and backslashes.
pub fn quote(s: &str) -> (res: String)
    ensures
        res@ == quoted(s@),
{
    let mut out = String::new();
    append_quoted(&mut out, s);
    assert(out@ =~= quoted(s@));
    out
}

/// Appends `s` as a d2 key.
fn append_key(out: &mut String, s: &str)
    ensures
        final(out)@ == old(out)@ + key_text(s@),
{
    if is_bare(s) && !is_reserved(s) {
        out.append(s);
    } else {
        append_quoted(out, s);
    }
}

/// Appends `s` as a d2 value.
fn append_value(out: &mut String, s: &str)
    ensures
        final(out)@ == old(out)@ + value_text(s@),
{
    if is_bare(s) {
        out.append(s);
    } else {
        append_quoted(out, s);
    }
}

/// format a string as a d2 key, quoting special characters and reserved
/// keywords.
///
/// an unquoted reserved keyword is read by d2 as a directive on the enclosing
/// shape rather than as a key.
pub fn format_key(s: &str) -> (res: String)
    ensures
        res@ == key_text(s@),
{
    let mut out = String::new();
    append_key(&mut out, s);
    assert(out@ =~= key_text(s@));
    out
}

/// format a string as a d2 value, quoting if it contains special characters.
///
/// reserved keywords need no quoting here: d2 only recognises them in key
/// position.
pub fn format_value(s: &str) -> (res: String)
    ensures
        res@ == value_text(s@),
{
    let mut out = String::new();
    append_value(&mut out, s);
    assert(out@ =~= value_text(s@));
    out
}

/// map a relationship cardinality to a d2 crow's-foot arrowhead shape.
pub fn arrowhead_shape(c: Cardinality) -> (res: &'static str)
    ensures
        res@ == arrowhead_text(c),
{
    match c {
        Cardinality::One => "cf-one",
        Cardinality::Many => "cf-many",
    }
}

/// render a schema as a d2 diagram string
pub fn render(schema: &Schema, show_attributes: bool) -> (res: Result<String, Error>)
    ensures
        res matches Ok(s) && s@ == document_text(D2Renderer, schema@, show_attributes),
{
    render_document(&D2Renderer, schema, show_attributes)
}

/// d2 emitter: `sql_table` shapes for entities and crow's-foot arrowheads on
/// `--` edges.
pub struct D2Renderer;

impl Renderer for D2Renderer {
    open spec fn header_text(&self) -> Seq<char> {
        Seq::empty()
    }

    open spec fn value_separator_text(&self) -> Seq<char> {
        ","@
    }

    open spec fn footer_text(&self) -> Seq<char> {
        Seq::empty()
    }

    open spec fn entity_open_text(&self, name: Seq<char>, with_attributes: bool) -> Seq<char> {
        key_text(name) + ": {\n"@ + "  shape: sql_table\n"@
    }

    open spec fn attribute_line_text(&self, name: Seq<char>, type_display: Seq<char>) -> Seq<char> {
        "  "@ + key_text(name) + ": "@ + value_text(type_display) + "\n"@
    }

    open spec fn entity_close_text(&self, with_attributes: bool) -> Seq<char> {
        "}\n"@
    }

    open spec fn bidirectional_text(&self, edge: MergedEdgeView, rev: EdgeSideView) -> Seq<char> {
        key_text(edge.left) + " -- "@ + key_text(edge.right) + ": "@ + value_text(edge.left_to_right.field_name)
            + " / "@ + value_text(rev.field_name) + " {\n"@ + "  source-arrowhead.shape: "@ + arrowhead_text(
            rev.cardinality,
        ) + "\n"@ + "  target-arrowhead.shape: "@ + arrowhead_text(edge.left_to_right.cardinality) + "\n"@
            + "}\n"@
    }

    open spec fn unidirectional_text(&self, edge: MergedEdgeView) -> Seq<char> {
        key_text(edge.left) + " -- "@ + key_text(edge.right) + ": "@ + value_text(edge.left_to_right.field_name)
            + " {\n"@ + "  source-arrowhead.shape: cf-one\n"@ + "  target-arrowhead.shape: "@ + arrowhead_text(
            edge.left_to_right.cardinality,
        ) + "\n"@ + "}\n"@
    }

    open spec fn inheritance_text(&self, child: Seq<char>, parent: Seq<char>) -> Seq<char> {
        key_text(child) + " -> "@ + key_text(parent) + ": is a {\n"@ + "  target-arrowhead.shape: triangle\n"@
            + "  target-arrowhead.style.filled: false\n"@ + "  style.stroke-dash: 3\n"@ + "}\n"@
    }

    fn document_header(&self, out: &mut String) {
        assert(out@ =~= out@ + self.header_text());
    }

    fn value_separator(&self) -> (res: &'static str) {
        ","
    }

    fn document_footer(&self, out: &mut String) {
        assert(out@ =~= out@ + self.footer_text());
    }

    fn entity_open(&self, out: &mut String, name: &str, with_attributes: bool) {
        let ghost start = out@;
        append_key(out, name);
        out.append(": {\n");
        out.append("  shape: sql_table\n");
        assert(out@ =~= start + self.entity_open_text(name@, with_attributes));
    }

    fn attribute_line(&self, out: &mut String, name: &str, type_display: &str) {
        let ghost start = out@;
        out.append("  ");
        append_key(out, name);
        out.append(": ");
        append_value(out, type_display);
        out.append("\n");
        assert(out@ =~= start + self.attribute_line_text(name@, type_display@));
    }

    fn entity_close(&self, out: &mut String, with_attributes: bool) {
        out.append("}\n");
    }

    fn edge_bidirectional(&self, out: &mut String, edge: &MergedEdge, rev: &EdgeSide) {
        let ghost start = out@;
        append_key(out, edge.left.as_str());
        out.append(" -- ");
        append_key(out, edge.right.as_str());
        out.append(": ");
        append_value(out, edge.left_to_right.field_name.as_str());
        out.append(" / ");
        append_value(out, rev.field_name.as_str());
        out.append(" {\n");
        out.append("  source-arrowhead.shape: ");
        out.append(arrowhead_shape(rev.cardinality));
        out.append("\n");
        out.append("  target-arrowhead.shape: ");
        out.append(arrowhead_shape(edge.left_to_right.cardinality));
        out.append("\n");
        out.append("}\n");
        assert(out@ =~= start + self.bidirectional_text(edge@, rev@));
    }

    fn edge_unidirectional(&self, out: &mut String, edge: &MergedEdge) {
        let ghost start = out@;
        append_key(out, edge.left.as_str());
        out.append(" -- ");
        append_key(out, edge.right.as_str());
        out.append(": ");
        append_value(out, edge.left_to_right.field_name.as_str());
        out.append(" {\n");
        out.append("  source-arrowhead.shape: cf-one\n");
        out.append("  target-arrowhead.shape: ");
        out.append(arrowhead_shape(edge.left_to_right.cardinality));
        out.append("\n");
        out.append("}\n");
        assert(out@ =~= start + self.unidirectional_text(edge@));
    }

    fn inheritance_edge(&self, out: &mut String, child: &str, parent: &str) {
        let ghost start = out@;
        append_key(out, child);
        out.append(" -> ");
        append_key(out, parent);
        out.append(": is a {\n");
        out.append("  target-arrowhead.shape: triangle\n");
        out.append("  target-arrowhead.style.filled: false\n");
        out.append("  style.stroke-dash: 3\n");
        out.append("}\n");
        assert(out@ =~= start + self.inheritance_text(child@, parent@));
    }
}


/// A reserved keyword, in any case, is always quoted in key position, so d2
/// never reads a key as a directive on the shape that holds it.
pub proof fn lemma_reserved_keys_quoted(s: Seq<char>)
    requires
        is_reserved_keyword(s),
    ensures
        key_text(s) == quoted(s),
{
}


/// The crow's-foot shape of an edge end: `cf-many` towards many, `cf-one`
/// towards one.
proof fn lemma_arrowhead_words(c: Cardinality)
    ensures
        arrowhead_text(c) == (if c == Cardinality::Many { "cf-many"@ } else { "cf-one"@ }),
{
}

/// A merged edge's D2 text joins its two entities with both fields as label,
/// and ends with its arrowheads: the source arrowhead is `cf-many` exactly
/// when the right-to-left relationship is to many, the target arrowhead
/// `cf-many` exactly when the left-to-right one is, and each is `cf-one`
/// otherwise.
pub proof fn lemma_d2_merged_edge_text(edge: MergedEdgeView, rev: EdgeSideView)
    ensures
        seq_starts_with(
            D2Renderer.bidirectional_text(edge, rev),
            key_text(edge.left) + " -- "@ + key_text(edge.right) + ": "@ + value_text(edge.left_to_right.field_name)
                + " / "@ + value_text(rev.field_name) + " {\n"@,
        ),
        seq_ends_with(
            D2Renderer.bidirectional_text(edge, rev),
            "  source-arrowhead.shape: "@ + (if rev.cardinality == Cardinality::Many {
                "cf-many"@
            } else {
                "cf-one"@
            }) + "\n"@ + "  target-arrowhead.shape: "@ + (if edge.left_to_right.cardinality == Cardinality::Many {
                "cf-many"@
            } else {
                "cf-one"@
            }) + "\n"@ + "}\n"@,
        ),
{
    lemma_arrowhead_words(rev.cardinality);
    lemma_arrowhead_words(edge.left_to_right.cardinality);
    let head = key_text(edge.left) + " -- "@ + key_text(edge.right) + ": "@ + value_text(edge.left_to_right.field_name)
        + " / "@ + value_text(rev.field_name) + " {\n"@;
    let tail = "  source-arrowhead.shape: "@ + arrowhead_text(rev.cardinality) + "\n"@ + "  target-arrowhead.shape: "@
        + arrowhead_text(edge.left_to_right.cardinality) + "\n"@ + "}\n"@;
    assert(D2Renderer.bidirectional_text(edge, rev) =~= head + tail);
    lemma_concat_starts_ends(head, tail);
}

/// Every merged edge of a schema is drawn in its D2 document by a text that
/// joins its entities, labels both fields, and carries its two arrowheads.
pub proof fn lemma_d2_document_merged_edges(schema: SchemaView, show_attributes: bool, m: int)
    requires
        0 <= m < deduplicated(schema).len(),
        deduplicated(schema)[m].right_to_left is Some,
    ensures
        ({
            let e = deduplicated(schema)[m];
            let rev = e.right_to_left->Some_0;
            exists|t: Seq<char>|
                #[trigger] contains_text(document_text(D2Renderer, schema, show_attributes), t) && seq_starts_with(
                    t,
                    key_text(e.left) + " -- "@ + key_text(e.right) + ": "@ + value_text(e.left_to_right.field_name)
                        + " / "@ + value_text(rev.field_name) + " {\n"@,
                ) && seq_ends_with(
                    t,
                    "  source-arrowhead.shape: "@ + (if rev.cardinality == Cardinality::Many {
                        "cf-many"@
                    } else {
                        "cf-one"@
                    }) + "\n"@ + "  target-arrowhead.shape: "@ + (if e.left_to_right.cardinality == Cardinality::Many {
                        "cf-many"@
                    } else {
                        "cf-one"@
                    }) + "\n"@ + "}\n"@,
                )
        }),
{
    let e = deduplicated(schema)[m];
    let rev = e.right_to_left->Some_0;
    lemma_document_has_edge(D2Renderer, schema, show_attributes, m);
    lemma_d2_merged_edge_text(e, rev);
    let t = D2Renderer.bidirectional_text(e, rev);
    assert(contains_text(document_text(D2Renderer, schema, show_attributes), t));
}

} // verus!
