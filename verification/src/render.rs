//! shared rendering utilities
//!
//! the [`Renderer`] trait plus [`render_document`] driver that every diagram
//! format is built on, along with the escaping and type-display helpers they
//! share.

use vstd::prelude::*;
use crate::dedup::{deduplicate, deduplicated, edges_view, EdgeSide, EdgeSideView, MergedEdge, MergedEdgeView};
use crate::error::Error;
use crate::parse::{enum_values_of, AttributeView, Cardinality, EntityView, EnumView, Schema, SchemaView};
use crate::text::{append_mapped, map_chars, mapped, join_strings, seq_join, CharRule};

verus! {

/// The display type of an attribute: an enum type with values lists them,
/// separated by `sep`, `Type(A,B,C)`; any other type is its bare name.
pub open spec fn attribute_type_text(enums: Seq<EnumView>, attr_type: Seq<char>, sep: Seq<char>) -> Seq<char> {
    match enum_values_of(enums, attr_type) {
        Some(values) => if values.len() > 0 {
            attr_type + "("@ + seq_join(values, sep) + ")"@
        } else {
            attr_type
        },
        None => attr_type,
    }
}

/// An attribute's display type, with enum values separated by `sep`.
fn type_display_with(schema: &Schema, attr_type: &str, sep: &str) -> (res: String)
    ensures
        res@ == attribute_type_text(schema@.enums, attr_type@, sep@),
{
    match schema.enum_values(attr_type) {
        Some(values) => {
            if values.len() > 0 {
                let mut out = crate::text::to_owned_string(attr_type);
                out.append("(");
                let joined = join_strings(values, sep);
                out.append(joined.as_str());
                out.append(")");
                out
            } else {
                crate::text::to_owned_string(attr_type)
            }
        },
        None => crate::text::to_owned_string(attr_type),
    }
}

/// compose an attribute's display type, appending enum values when the type
/// names an enum defined in the schema.
///
/// enum-typed attributes render as `Type(A,B,C)` so every format surfaces the
/// allowed values in order. non-enum types — and enums with no values — return
/// the bare type name unchanged, so existing output and edge cases stay stable.
/// the result is unescaped; callers pass it through their own escaping helper.
pub fn attribute_type_display(schema: &Schema, attr_type: &str) -> (res: String)
    ensures
        res@ == attribute_type_text(schema@.enums, attr_type@, ","@),
{
    type_display_with(schema, attr_type, ",")
}

/// escape a string by replacing double quotes with single quotes.
///
/// used by formats (mermaid, plantuml) that quote strings with `"` and
/// have no backslash-escape mechanism.
pub fn escape_quotes(s: &str) -> (res: String)
    ensures
        res@ == map_chars(CharRule::Quotes, s@),
{
    mapped(s, CharRule::Quotes)
}

/// sanitize a string for use in unquoted attribute positions.
///
/// attribute lines in mermaid and plantuml are not wrapped in quotes, so
/// curly braces must be replaced to avoid breaking entity block syntax.
/// double quotes are replaced with single quotes as in [`escape_quotes`].
pub fn escape_attr(s: &str) -> (res: String)
    ensures
        res@ == map_chars(CharRule::Attr, s@),
{
    mapped(s, CharRule::Attr)
}

/// a diagram format expressed as a set of emit hooks.
///
/// [`render_document`] owns the shared control flow — the document preamble,
/// the entity walk, the single [`deduplicate`] pass over relationships, the
/// inheritance edges, and the trailer — and calls these hooks to emit each
/// piece in the format's own syntax. every hook appends to the output buffer
/// and applies the format's own escaping to the names it emits; the spec
/// functions say what each hook appends.
pub trait Renderer {
    /// the document preamble.
    spec fn header_text(&self) -> Seq<char>;

    /// the document trailer.
    spec fn footer_text(&self) -> Seq<char>;

    /// the opening of an entity block.
    spec fn entity_open_text(&self, name: Seq<char>, with_attributes: bool) -> Seq<char>;

    /// one attribute row.
    spec fn attribute_line_text(&self, name: Seq<char>, type_display: Seq<char>) -> Seq<char>;

    /// the closing of an entity block.
    spec fn entity_close_text(&self, with_attributes: bool) -> Seq<char>;

    /// a merged bidirectional edge.
    spec fn bidirectional_text(&self, edge: MergedEdgeView, rev: EdgeSideView) -> Seq<char>;

    /// a unidirectional edge.
    spec fn unidirectional_text(&self, edge: MergedEdgeView) -> Seq<char>;

    /// an inheritance edge from an implementor to a generic.
    spec fn inheritance_text(&self, child: Seq<char>, parent: Seq<char>) -> Seq<char>;

    /// what separates the values of an enum in an attribute's type.
    spec fn value_separator_text(&self) -> Seq<char>;

    /// the separator between the values of an enum in an attribute's type.
    fn value_separator(&self) -> (res: &'static str)
        ensures
            res@ == self.value_separator_text(),
    ;

    /// emit the document preamble (before any entity).
    fn document_header(&self, out: &mut String)
        ensures
            final(out)@ == old(out)@ + self.header_text(),
    ;

    /// emit the document trailer (after all edges).
    fn document_footer(&self, out: &mut String)
        ensures
            final(out)@ == old(out)@ + self.footer_text(),
    ;

    /// open an entity block for `name`. `with_attributes` is true when the
    /// driver will follow with one or more [`attribute_line`](Self::attribute_line)
    /// calls, letting formats emit a compact form for attribute-less entities.
    fn entity_open(&self, out: &mut String, name: &str, with_attributes: bool)
        ensures
            final(out)@ == old(out)@ + self.entity_open_text(name@, with_attributes),
    ;

    /// emit one attribute row inside the open entity block.
    fn attribute_line(&self, out: &mut String, name: &str, type_display: &str)
        ensures
            final(out)@ == old(out)@ + self.attribute_line_text(name@, type_display@),
    ;

    /// close the entity block opened by [`entity_open`](Self::entity_open);
    /// `with_attributes` mirrors the value passed there.
    fn entity_close(&self, out: &mut String, with_attributes: bool)
        ensures
            final(out)@ == old(out)@ + self.entity_close_text(with_attributes),
    ;

    /// emit a merged bidirectional edge, with `rev` as the right-to-left side.
    fn edge_bidirectional(&self, out: &mut String, edge: &MergedEdge, rev: &EdgeSide)
        ensures
            final(out)@ == old(out)@ + self.bidirectional_text(edge@, rev@),
    ;

    /// emit a unidirectional edge (`edge.left` → `edge.right`).
    fn edge_unidirectional(&self, out: &mut String, edge: &MergedEdge)
        ensures
            final(out)@ == old(out)@ + self.unidirectional_text(edge@),
    ;

    /// emit an inheritance edge from `child` to the generic `parent`.
    fn inheritance_edge(&self, out: &mut String, child: &str, parent: &str)
        ensures
            final(out)@ == old(out)@ + self.inheritance_text(child@, parent@),
    ;
}

/// The attribute rows of an entity.
pub open spec fn attribute_lines<R: Renderer>(r: R, enums: Seq<EnumView>, attrs: Seq<AttributeView>) -> Seq<char>
    decreases attrs.len(),
{
    if attrs.len() == 0 {
        Seq::empty()
    } else {
        attribute_lines(r, enums, attrs.drop_last()) + r.attribute_line_text(
            attrs.last().name,
            attribute_type_text(enums, attrs.last().attr_type, r.value_separator_text()),
        )
    }
}

/// The block of one entity: its attribute rows appear when attributes are
/// shown and the entity has any.
pub open spec fn entity_block<R: Renderer>(r: R, enums: Seq<EnumView>, e: EntityView, show_attributes: bool) -> Seq<char> {
    let with_attributes = show_attributes && e.attributes.len() > 0;
    r.entity_open_text(e.name, with_attributes) + (if with_attributes {
        attribute_lines(r, enums, e.attributes)
    } else {
        Seq::empty()
    }) + r.entity_close_text(with_attributes)
}

/// The blocks of a sequence of entities.
pub open spec fn entity_blocks<R: Renderer>(r: R, enums: Seq<EnumView>, entities: Seq<EntityView>, show_attributes: bool) -> Seq<char>
    decreases entities.len(),
{
    if entities.len() == 0 {
        Seq::empty()
    } else {
        entity_blocks(r, enums, entities.drop_last(), show_attributes) + entity_block(
            r,
            enums,
            entities.last(),
            show_attributes,
        )
    }
}

/// The text of one edge.
pub open spec fn edge_text<R: Renderer>(r: R, e: MergedEdgeView) -> Seq<char> {
    match e.right_to_left {
        Some(rev) => r.bidirectional_text(e, rev),
        None => r.unidirectional_text(e),
    }
}

/// The text of a sequence of edges.
pub open spec fn edge_lines<R: Renderer>(r: R, edges: Seq<MergedEdgeView>) -> Seq<char>
    decreases edges.len(),
{
    if edges.len() == 0 {
        Seq::empty()
    } else {
        edge_lines(r, edges.drop_last()) + edge_text(r, edges.last())
    }
}

/// The inheritance edges from `child` to each of `parents`.
pub open spec fn parent_lines<R: Renderer>(r: R, child: Seq<char>, parents: Seq<Seq<char>>) -> Seq<char>
    decreases parents.len(),
{
    if parents.len() == 0 {
        Seq::empty()
    } else {
        parent_lines(r, child, parents.drop_last()) + r.inheritance_text(child, parents.last())
    }
}

/// The inheritance edges of a sequence of entities.
pub open spec fn inheritance_lines<R: Renderer>(r: R, entities: Seq<EntityView>) -> Seq<char>
    decreases entities.len(),
{
    if entities.len() == 0 {
        Seq::empty()
    } else {
        inheritance_lines(r, entities.drop_last()) + parent_lines(
            r,
            entities.last().name,
            entities.last().implements,
        )
    }
}

/// The document that a renderer makes of a schema: the preamble, one block
/// per entity, one edge per deduplicated relationship edge, one inheritance
/// edge per implemented generic, and the trailer.
pub open spec fn document_text<R: Renderer>(r: R, schema: SchemaView, show_attributes: bool) -> Seq<char> {
    r.header_text() + entity_blocks(r, schema.enums, schema.entities, show_attributes) + edge_lines(
        r,
        deduplicated(schema),
    ) + inheritance_lines(r, schema.entities) + r.footer_text()
}

/// render a schema into a diagram string using `renderer`'s format hooks.
///
/// walks the entities once and the deduplicated edges once, so adding a format
/// or changing the entity/edge skeleton is a change to this one driver rather
/// than to every renderer.
pub fn render_document<R: Renderer>(renderer: &R, schema: &Schema, show_attributes: bool) -> (res: Result<String, Error>)
    ensures
        res matches Ok(s) && s@ == document_text(*renderer, schema@, show_attributes),
{
    let ghost sv = schema@;
    let ghost ents = sv.entities;
    let mut out = String::new();
    renderer.document_header(&mut out);
    let ghost after_header = out@;
    let mut i: usize = 0;
    assert(ents.take(0) =~= Seq::<EntityView>::empty());
    assert(after_header + entity_blocks(*renderer, sv.enums, ents.take(0), show_attributes) =~= after_header);
    while i < schema.entities.len()
        invariant
            sv == schema@,
            ents == sv.entities,
            i <= ents.len(),
            out@ == after_header + entity_blocks(*renderer, sv.enums, ents.take(i as int), show_attributes),
        decreases ents.len() - i,
    {
        let entity = &schema.entities[i];
        assert(entity@ == ents[i as int]);
        let ghost before = out@;
        let with_attributes = show_attributes && entity.attributes.len() > 0;
        renderer.entity_open(&mut out, entity.name.as_str(), with_attributes);
        if with_attributes {
            let ghost attrs = entity@.attributes;
            let ghost start = out@;
            let mut j: usize = 0;
            assert(attrs.take(0) =~= Seq::<AttributeView>::empty());
            assert(start + attribute_lines(*renderer, sv.enums, attrs.take(0)) =~= start);
            while j < entity.attributes.len()
                invariant
                    sv == schema@,
                    entity@ == ents[i as int],
                    attrs == entity@.attributes,
                    j <= attrs.len(),
                    out@ == start + attribute_lines(*renderer, sv.enums, attrs.take(j as int)),
                decreases attrs.len() - j,
            {
                let attr = &entity.attributes[j];
                assert(attr@ == attrs[j as int]);
                let type_display = type_display_with(schema, attr.attr_type.as_str(), renderer.value_separator());
                renderer.attribute_line(&mut out, attr.name.as_str(), type_display.as_str());
                assert(attrs.take(j + 1).drop_last() =~= attrs.take(j as int));
                assert(attrs.take(j + 1).last() == attrs[j as int]);
                assert(out@ =~= start + attribute_lines(*renderer, sv.enums, attrs.take(j + 1)));
                j += 1;
            }
            assert(attrs.take(attrs.len() as int) =~= attrs);
        }
        renderer.entity_close(&mut out, with_attributes);
        assert(ents.take(i + 1).drop_last() =~= ents.take(i as int));
        assert(ents.take(i + 1).last() == ents[i as int]);
        assert(out@ =~= after_header + entity_blocks(*renderer, sv.enums, ents.take(i + 1), show_attributes));
        i += 1;
    }
    assert(ents.take(ents.len() as int) =~= ents);
    let ghost after_entities = out@;
    let edges = deduplicate(schema);
    let ghost ev = edges_view(edges@);
    let mut k: usize = 0;
    assert(ev.take(0) =~= Seq::<MergedEdgeView>::empty());
    assert(after_entities + edge_lines(*renderer, ev.take(0)) =~= after_entities);
    while k < edges.len()
        invariant
            ev == edges_view(edges@),
            k <= ev.len(),
            out@ == after_entities + edge_lines(*renderer, ev.take(k as int)),
        decreases ev.len() - k,
    {
        let edge = &edges[k];
        assert(edge@ == ev[k as int]);
        match &edge.right_to_left {
            Some(rev) => renderer.edge_bidirectional(&mut out, edge, rev),
            None => renderer.edge_unidirectional(&mut out, edge),
        }
        assert(ev.take(k + 1).drop_last() =~= ev.take(k as int));
        assert(ev.take(k + 1).last() == ev[k as int]);
        assert(out@ =~= after_entities + edge_lines(*renderer, ev.take(k + 1)));
        k += 1;
    }
    assert(ev.take(ev.len() as int) =~= ev);
    let ghost after_edges = out@;
    let mut i: usize = 0;
    assert(after_edges + inheritance_lines(*renderer, ents.take(0)) =~= after_edges);
    while i < schema.entities.len()
        invariant
            sv == schema@,
            ents == sv.entities,
            i <= ents.len(),
            out@ == after_edges + inheritance_lines(*renderer, ents.take(i as int)),
        decreases ents.len() - i,
    {
        let entity = &schema.entities[i];
        assert(entity@ == ents[i as int]);
        let ghost parents = entity@.implements;
        let ghost start = out@;
        let mut j: usize = 0;
        assert(parents.take(0) =~= Seq::<Seq<char>>::empty());
        assert(start + parent_lines(*renderer, entity@.name, parents.take(0)) =~= start);
        while j < entity.implements.len()
            invariant
                entity@ == ents[i as int],
                parents == entity@.implements,
                j <= parents.len(),
                out@ == start + parent_lines(*renderer, entity@.name, parents.take(j as int)),
            decreases parents.len() - j,
        {
            renderer.inheritance_edge(&mut out, entity.name.as_str(), entity.implements[j].as_str());
            assert(parents[j as int] == entity.implements@[j as int]@);
            assert(parents.take(j + 1).drop_last() =~= parents.take(j as int));
            assert(parents.take(j + 1).last() == parents[j as int]);
            assert(out@ =~= start + parent_lines(*renderer, entity@.name, parents.take(j + 1)));
            j += 1;
        }
        assert(parents.take(parents.len() as int) =~= parents);
        assert(ents.take(i + 1).drop_last() =~= ents.take(i as int));
        assert(ents.take(i + 1).last() == ents[i as int]);
        assert(out@ =~= after_edges + inheritance_lines(*renderer, ents.take(i + 1)));
        i += 1;
    }
    renderer.document_footer(&mut out);
    assert(out@ =~= document_text(*renderer, sv, show_attributes));
    Ok(out)
}

/// The crow's-foot mark at the left end of a merged edge.
pub open spec fn left_mark(c: Cardinality) -> Seq<char> {
    match c {
        Cardinality::One => "||"@,
        Cardinality::Many => "}o"@,
    }
}

/// The crow's-foot mark at the right end of a merged edge.
pub open spec fn right_mark(c: Cardinality) -> Seq<char> {
    match c {
        Cardinality::One => "||"@,
        Cardinality::Many => "o{"@,
    }
}

/// The crow's-foot connector of a unidirectional edge.
pub open spec fn unidirectional_mark(c: Cardinality) -> Seq<char> {
    match c {
        Cardinality::One => "||--||"@,
        Cardinality::Many => "||--o{"@,
    }
}

/// A merged edge in crow's-foot notation: `"A" ||--o{ "B" : "fwd / rev"`.
pub open spec fn crowsfoot_bidirectional_text(edge: MergedEdgeView, rev: EdgeSideView) -> Seq<char> {
    "    \""@ + map_chars(CharRule::Quotes, edge.left) + "\" "@ + left_mark(rev.cardinality) + "--"@
        + right_mark(edge.left_to_right.cardinality) + " \""@ + map_chars(CharRule::Quotes, edge.right)
        + "\" : \""@ + map_chars(CharRule::Quotes, edge.left_to_right.field_name) + " / "@ + map_chars(
        CharRule::Quotes,
        rev.field_name,
    ) + "\"\n"@
}

/// A unidirectional edge in crow's-foot notation: `"A" ||--|| "B" : "field"`.
pub open spec fn crowsfoot_unidirectional_text(edge: MergedEdgeView) -> Seq<char> {
    "    \""@ + map_chars(CharRule::Quotes, edge.left) + "\" "@ + unidirectional_mark(
        edge.left_to_right.cardinality,
    ) + " \""@ + map_chars(CharRule::Quotes, edge.right) + "\" : \""@ + map_chars(
        CharRule::Quotes,
        edge.left_to_right.field_name,
    ) + "\"\n"@
}

/// emit a merged bidirectional edge in crow's-foot notation, shared by mermaid
/// and plantuml.
///
/// the combined label is `fwd / rev`; entity names and field labels are escaped
/// with [`escape_quotes`].
pub fn crowsfoot_edge_bidirectional(out: &mut String, edge: &MergedEdge, rev: &EdgeSide)
    ensures
        final(out)@ == old(out)@ + crowsfoot_bidirectional_text(edge@, rev@),
{
    let ghost start = out@;
    let left_card = match rev.cardinality {
        Cardinality::One => "||",
        Cardinality::Many => "}o",
    };
    let right_card = match edge.left_to_right.cardinality {
        Cardinality::One => "||",
        Cardinality::Many => "o{",
    };
    out.append("    \"");
    append_mapped(out, edge.left.as_str(), CharRule::Quotes);
    out.append("\" ");
    out.append(left_card);
    out.append("--");
    out.append(right_card);
    out.append(" \"");
    append_mapped(out, edge.right.as_str(), CharRule::Quotes);
    out.append("\" : \"");
    append_mapped(out, edge.left_to_right.field_name.as_str(), CharRule::Quotes);
    out.append(" / ");
    append_mapped(out, rev.field_name.as_str(), CharRule::Quotes);
    out.append("\"\n");
    assert(out@ =~= start + crowsfoot_bidirectional_text(edge@, rev@));
}

/// emit a unidirectional edge in crow's-foot notation, shared by mermaid and
/// plantuml.
///
/// entity names and the field label are escaped with [`escape_quotes`].
pub fn crowsfoot_edge_unidirectional(out: &mut String, edge: &MergedEdge)
    ensures
        final(out)@ == old(out)@ + crowsfoot_unidirectional_text(edge@),
{
    let ghost start = out@;
    let cardinality = match edge.left_to_right.cardinality {
        Cardinality::One => "||--||",
        Cardinality::Many => "||--o{",
    };
    out.append("    \"");
    append_mapped(out, edge.left.as_str(), CharRule::Quotes);
    out.append("\" ");
    out.append(cardinality);
    out.append(" \"");
    append_mapped(out, edge.right.as_str(), CharRule::Quotes);
    out.append("\" : \"");
    append_mapped(out, edge.left_to_right.field_name.as_str(), CharRule::Quotes);
    out.append("\"\n");
    assert(out@ =~= start + crowsfoot_unidirectional_text(edge@));
}


/// The schema with every entity's attributes removed.
pub open spec fn without_attributes(schema: SchemaView) -> SchemaView {
    SchemaView {
        entities: schema.entities.map_values(|e: EntityView| EntityView { attributes: Seq::empty(), ..e }),
        enums: schema.enums,
    }
}

proof fn lemma_flat_relationships_ignore_attributes(entities: Seq<EntityView>)
    ensures
        crate::dedup::flat_relationships(
            entities.map_values(|e: EntityView| EntityView { attributes: Seq::empty(), ..e }),
        ) == crate::dedup::flat_relationships(entities),
    decreases entities.len(),
{
    let m = entities.map_values(|e: EntityView| EntityView { attributes: Seq::empty(), ..e });
    if entities.len() > 0 {
        lemma_flat_relationships_ignore_attributes(entities.drop_last());
        assert(m.drop_last() =~= entities.drop_last().map_values(
            |e: EntityView| EntityView { attributes: Seq::empty(), ..e },
        ));
        assert(m.last().name == entities.last().name);
        assert(m.last().relationships == entities.last().relationships);
    }
}

proof fn lemma_blocks_without_attributes<R: Renderer>(r: R, enums: Seq<EnumView>, entities: Seq<EntityView>)
    ensures
        entity_blocks(
            r,
            enums,
            entities.map_values(|e: EntityView| EntityView { attributes: Seq::empty(), ..e }),
            true,
        ) == entity_blocks(r, enums, entities, false),
    decreases entities.len(),
{
    let m = entities.map_values(|e: EntityView| EntityView { attributes: Seq::empty(), ..e });
    if entities.len() > 0 {
        lemma_blocks_without_attributes(r, enums, entities.drop_last());
        assert(m.drop_last() =~= entities.drop_last().map_values(
            |e: EntityView| EntityView { attributes: Seq::empty(), ..e },
        ));
        assert(m.last().name == entities.last().name);
        assert(m.last().attributes.len() == 0);
    }
}

proof fn lemma_inheritance_without_attributes<R: Renderer>(r: R, entities: Seq<EntityView>)
    ensures
        inheritance_lines(
            r,
            entities.map_values(|e: EntityView| EntityView { attributes: Seq::empty(), ..e }),
        ) == inheritance_lines(r, entities),
    decreases entities.len(),
{
    let m = entities.map_values(|e: EntityView| EntityView { attributes: Seq::empty(), ..e });
    if entities.len() > 0 {
        lemma_inheritance_without_attributes(r, entities.drop_last());
        assert(m.drop_last() =~= entities.drop_last().map_values(
            |e: EntityView| EntityView { attributes: Seq::empty(), ..e },
        ));
        assert(m.last().name == entities.last().name);
        assert(m.last().implements == entities.last().implements);
    }
}

/// Hiding attributes draws exactly the diagram of the same schema stripped of
/// its attributes, attributes shown: the entities, edges and inheritance
/// edges stay as they are.
pub proof fn lemma_hidden_attributes<R: Renderer>(r: R, schema: SchemaView)
    ensures
        document_text(r, schema, false) == document_text(r, without_attributes(schema), true),
{
    let stripped = without_attributes(schema);
    lemma_flat_relationships_ignore_attributes(schema.entities);
    lemma_blocks_without_attributes(r, schema.enums, schema.entities);
    lemma_inheritance_without_attributes(r, schema.entities);
    assert(deduplicated(stripped) == deduplicated(schema));
}


/// Every inheritance edge of a sequence of entities as a (child, generic)
/// pair: one per generic each entity implements, in entity order.
pub open spec fn inheritance_pairs(entities: Seq<EntityView>) -> Seq<(Seq<char>, Seq<char>)>
    decreases entities.len(),
{
    if entities.len() == 0 {
        Seq::empty()
    } else {
        inheritance_pairs(entities.drop_last()) + entities.last().implements.map_values(
            |p: Seq<char>| (entities.last().name, p),
        )
    }
}

/// The text of a sequence of inheritance edges.
pub open spec fn pair_lines<R: Renderer>(r: R, pairs: Seq<(Seq<char>, Seq<char>)>) -> Seq<char>
    decreases pairs.len(),
{
    if pairs.len() == 0 {
        Seq::empty()
    } else {
        pair_lines(r, pairs.drop_last()) + r.inheritance_text(pairs.last().0, pairs.last().1)
    }
}

proof fn lemma_pair_lines_concat<R: Renderer>(r: R, a: Seq<(Seq<char>, Seq<char>)>, b: Seq<(Seq<char>, Seq<char>)>)
    ensures
        pair_lines(r, a + b) == pair_lines(r, a) + pair_lines(r, b),
    decreases b.len(),
{
    if b.len() == 0 {
        assert(a + b =~= a);
        assert(pair_lines(r, a) + pair_lines(r, b) =~= pair_lines(r, a));
    } else {
        lemma_pair_lines_concat(r, a, b.drop_last());
        assert((a + b).drop_last() =~= a + b.drop_last());
        assert((a + b).last() == b.last());
        assert(pair_lines(r, a + b) =~= pair_lines(r, a) + pair_lines(r, b));
    }
}

proof fn lemma_parent_lines_pairs<R: Renderer>(r: R, child: Seq<char>, parents: Seq<Seq<char>>)
    ensures
        parent_lines(r, child, parents) == pair_lines(r, parents.map_values(|p: Seq<char>| (child, p))),
    decreases parents.len(),
{
    if parents.len() > 0 {
        lemma_parent_lines_pairs(r, child, parents.drop_last());
        let m = parents.map_values(|p: Seq<char>| (child, p));
        assert(m.drop_last() =~= parents.drop_last().map_values(|p: Seq<char>| (child, p)));
        assert(m.last() == (child, parents.last()));
    }
}

proof fn lemma_inheritance_lines_pairs<R: Renderer>(r: R, entities: Seq<EntityView>)
    ensures
        inheritance_lines(r, entities) == pair_lines(r, inheritance_pairs(entities)),
    decreases entities.len(),
{
    if entities.len() > 0 {
        let e = entities.last();
        lemma_inheritance_lines_pairs(r, entities.drop_last());
        lemma_parent_lines_pairs(r, e.name, e.implements);
        lemma_pair_lines_concat(
            r,
            inheritance_pairs(entities.drop_last()),
            e.implements.map_values(|p: Seq<char>| (e.name, p)),
        );
    }
}

/// Whether or not attributes are shown, a document ends with one inheritance
/// edge per generic that each entity implements, in entity order, and then
/// the trailer.
pub proof fn lemma_inheritance_edges<R: Renderer>(r: R, schema: SchemaView, show_attributes: bool)
    ensures
        ({
            let doc = document_text(r, schema, show_attributes);
            let tail = pair_lines(r, inheritance_pairs(schema.entities)) + r.footer_text();
            &&& tail.len() <= doc.len()
            &&& doc.subrange(doc.len() - tail.len(), doc.len() as int) == tail
        }),
{
    lemma_inheritance_lines_pairs(r, schema.entities);
    let head = r.header_text() + entity_blocks(r, schema.enums, schema.entities, show_attributes) + edge_lines(
        r,
        deduplicated(schema),
    );
    let tail = pair_lines(r, inheritance_pairs(schema.entities)) + r.footer_text();
    let doc = document_text(r, schema, show_attributes);
    assert(doc =~= head + tail);
    assert(doc.subrange(doc.len() - tail.len(), doc.len() as int) =~= tail);
}


/// `t` stands somewhere in `doc`, as consecutive characters.
pub open spec fn contains_text(doc: Seq<char>, t: Seq<char>) -> bool {
    exists|k: int| 0 <= k && k + t.len() <= doc.len() && #[trigger] doc.subrange(k, k + t.len()) == t
}

proof fn lemma_contains_left(a: Seq<char>, b: Seq<char>, t: Seq<char>)
    requires
        contains_text(a, t),
    ensures
        contains_text(a + b, t),
{
    let k = choose|k: int| 0 <= k && k + t.len() <= a.len() && #[trigger] a.subrange(k, k + t.len()) == t;
    assert((a + b).subrange(k, k + t.len()) =~= a.subrange(k, k + t.len()));
}

proof fn lemma_contains_right(a: Seq<char>, b: Seq<char>, t: Seq<char>)
    requires
        contains_text(b, t),
    ensures
        contains_text(a + b, t),
{
    let k = choose|k: int| 0 <= k && k + t.len() <= b.len() && #[trigger] b.subrange(k, k + t.len()) == t;
    assert((a + b).subrange(a.len() + k, a.len() + k + t.len()) =~= b.subrange(k, k + t.len()));
}

proof fn lemma_contains_self(t: Seq<char>)
    ensures
        contains_text(t, t),
{
    let k: int = 0;
    assert(t.subrange(k, k + t.len()) =~= t);
}

proof fn lemma_pair_lines_contains<R: Renderer>(r: R, pairs: Seq<(Seq<char>, Seq<char>)>, m: int)
    requires
        0 <= m < pairs.len(),
    ensures
        contains_text(pair_lines(r, pairs), r.inheritance_text(pairs[m].0, pairs[m].1)),
    decreases pairs.len(),
{
    let t = r.inheritance_text(pairs[m].0, pairs[m].1);
    if m == pairs.len() - 1 {
        lemma_contains_self(t);
        lemma_contains_right(pair_lines(r, pairs.drop_last()), t, t);
    } else {
        lemma_pair_lines_contains(r, pairs.drop_last(), m);
        assert(pairs.drop_last()[m] == pairs[m]);
        lemma_contains_left(
            pair_lines(r, pairs.drop_last()),
            r.inheritance_text(pairs.last().0, pairs.last().1),
            t,
        );
    }
}

proof fn lemma_inheritance_pairs_has(entities: Seq<EntityView>, i: int, j: int)
    requires
        0 <= i < entities.len(),
        0 <= j < entities[i].implements.len(),
    ensures
        inheritance_pairs(entities).contains((entities[i].name, entities[i].implements[j])),
    decreases entities.len(),
{
    let prev = entities.drop_last();
    let e = entities.last();
    let m = e.implements.map_values(|p: Seq<char>| (e.name, p));
    let ps = inheritance_pairs(prev);
    if i == entities.len() - 1 {
        assert((ps + m)[ps.len() + j] == m[j]);
    } else {
        lemma_inheritance_pairs_has(prev, i, j);
        assert(prev[i] == entities[i]);
        let k = choose|k: int| 0 <= k < ps.len() && ps[k] == (entities[i].name, entities[i].implements[j]);
        assert((ps + m)[k] == ps[k]);
    }
}

/// For every entity and every generic it implements, the document holds that
/// inheritance edge, whether or not attributes are shown.
pub proof fn lemma_document_has_inheritance<R: Renderer>(r: R, schema: SchemaView, show_attributes: bool, i: int, j: int)
    requires
        0 <= i < schema.entities.len(),
        0 <= j < schema.entities[i].implements.len(),
    ensures
        contains_text(
            document_text(r, schema, show_attributes),
            r.inheritance_text(schema.entities[i].name, schema.entities[i].implements[j]),
        ),
{
    let ents = schema.entities;
    let pairs = inheritance_pairs(ents);
    let t = r.inheritance_text(ents[i].name, ents[i].implements[j]);
    lemma_inheritance_pairs_has(ents, i, j);
    let m = choose|m: int| 0 <= m < pairs.len() && pairs[m] == (ents[i].name, ents[i].implements[j]);
    lemma_pair_lines_contains(r, pairs, m);
    lemma_inheritance_lines_pairs(r, ents);
    let head = r.header_text() + entity_blocks(r, schema.enums, ents, show_attributes) + edge_lines(
        r,
        deduplicated(schema),
    );
    lemma_contains_right(head, inheritance_lines(r, ents), t);
    lemma_contains_left(head + inheritance_lines(r, ents), r.footer_text(), t);
}

proof fn lemma_edge_lines_contains<R: Renderer>(r: R, edges: Seq<MergedEdgeView>, m: int)
    requires
        0 <= m < edges.len(),
    ensures
        contains_text(edge_lines(r, edges), edge_text(r, edges[m])),
    decreases edges.len(),
{
    let t = edge_text(r, edges[m]);
    if m == edges.len() - 1 {
        lemma_contains_self(t);
        lemma_contains_right(edge_lines(r, edges.drop_last()), t, t);
    } else {
        lemma_edge_lines_contains(r, edges.drop_last(), m);
        assert(edges.drop_last()[m] == edges[m]);
        lemma_contains_left(edge_lines(r, edges.drop_last()), edge_text(r, edges.last()), t);
    }
}

/// Every deduplicated edge is drawn in the document: a merged one by the
/// renderer's bidirectional text, any other by its unidirectional text.
pub proof fn lemma_document_has_edge<R: Renderer>(r: R, schema: SchemaView, show_attributes: bool, m: int)
    requires
        0 <= m < deduplicated(schema).len(),
    ensures
        contains_text(document_text(r, schema, show_attributes), edge_text(r, deduplicated(schema)[m])),
{
    let t = edge_text(r, deduplicated(schema)[m]);
    lemma_edge_lines_contains(r, deduplicated(schema), m);
    let head = r.header_text() + entity_blocks(r, schema.enums, schema.entities, show_attributes);
    lemma_contains_right(head, edge_lines(r, deduplicated(schema)), t);
    lemma_contains_left(head + edge_lines(r, deduplicated(schema)), inheritance_lines(r, schema.entities), t);
    lemma_contains_left(
        head + edge_lines(r, deduplicated(schema)) + inheritance_lines(r, schema.entities),
        r.footer_text(),
        t,
    );
}

} // verus!
