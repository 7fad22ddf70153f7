//! GraphQL schema extraction.
//!
//! Extracts entity types, attributes, relationships and enums from an infrahub
//! GraphQL SDL document.

use vstd::prelude::*;
use crate::error::Error;
use crate::order::{sorted_by, strictly_sorted, sorted_names, insert_name, lemma_sorted_names_of, insert_stable,
    sort_stable, lemma_insert_stable_at};
use crate::sdl::{SdlDefinition, SdlDefinitionView, SdlField, SdlFieldView, SdlKind, ParsedSdl,
    defs_view, read_definitions, sdl_document, parsed_definitions, parses_without_panic,
    check_parses_without_panic};
use crate::text::{seq_starts_with, seq_ends_with, seq_lt, str_eq, starts_with, ends_with, str_lt,
    to_owned_string, copy_string, clone_strings, contains_str, strings_view};

verus! {

/// Relationship cardinality.
#[derive(Debug, Clone, Copy, PartialEq, Eq, Structural)]
pub enum Cardinality {
    One,
    Many,
}

/// A scalar attribute on an entity.
#[derive(Debug)]
pub struct Attribute {
    pub name: String,
    pub attr_type: String,
}

/// A relationship from an entity to another entity.
#[derive(Debug)]
pub struct Relationship {
    pub field_name: String,
    pub target: String,
    pub cardinality: Cardinality,
}

/// A model entity extracted from the GraphQL schema.
#[derive(Debug)]
pub struct Entity {
    pub name: String,
    pub attributes: Vec<Attribute>,
    pub relationships: Vec<Relationship>,
    /// generics this entity implements, restricted to the ones drawn
    pub implements: Vec<String>,
}

/// A GraphQL enum type and its ordered list of allowed values.
#[derive(Debug)]
pub struct EnumType {
    pub name: String,
    pub values: Vec<String>,
}

/// A parsed schema: its entities and its enums.
#[derive(Debug)]
pub struct Schema {
    pub entities: Vec<Entity>,
    pub enums: Vec<EnumType>,
}

#[verifier::ext_equal]
pub struct AttributeView {
    pub name: Seq<char>,
    pub attr_type: Seq<char>,
}

#[verifier::ext_equal]
pub struct RelationshipView {
    pub field_name: Seq<char>,
    pub target: Seq<char>,
    pub cardinality: Cardinality,
}

#[verifier::ext_equal]
pub struct EntityView {
    pub name: Seq<char>,
    pub attributes: Seq<AttributeView>,
    pub relationships: Seq<RelationshipView>,
    pub implements: Seq<Seq<char>>,
}

#[verifier::ext_equal]
pub struct EnumView {
    pub name: Seq<char>,
    pub values: Seq<Seq<char>>,
}

#[verifier::ext_equal]
pub struct SchemaView {
    pub entities: Seq<EntityView>,
    pub enums: Seq<EnumView>,
}

impl View for Attribute {
    type V = AttributeView;

    open spec fn view(&self) -> AttributeView {
        AttributeView { name: self.name@, attr_type: self.attr_type@ }
    }
}

impl View for Relationship {
    type V = RelationshipView;

    open spec fn view(&self) -> RelationshipView {
        RelationshipView { field_name: self.field_name@, target: self.target@, cardinality: self.cardinality }
    }
}

impl View for Entity {
    type V = EntityView;

    open spec fn view(&self) -> EntityView {
        EntityView {
            name: self.name@,
            attributes: self.attributes@.map_values(|a: Attribute| a@),
            relationships: self.relationships@.map_values(|r: Relationship| r@),
            implements: strings_view(self.implements@),
        }
    }
}

impl View for EnumType {
    type V = EnumView;

    open spec fn view(&self) -> EnumView {
        EnumView { name: self.name@, values: strings_view(self.values@) }
    }
}

impl View for Schema {
    type V = SchemaView;

    open spec fn view(&self) -> SchemaView {
        SchemaView {
            entities: self.entities@.map_values(|e: Entity| e@),
            enums: self.enums@.map_values(|e: EnumType| e@),
        }
    }
}

/// The index of the first enum named `name`, if any.
pub open spec fn enum_index(enums: Seq<EnumView>, name: Seq<char>) -> Option<int>
    decreases enums.len(),
{
    if enums.len() == 0 {
        None
    } else if enums[0].name == name {
        Some(0)
    } else {
        match enum_index(enums.drop_first(), name) {
            Some(i) => Some(i + 1),
            None => None,
        }
    }
}

/// The values of the first enum named `name`, if any.
pub open spec fn enum_values_of(enums: Seq<EnumView>, name: Seq<char>) -> Option<Seq<Seq<char>>> {
    match enum_index(enums, name) {
        Some(i) => Some(enums[i].values),
        None => None,
    }
}


/// The last definition of `kind` named `name`: a later definition of a name
/// replaces an earlier one.
pub open spec fn last_definition(defs: Seq<SdlDefinitionView>, kind: SdlKind, name: Seq<char>) -> Option<
    SdlDefinitionView,
>
    decreases defs.len(),
{
    if defs.len() == 0 {
        None
    } else if defs.last().kind == kind && defs.last().name == name {
        Some(defs.last())
    } else {
        last_definition(defs.drop_last(), kind, name)
    }
}

/// The object type named `name`.
pub open spec fn object_def(defs: Seq<SdlDefinitionView>, name: Seq<char>) -> Option<SdlDefinitionView> {
    last_definition(defs, SdlKind::Object, name)
}

/// The interface type named `name`.
pub open spec fn interface_def(defs: Seq<SdlDefinitionView>, name: Seq<char>) -> Option<SdlDefinitionView> {
    last_definition(defs, SdlKind::Interface, name)
}

/// Root types, attribute wrappers, and edge/connection wrappers, by name.
pub open spec fn excluded_type_name(name: Seq<char>) -> bool {
    ||| name == "Query"@
    ||| name == "Mutation"@
    ||| name == "Subscription"@
    ||| name == "PageInfo"@
    ||| seq_ends_with(name, "Attribute"@)
    ||| seq_starts_with(name, "NestedEdged"@)
    ||| seq_starts_with(name, "NestedPaginated"@)
    ||| seq_starts_with(name, "Edged"@)
    ||| seq_starts_with(name, "Paginated"@)
}

/// An interface name that may stand for an infrahub generic.
pub open spec fn generic_candidate_name(name: Seq<char>) -> bool {
    name != "AttributeInterface"@ && !excluded_type_name(name)
}

/// Fields every infrahub node carries.
pub open spec fn infrastructure_field(name: Seq<char>) -> bool {
    name == "id"@ || name == "display_label"@ || name == "hfid"@
}

/// Fields infrahub puts on every node to link it to a generic.
pub open spec fn universal_generic_field(name: Seq<char>) -> bool {
    name == "member_of_groups"@ || name == "subscriber_of_groups"@ || name == "profiles"@
}

/// The interface every infrahub node implements.
pub open spec fn is_universal_interface(name: Seq<char>) -> bool {
    name == "CoreNode"@
}

/// The type implements `CoreNode` or `CoreGroup`.
pub open spec fn has_node_interface(d: SdlDefinitionView) -> bool {
    d.implements.contains("CoreNode"@) || d.implements.contains("CoreGroup"@)
}

/// An object type that implements `AttributeInterface`.
pub open spec fn attribute_wrapper(defs: Seq<SdlDefinitionView>, name: Seq<char>) -> bool {
    match object_def(defs, name) {
        Some(o) => o.implements.contains("AttributeInterface"@),
        None => false,
    }
}

/// Some object type of the schema implements `CoreNode` or `CoreGroup`.
pub open spec fn schema_has_node_interfaces(defs: Seq<SdlDefinitionView>) -> bool {
    exists|i: int|
        0 <= i < defs.len() && defs[i].kind == SdlKind::Object && has_node_interface(
            #[trigger] object_def(defs, defs[i].name)->Some_0,
        )
}

/// The type has a field named `id`.
pub open spec fn carries_id_field(d: SdlDefinitionView) -> bool {
    exists|j: int| 0 <= j < d.fields.len() && #[trigger] d.fields[j].name == "id"@
}

/// An object type that is a model entity.
pub open spec fn concrete_entity(defs: Seq<SdlDefinitionView>, name: Seq<char>) -> bool {
    match object_def(defs, name) {
        Some(o) => {
            &&& !excluded_type_name(name)
            &&& !attribute_wrapper(defs, name)
            &&& if schema_has_node_interfaces(defs) {
                has_node_interface(o)
            } else {
                carries_id_field(o)
            }
        },
        None => false,
    }
}

/// An interface type that may stand for an infrahub generic.
pub open spec fn generic_candidate(defs: Seq<SdlDefinitionView>, name: Seq<char>) -> bool {
    interface_def(defs, name) is Some && generic_candidate_name(name)
}

/// The fields of the object type, else of the interface type, named `name`.
pub open spec fn type_fields(defs: Seq<SdlDefinitionView>, name: Seq<char>) -> Seq<SdlFieldView> {
    match object_def(defs, name) {
        Some(o) => o.fields,
        None => match interface_def(defs, name) {
            Some(i) => i.fields,
            None => Seq::empty(),
        },
    }
}

/// The interfaces that the object type, else the interface type, named
/// `name` implements.
pub open spec fn type_implements(defs: Seq<SdlDefinitionView>, name: Seq<char>) -> Seq<Seq<char>> {
    match object_def(defs, name) {
        Some(o) => o.implements,
        None => match interface_def(defs, name) {
            Some(i) => i.implements,
            None => Seq::empty(),
        },
    }
}

/// The named type at the core of a type reference: `[Status!]!` names `Status`.
pub open spec fn base_type_name(t: Seq<char>) -> Seq<char>
    decreases t.len(),
{
    if t.len() > 0 && t.last() == '!' {
        base_type_name(t.drop_last())
    } else if t.len() >= 2 && t[0] == '[' && t.last() == ']' {
        base_type_name(t.subrange(1, t.len() - 1))
    } else {
        t
    }
}

/// A type reference that is a list, possibly non-null.
pub open spec fn is_list_type_text(t: Seq<char>) -> bool
    decreases t.len(),
{
    if t.len() > 0 && t.last() == '!' {
        is_list_type_text(t.drop_last())
    } else {
        t.len() >= 2 && t[0] == '[' && t.last() == ']'
    }
}

/// `t` is `prefix` followed by a known name.
pub open spec fn wraps_known(t: Seq<char>, prefix: Seq<char>, known: Set<Seq<char>>) -> bool {
    seq_starts_with(t, prefix) && known.contains(t.skip(prefix.len() as int))
}

/// The relationship target and cardinality that a type name stands for:
/// a known name itself, or a known name behind a connection prefix, tried in
/// the order `NestedPaginated`, `NestedEdged`, `Paginated`, `Edged`, `Related`.
pub open spec fn relationship_target(t: Seq<char>, known: Set<Seq<char>>) -> Option<(Seq<char>, Cardinality)> {
    if known.contains(t) {
        Some((t, Cardinality::One))
    } else if wraps_known(t, "NestedPaginated"@, known) {
        Some((t.skip("NestedPaginated"@.len() as int), Cardinality::Many))
    } else if wraps_known(t, "NestedEdged"@, known) {
        Some((t.skip("NestedEdged"@.len() as int), Cardinality::One))
    } else if wraps_known(t, "Paginated"@, known) {
        Some((t.skip("Paginated"@.len() as int), Cardinality::Many))
    } else if wraps_known(t, "Edged"@, known) {
        Some((t.skip("Edged"@.len() as int), Cardinality::One))
    } else if wraps_known(t, "Related"@, known) {
        Some((t.skip("Related"@.len() as int), Cardinality::One))
    } else {
        None
    }
}

/// The names a generic can be reached through: concrete entities and
/// generic candidates.
pub open spec fn reachable_types(defs: Seq<SdlDefinitionView>) -> Set<Seq<char>> {
    Set::new(|n: Seq<char>| concrete_entity(defs, n) || generic_candidate(defs, n))
}

/// The field is a relationship to the generic candidate `target`.
pub open spec fn field_points_at_generic(defs: Seq<SdlDefinitionView>, f: SdlFieldView, target: Seq<char>) -> bool {
    &&& !infrastructure_field(f.name)
    &&& !universal_generic_field(f.name)
    &&& relationship_target(base_type_name(f.type_text), reachable_types(defs)) matches Some((t, _))
    &&& t == target
    &&& generic_candidate(defs, target)
}

/// Some field of the type `source` is a relationship to the generic `target`.
pub open spec fn references_generic(defs: Seq<SdlDefinitionView>, source: Seq<char>, target: Seq<char>) -> bool {
    exists|j: int|
        0 <= j < type_fields(defs, source).len() && field_points_at_generic(
            defs,
            #[trigger] type_fields(defs, source)[j],
            target,
        )
}

/// `g` holds generic candidates only, and every generic that a concrete
/// entity or a member of `g` points at.
pub open spec fn generics_closed(defs: Seq<SdlDefinitionView>, g: Set<Seq<char>>) -> bool {
    &&& forall|n: Seq<char>| #[trigger] g.contains(n) ==> generic_candidate(defs, n)
    &&& forall|s: Seq<char>, t: Seq<char>|
        (concrete_entity(defs, s) || g.contains(s)) && #[trigger] references_generic(defs, s, t)
            ==> g.contains(t)
}

/// The generics that the diagram draws: the least closed set, that is, the
/// generics some concrete entity reaches through relationships, directly or
/// through other generics.
pub open spec fn drawn_generics(defs: Seq<SdlDefinitionView>) -> Set<Seq<char>> {
    choose|g: Set<Seq<char>>|
        generics_closed(defs, g) && forall|h: Set<Seq<char>>| #[trigger]
            generics_closed(defs, h) ==> g.subset_of(h)
}

/// The names of the entities that the schema yields.
pub open spec fn entity_names(defs: Seq<SdlDefinitionView>) -> Set<Seq<char>> {
    Set::new(|n: Seq<char>| concrete_entity(defs, n) || drawn_generics(defs).contains(n))
}

/// Some enum type of the schema is named `name`.
pub open spec fn enum_type_name(defs: Seq<SdlDefinitionView>, name: Seq<char>) -> bool {
    exists|i: int| 0 <= i < defs.len() && defs[i].kind == SdlKind::Enum && #[trigger] defs[i].name == name
}

/// A type name that looks like an attribute wrapper.
pub open spec fn attribute_type_name(defs: Seq<SdlDefinitionView>, t: Seq<char>) -> bool {
    seq_ends_with(t, "Attribute"@) || attribute_wrapper(defs, t)
}

/// The relationship that a field yields, if any.
pub open spec fn field_relationship(defs: Seq<SdlDefinitionView>, f: SdlFieldView) -> Option<RelationshipView> {
    if infrastructure_field(f.name) {
        None
    } else {
        match relationship_target(base_type_name(f.type_text), entity_names(defs)) {
            Some((target, c)) => if drawn_generics(defs).contains(target) && universal_generic_field(f.name) {
                None
            } else {
                Some(
                    RelationshipView {
                        field_name: f.name,
                        target: target,
                        cardinality: if is_list_type_text(f.type_text) {
                            Cardinality::Many
                        } else {
                            c
                        },
                    },
                )
            },
            None => None,
        }
    }
}

/// The attribute that a field yields, if any: a field that is no
/// relationship and whose type is an attribute wrapper or an enum.
pub open spec fn field_attribute(defs: Seq<SdlDefinitionView>, f: SdlFieldView) -> Option<AttributeView> {
    let base = base_type_name(f.type_text);
    if infrastructure_field(f.name) || relationship_target(base, entity_names(defs)) is Some {
        None
    } else if attribute_type_name(defs, base) || enum_type_name(defs, base) {
        Some(AttributeView { name: f.name, attr_type: base })
    } else {
        None
    }
}

/// The relationships of a sequence of fields, in field order.
pub open spec fn collect_relationships(defs: Seq<SdlDefinitionView>, fields: Seq<SdlFieldView>) -> Seq<RelationshipView>
    decreases fields.len(),
{
    if fields.len() == 0 {
        Seq::empty()
    } else {
        collect_relationships(defs, fields.drop_last()) + match field_relationship(defs, fields.last()) {
            Some(r) => seq![r],
            None => Seq::empty(),
        }
    }
}

/// The attributes of a sequence of fields, in field order.
pub open spec fn collect_attributes(defs: Seq<SdlDefinitionView>, fields: Seq<SdlFieldView>) -> Seq<AttributeView>
    decreases fields.len(),
{
    if fields.len() == 0 {
        Seq::empty()
    } else {
        collect_attributes(defs, fields.drop_last()) + match field_attribute(defs, fields.last()) {
            Some(a) => seq![a],
            None => Seq::empty(),
        }
    }
}

/// The drawn generics that the type `name` implements, other than `CoreNode`,
/// sorted and without repeats.
pub open spec fn generics_of(defs: Seq<SdlDefinitionView>, name: Seq<char>) -> Seq<Seq<char>> {
    sorted_names(
        Set::new(
            |x: Seq<char>|
                type_implements(defs, name).contains(x) && drawn_generics(defs).contains(x)
                    && !is_universal_interface(x),
        ),
    )
}

/// The entity that the type `name` yields.
pub open spec fn entity_model(defs: Seq<SdlDefinitionView>, name: Seq<char>) -> EntityView {
    EntityView {
        name: name,
        attributes: collect_attributes(defs, type_fields(defs, name)),
        relationships: collect_relationships(defs, type_fields(defs, name)),
        implements: generics_of(defs, name),
    }
}

/// The enum types of the schema, in declaration order.
pub open spec fn enum_models(defs: Seq<SdlDefinitionView>) -> Seq<EnumView>
    decreases defs.len(),
{
    if defs.len() == 0 {
        Seq::empty()
    } else {
        enum_models(defs.drop_last()) + if defs.last().kind == SdlKind::Enum {
            seq![EnumView { name: defs.last().name, values: defs.last().values }]
        } else {
            Seq::empty()
        }
    }
}

/// Orders enums by name.
pub open spec fn enum_name_lt() -> spec_fn(EnumView, EnumView) -> bool {
    |a: EnumView, b: EnumView| seq_lt(a.name, b.name)
}

/// The schema that a sequence of definitions yields: the entities sorted by
/// name, and the enums sorted stably by name.
pub open spec fn schema_model(defs: Seq<SdlDefinitionView>) -> SchemaView {
    SchemaView {
        entities: sorted_names(entity_names(defs)).map_values(|n: Seq<char>| entity_model(defs, n)),
        enums: sort_stable(enum_models(defs), enum_name_lt()),
    }
}


/// What every schema built from a document satisfies: entity names strictly
/// increasing (so none repeats), every relationship and inheritance edge
/// pointing at an entity of the schema, no inheritance edge pointing at
/// `CoreNode`, each entity's inheritance edges strictly increasing, and the
/// enums ordered by name.
pub open spec fn schema_well_formed(s: SchemaView) -> bool {
    let names = s.entities.map_values(|e: EntityView| e.name);
    &&& strictly_sorted(names)
    &&& forall|i: int, j: int|
        0 <= i < s.entities.len() && 0 <= j < s.entities[i].relationships.len() ==> names.contains(
            #[trigger] s.entities[i].relationships[j].target,
        )
    &&& forall|i: int, j: int|
        0 <= i < s.entities.len() && 0 <= j < s.entities[i].implements.len() ==> names.contains(
            #[trigger] s.entities[i].implements[j],
        ) && !is_universal_interface(s.entities[i].implements[j])
    &&& forall|i: int| 0 <= i < s.entities.len() ==> strictly_sorted(#[trigger] s.entities[i].implements)
    &&& sorted_by(s.enums, enum_name_lt())
}

/// Every relationship a sequence of fields yields points at an entity.
proof fn lemma_collect_relationships_targets(defs: Seq<SdlDefinitionView>, fields: Seq<SdlFieldView>)
    ensures
        forall|j: int|
            0 <= j < collect_relationships(defs, fields).len() ==> entity_names(defs).contains(
                #[trigger] collect_relationships(defs, fields)[j].target,
            ),
    decreases fields.len(),
{
    if fields.len() > 0 {
        let prev = fields.drop_last();
        lemma_collect_relationships_targets(defs, prev);
        let c = collect_relationships(defs, fields);
        let f = fields.last();
        assert forall|j: int| 0 <= j < c.len() implies entity_names(defs).contains(#[trigger] c[j].target) by {
            if j < collect_relationships(defs, prev).len() {
                assert(c[j] == collect_relationships(defs, prev)[j]);
            }
        }
    }
}

/// The fields infrahub puts on every node (`member_of_groups`,
/// `subscriber_of_groups`, `profiles`) never become a relationship to a
/// drawn generic, in any entity.
pub proof fn lemma_universal_fields_not_drawn(defs: Seq<SdlDefinitionView>, name: Seq<char>)
    ensures
        forall|j: int|
            0 <= j < entity_model(defs, name).relationships.len() ==> !(universal_generic_field(
                (#[trigger] entity_model(defs, name).relationships[j]).field_name,
            ) && drawn_generics(defs).contains(entity_model(defs, name).relationships[j].target)),
{
    lemma_universal_fields_not_drawn_in(defs, type_fields(defs, name));
}

proof fn lemma_universal_fields_not_drawn_in(defs: Seq<SdlDefinitionView>, fields: Seq<SdlFieldView>)
    ensures
        forall|j: int|
            0 <= j < collect_relationships(defs, fields).len() ==> !(universal_generic_field(
                (#[trigger] collect_relationships(defs, fields)[j]).field_name,
            ) && drawn_generics(defs).contains(collect_relationships(defs, fields)[j].target)),
    decreases fields.len(),
{
    if fields.len() > 0 {
        let prev = fields.drop_last();
        lemma_universal_fields_not_drawn_in(defs, prev);
        let c = collect_relationships(defs, fields);
        assert forall|j: int| 0 <= j < c.len() implies !(universal_generic_field((#[trigger] c[j]).field_name)
            && drawn_generics(defs).contains(c[j].target)) by {
            if j < collect_relationships(defs, prev).len() {
                assert(c[j] == collect_relationships(defs, prev)[j]);
            }
        }
    }
}

/// The generics that every closed set holds.
spec fn least_closed(defs: Seq<SdlDefinitionView>) -> Set<Seq<char>> {
    Set::new(|n: Seq<char>| forall|h: Set<Seq<char>>| #[trigger] generics_closed(defs, h) ==> h.contains(n))
}

/// The drawn generics are the least closed set: one exists for every
/// document.
pub proof fn lemma_drawn_generics_least(defs: Seq<SdlDefinitionView>)
    ensures
        generics_closed(defs, drawn_generics(defs)),
        forall|h: Set<Seq<char>>| #[trigger] generics_closed(defs, h) ==> drawn_generics(defs).subset_of(h),
{
    let all = Set::new(|n: Seq<char>| generic_candidate(defs, n));
    assert(generics_closed(defs, all));
    let g = least_closed(defs);
    assert forall|n: Seq<char>| #[trigger] g.contains(n) implies generic_candidate(defs, n) by {
        assert(generics_closed(defs, all) ==> all.contains(n));
    }
    assert forall|src: Seq<char>, t: Seq<char>|
        (concrete_entity(defs, src) || g.contains(src)) && #[trigger] references_generic(defs, src, t) implies g.contains(t) by {
        assert forall|h: Set<Seq<char>>| #[trigger] generics_closed(defs, h) implies h.contains(t) by {
            if g.contains(src) {
                assert(h.contains(src));
            }
        }
    }
    assert(generics_closed(defs, g));
    assert forall|h: Set<Seq<char>>| #[trigger] generics_closed(defs, h) implies g.subset_of(h) by {}
}

/// Entities come from object and interface types only: a name that neither
/// an object type nor an interface type carries, such as an enum's, is never
/// an entity.
pub proof fn lemma_entities_are_types(defs: Seq<SdlDefinitionView>, name: Seq<char>)
    requires
        entity_names(defs).contains(name),
    ensures
        object_def(defs, name) is Some || interface_def(defs, name) is Some,
{
    lemma_drawn_generics_least(defs);
}

/// A list type is a list whatever its element type: `[u]` and `[u]!` both
/// are, nullable or not; a type that does not begin with `[`, bare or
/// non-null, is no list.
pub proof fn lemma_list_type_shapes(u: Seq<char>, t: Seq<char>)
    ensures
        is_list_type_text(seq!['['] + u + seq![']']),
        is_list_type_text(seq!['['] + u + seq![']', '!']),
        t.len() == 0 || t[0] != '[' ==> !is_list_type_text(t),
    decreases t.len(),
{
    let l = seq!['['] + u + seq![']'];
    assert(l[0] == '[' && l.last() == ']');
    assert(is_list_type_text(l));
    let lb = seq!['['] + u + seq![']', '!'];
    assert(lb.len() > 0 && lb.last() == '!');
    assert(lb.drop_last() =~= l);
    assert(is_list_type_text(lb) == is_list_type_text(lb.drop_last()));
    if t.len() > 0 && t[0] != '[' && t.last() == '!' {
        if t.len() > 1 {
            lemma_list_type_shapes(u, t.drop_last());
        }
    }
}

/// A field whose type is a list, `[u]` or `[u]!`, and that yields a
/// relationship, yields a relationship to many.
pub proof fn lemma_list_fields_are_many(defs: Seq<SdlDefinitionView>, f: SdlFieldView, u: Seq<char>)
    requires
        f.type_text == seq!['['] + u + seq![']'] || f.type_text == seq!['['] + u + seq![']', '!'],
    ensures
        field_relationship(defs, f) matches Some(r) ==> r.cardinality == Cardinality::Many,
{
    lemma_list_type_shapes(u, Seq::empty());
}

/// A field whose type does not begin with `[` (a named type, bare or
/// non-null) and that yields a relationship keeps the cardinality its type
/// name gives: to many through a paginated connection, to one otherwise.
pub proof fn lemma_named_fields_keep_cardinality(defs: Seq<SdlDefinitionView>, f: SdlFieldView)
    requires
        f.type_text.len() == 0 || f.type_text[0] != '[',
    ensures
        field_relationship(defs, f) matches Some(r) ==> relationship_target(
            base_type_name(f.type_text),
            entity_names(defs),
        ) matches Some((_, c)) && r.cardinality == c,
{
    lemma_list_type_shapes(Seq::empty(), f.type_text);
}

/// A definition found by `last_definition` stands in the sequence.
pub proof fn lemma_last_definition_index(defs: Seq<SdlDefinitionView>, kind: SdlKind, name: Seq<char>)
    requires
        last_definition(defs, kind, name) is Some,
    ensures
        exists|i: int|
            0 <= i < defs.len() && defs[i] == last_definition(defs, kind, name)->Some_0 && defs[i].kind
                == kind && defs[i].name == name,
    decreases defs.len(),
{
    if defs.last().kind == kind && defs.last().name == name {
        assert(defs[defs.len() - 1] == defs.last());
    } else {
        lemma_last_definition_index(defs.drop_last(), kind, name);
        let i = choose|i: int|
            0 <= i < defs.drop_last().len() && defs.drop_last()[i] == last_definition(
                defs.drop_last(),
                kind,
                name,
            )->Some_0 && defs.drop_last()[i].kind == kind && defs.drop_last()[i].name == name;
        assert(defs[i] == defs.drop_last()[i]);
    }
}

/// The index of the last definition of `kind` named `name`.
fn find_last(defs: &Vec<SdlDefinition>, kind: SdlKind, name: &str) -> (res: Option<usize>)
    ensures
        match res {
            Some(i) => i < defs@.len() && last_definition(defs_view(defs@), kind, name@) == Some(
                defs_view(defs@)[i as int],
            ),
            None => last_definition(defs_view(defs@), kind, name@) is None,
        },
{
    let ghost dv = defs_view(defs@);
    let mut i = defs.len();
    assert(dv.take(i as int) =~= dv);
    while i > 0
        invariant
            i <= defs@.len(),
            dv == defs_view(defs@),
            last_definition(dv, kind, name@) == last_definition(dv.take(i as int), kind, name@),
        decreases i,
    {
        i -= 1;
        assert(dv.take(i + 1).drop_last() =~= dv.take(i as int));
        assert(dv.take(i + 1).last() == dv[i as int]);
        if defs[i].kind == kind && str_eq(defs[i].name.as_str(), name) {
            return Some(i);
        }
    }
    None
}

/// Whether `name` is a root type, attribute wrapper, or edge/connection wrapper name.
fn is_excluded_name(name: &str) -> (res: bool)
    ensures
        res == excluded_type_name(name@),
{
    str_eq(name, "Query") || str_eq(name, "Mutation") || str_eq(name, "Subscription") || str_eq(
        name,
        "PageInfo",
    ) || ends_with(name, "Attribute") || starts_with(name, "NestedEdged") || starts_with(
        name,
        "NestedPaginated",
    ) || starts_with(name, "Edged") || starts_with(name, "Paginated")
}

/// Whether an interface named `name` may stand in for an infrahub generic.
fn is_generic_candidate_name(name: &str) -> (res: bool)
    ensures
        res == generic_candidate_name(name@),
{
    !str_eq(name, "AttributeInterface") && !is_excluded_name(name)
}

/// Whether `name` is a field every infrahub node carries.
fn is_infrastructure_field(name: &str) -> (res: bool)
    ensures
        res == infrastructure_field(name@),
{
    str_eq(name, "id") || str_eq(name, "display_label") || str_eq(name, "hfid")
}

/// Whether `name` is a field infrahub puts on every node to link it to a generic.
fn is_universal_generic_field(name: &str) -> (res: bool)
    ensures
        res == universal_generic_field(name@),
{
    str_eq(name, "member_of_groups") || str_eq(name, "subscriber_of_groups") || str_eq(name, "profiles")
}

/// Whether the type implements `CoreNode` or `CoreGroup`.
fn implements_node_interface(d: &SdlDefinition) -> (res: bool)
    ensures
        res == has_node_interface(d@),
{
    contains_str(&d.implements, "CoreNode") || contains_str(&d.implements, "CoreGroup")
}

/// Whether an object type named `name` implements `AttributeInterface`.
fn is_attribute_wrapper(defs: &Vec<SdlDefinition>, name: &str) -> (res: bool)
    ensures
        res == attribute_wrapper(defs_view(defs@), name@),
{
    match find_last(defs, SdlKind::Object, name) {
        Some(i) => contains_str(&defs[i].implements, "AttributeInterface"),
        None => false,
    }
}

/// Whether some object type of the schema implements `CoreNode` or `CoreGroup`.
fn has_node_interfaces(defs: &Vec<SdlDefinition>) -> (res: bool)
    ensures
        res == schema_has_node_interfaces(defs_view(defs@)),
{
    let ghost dv = defs_view(defs@);
    let mut i: usize = 0;
    while i < defs.len()
        invariant
            i <= defs@.len(),
            dv == defs_view(defs@),
            forall|k: int|
                0 <= k < i && dv[k].kind == SdlKind::Object ==> !has_node_interface(
                    #[trigger] object_def(dv, dv[k].name)->Some_0,
                ),
        decreases defs@.len() - i,
    {
        if defs[i].kind == SdlKind::Object {
            match find_last(defs, SdlKind::Object, defs[i].name.as_str()) {
                Some(j) => {
                    if implements_node_interface(&defs[j]) {
                        return true;
                    }
                },
                None => {
                    assert(last_definition(dv, SdlKind::Object, dv[i as int].name) is Some) by {
                        lemma_last_definition_has(dv, i as int);
                    }
                },
            }
        }
        i += 1;
    }
    false
}

/// A definition of a kind and name makes `last_definition` find one.
pub proof fn lemma_last_definition_has(defs: Seq<SdlDefinitionView>, i: int)
    requires
        0 <= i < defs.len(),
    ensures
        last_definition(defs, defs[i].kind, defs[i].name) is Some,
    decreases defs.len(),
{
    if i < defs.len() - 1 && !(defs.last().kind == defs[i].kind && defs.last().name == defs[i].name) {
        assert(defs.drop_last()[i] == defs[i]);
        lemma_last_definition_has(defs.drop_last(), i);
    }
}

/// Whether the type has a field named `id`.
fn has_id_field(d: &SdlDefinition) -> (res: bool)
    ensures
        res == carries_id_field(d@),
{
    let mut j: usize = 0;
    while j < d.fields.len()
        invariant
            j <= d.fields@.len(),
            forall|k: int| 0 <= k < j ==> d@.fields[k].name != "id"@,
        decreases d.fields@.len() - j,
    {
        if str_eq(d.fields[j].name.as_str(), "id") {
            assert(d@.fields[j as int].name == "id"@);
            return true;
        }
        j += 1;
    }
    false
}

/// Whether the object type named `name` is a model entity.
fn is_concrete_entity(defs: &Vec<SdlDefinition>, name: &str, has_node: bool) -> (res: bool)
    requires
        has_node == schema_has_node_interfaces(defs_view(defs@)),
    ensures
        res == concrete_entity(defs_view(defs@), name@),
{
    match find_last(defs, SdlKind::Object, name) {
        Some(i) => {
            if is_excluded_name(name) || is_attribute_wrapper(defs, name) {
                false
            } else if has_node {
                implements_node_interface(&defs[i])
            } else {
                has_id_field(&defs[i])
            }
        },
        None => false,
    }
}

/// Whether the interface type named `name` may stand in for a generic.
fn is_generic_candidate(defs: &Vec<SdlDefinition>, name: &str) -> (res: bool)
    ensures
        res == generic_candidate(defs_view(defs@), name@),
{
    find_last(defs, SdlKind::Interface, name).is_some() && is_generic_candidate_name(name)
}

/// The index of the definition whose fields and interfaces the type `name`
/// carries: its object type, else its interface type.
fn type_definition(defs: &Vec<SdlDefinition>, name: &str) -> (res: Option<usize>)
    ensures
        match res {
            Some(i) => i < defs@.len() && type_fields(defs_view(defs@), name@) == defs_view(defs@)[i as int].fields
                && type_implements(defs_view(defs@), name@) == defs_view(defs@)[i as int].implements,
            None => type_fields(defs_view(defs@), name@) == Seq::<SdlFieldView>::empty()
                && type_implements(defs_view(defs@), name@) == Seq::<Seq<char>>::empty(),
        },
{
    match find_last(defs, SdlKind::Object, name) {
        Some(i) => Some(i),
        None => find_last(defs, SdlKind::Interface, name),
    }
}

/// The named type at the core of a type reference.
fn unwrap_type_name(t: &str) -> (res: String)
    ensures
        res@ == base_type_name(t@),
{
    let n = t.unicode_len();
    let mut i: usize = 0;
    let mut j: usize = n;
    assert(t@.subrange(0, n as int) =~= t@);
    while j > i
        invariant
            n == t@.len(),
            i <= j <= n,
            base_type_name(t@) == base_type_name(t@.subrange(i as int, j as int)),
        ensures
            i <= j <= n,
            base_type_name(t@) == base_type_name(t@.subrange(i as int, j as int)),
            base_type_name(t@.subrange(i as int, j as int)) == t@.subrange(i as int, j as int),
        decreases j - i,
    {
        let last = t.get_char(j - 1);
        let ghost sub = t@.subrange(i as int, j as int);
        if last == '!' {
            assert(sub.drop_last() =~= t@.subrange(i as int, j - 1));
            j -= 1;
        } else if j - i >= 2 && t.get_char(i) == '[' && last == ']' {
            assert(sub.subrange(1, sub.len() - 1) =~= t@.subrange(i + 1, j - 1));
            i += 1;
            j -= 1;
        } else {
            assert(base_type_name(sub) == sub);
            break;
        }
    }
    to_owned_string(t.substring_char(i, j))
}

/// Whether a type reference is a list, possibly non-null.
fn is_list_type(t: &str) -> (res: bool)
    ensures
        res == is_list_type_text(t@),
{
    let n = t.unicode_len();
    let mut j: usize = n;
    assert(t@.subrange(0, n as int) =~= t@);
    while j > 0 && t.get_char(j - 1) == '!'
        invariant
            n == t@.len(),
            j <= n,
            is_list_type_text(t@) == is_list_type_text(t@.subrange(0, j as int)),
        decreases j,
    {
        assert(t@.subrange(0, j as int).drop_last() =~= t@.subrange(0, j - 1));
        j -= 1;
    }
    j >= 2 && t.get_char(0) == '[' && t.get_char(j - 1) == ']'
}


/// The rest of `t` after `prefix`, where that rest is a known name.
fn strip_known(t: &str, prefix: &str, known: &Vec<String>) -> (res: Option<String>)
    ensures
        match res {
            Some(rest) => wraps_known(t@, prefix@, strings_view(known@).to_set()) && rest@ == t@.skip(
                prefix@.len() as int,
            ),
            None => !wraps_known(t@, prefix@, strings_view(known@).to_set()),
        },
{
    if starts_with(t, prefix) {
        let rest = t.substring_char(prefix.unicode_len(), t.unicode_len());
        assert(rest@ =~= t@.skip(prefix@.len() as int));
        if contains_str(known, rest) {
            Some(to_owned_string(rest))
        } else {
            None
        }
    } else {
        None
    }
}

/// resolve a field type to a relationship target, if applicable
fn resolve_relationship(t: &str, known: &Vec<String>) -> (res: Option<(String, Cardinality)>)
    ensures
        match res {
            Some((target, c)) => relationship_target(t@, strings_view(known@).to_set()) == Some(
                (target@, c),
            ),
            None => relationship_target(t@, strings_view(known@).to_set()) is None,
        },
{
    if contains_str(known, t) {
        return Some((to_owned_string(t), Cardinality::One));
    }
    if let Some(rest) = strip_known(t, "NestedPaginated", known) {
        return Some((rest, Cardinality::Many));
    }
    if let Some(rest) = strip_known(t, "NestedEdged", known) {
        return Some((rest, Cardinality::One));
    }
    if let Some(rest) = strip_known(t, "Paginated", known) {
        return Some((rest, Cardinality::Many));
    }
    if let Some(rest) = strip_known(t, "Edged", known) {
        return Some((rest, Cardinality::One));
    }
    if let Some(rest) = strip_known(t, "Related", known) {
        return Some((rest, Cardinality::One));
    }
    None
}

/// The views of a vector of names, as a set.
pub open spec fn name_set(v: Seq<String>) -> Set<Seq<char>> {
    strings_view(v).to_set()
}

/// The generic that a field points at, if it is a relationship to one.
fn field_generic_target(defs: &Vec<SdlDefinition>, f: &SdlField, reachable: &Vec<String>) -> (res: Option<String>)
    requires
        name_set(reachable@) == reachable_types(defs_view(defs@)),
    ensures
        match res {
            Some(t) => field_points_at_generic(defs_view(defs@), f@, t@),
            None => forall|t: Seq<char>| !field_points_at_generic(defs_view(defs@), f@, t),
        },
{
    if is_infrastructure_field(f.name.as_str()) || is_universal_generic_field(f.name.as_str()) {
        return None;
    }
    let base = unwrap_type_name(f.type_text.as_str());
    match resolve_relationship(base.as_str(), reachable) {
        Some((target, _)) => {
            if is_generic_candidate(defs, target.as_str()) {
                Some(target)
            } else {
                None
            }
        },
        None => None,
    }
}

/// Strictly sorted names are free of repeats.
pub proof fn lemma_strictly_sorted_no_duplicates(s: Seq<Seq<char>>)
    requires
        strictly_sorted(s),
    ensures
        s.no_duplicates(),
{
    assert forall|i: int, j: int| 0 <= i < s.len() && 0 <= j < s.len() && i != j implies s[i] != s[j] by {
        if i < j {
            assert(seq_lt(s[i], s[j]));
        } else {
            assert(seq_lt(s[j], s[i]));
        }
        crate::text::lemma_seq_lt_irreflexive(s[i]);
    }
}

/// There are no more generic candidates than definitions.
proof fn lemma_candidates_bounded(defs: Seq<SdlDefinitionView>, sel: Seq<Seq<char>>)
    requires
        strictly_sorted(sel),
        forall|n: Seq<char>| #[trigger] sel.contains(n) ==> generic_candidate(defs, n),
    ensures
        sel.len() <= defs.len(),
{
    broadcast use vstd::seq_lib::seq_to_set_is_finite;
    let names = defs.map_values(|d: SdlDefinitionView| d.name);
    assert forall|n: Seq<char>| sel.to_set().contains(n) implies names.to_set().contains(n) by {
        assert(sel.contains(n));
        lemma_last_definition_index(defs, SdlKind::Interface, n);
        let i = choose|i: int|
            0 <= i < defs.len() && defs[i] == last_definition(defs, SdlKind::Interface, n)->Some_0
                && defs[i].kind == SdlKind::Interface && defs[i].name == n;
        assert(names[i] == n);
    }
    lemma_strictly_sorted_no_duplicates(sel);
    sel.unique_seq_to_set();
    names.lemma_cardinality_of_set();
    vstd::set_lib::lemma_len_subset(sel.to_set(), names.to_set());
}

/// select the generics that some entity's relationship field points at, to a
/// fixed point: a selected generic's own fields may target further generics.
fn referenced_generics(defs: &Vec<SdlDefinition>, concrete: &Vec<String>, reachable: &Vec<String>) -> (res: Vec<String>)
    requires
        name_set(concrete@) == Set::new(|n: Seq<char>| concrete_entity(defs_view(defs@), n)),
        name_set(reachable@) == reachable_types(defs_view(defs@)),
    ensures
        strictly_sorted(strings_view(res@)),
        name_set(res@) == drawn_generics(defs_view(defs@)),
{
    let ghost dv = defs_view(defs@);
    let mut selected: Vec<String> = Vec::new();
    let mut frontier: Vec<String> = clone_strings(concrete);
    assert(name_set(selected@) =~= Set::<Seq<char>>::empty());
    while frontier.len() > 0
        invariant
            dv == defs_view(defs@),
            name_set(reachable@) == reachable_types(dv),
            strictly_sorted(strings_view(selected@)),
            forall|n: Seq<char>| #[trigger] name_set(selected@).contains(n) ==> generic_candidate(dv, n),
            forall|h: Set<Seq<char>>| #[trigger] generics_closed(dv, h) ==> name_set(selected@).subset_of(h),
            forall|n: Seq<char>|
                #[trigger] name_set(frontier@).contains(n) ==> concrete_entity(dv, n) || name_set(
                    selected@,
                ).contains(n),
            forall|s: Seq<char>, t: Seq<char>|
                (concrete_entity(dv, s) || name_set(selected@).contains(s)) && !name_set(frontier@).contains(s)
                    && #[trigger] references_generic(dv, s, t) ==> name_set(selected@).contains(t),
        decreases defs@.len() - selected@.len(), frontier@.len(),
    {
        proof {
            assert forall|n: Seq<char>| #[trigger] strings_view(selected@).contains(n) implies generic_candidate(dv, n) by {
                assert(name_set(selected@).contains(n));
            }
            lemma_candidates_bounded(dv, strings_view(selected@));
        }
        let ghost sel0 = name_set(selected@);
        let ghost len0 = selected@.len();
        let mut next: Vec<String> = Vec::new();
        let mut k: usize = 0;
        while k < frontier.len()
            invariant
                dv == defs_view(defs@),
                name_set(reachable@) == reachable_types(dv),
                k <= frontier@.len(),
                strictly_sorted(strings_view(selected@)),
                sel0.subset_of(name_set(selected@)),
                selected@.len() == len0 + next@.len(),
                forall|n: Seq<char>| #[trigger] name_set(selected@).contains(n) ==> generic_candidate(dv, n),
                forall|h: Set<Seq<char>>| #[trigger] generics_closed(dv, h) ==> name_set(selected@).subset_of(h),
                forall|n: Seq<char>|
                    #[trigger] name_set(frontier@).contains(n) ==> concrete_entity(dv, n) || sel0.contains(n),
                forall|n: Seq<char>|
                    #[trigger] name_set(selected@).contains(n) ==> sel0.contains(n) || name_set(next@).contains(n),
                forall|n: Seq<char>| #[trigger] name_set(next@).contains(n) ==> name_set(selected@).contains(n),
                forall|s: Seq<char>, t: Seq<char>|
                    (concrete_entity(dv, s) || sel0.contains(s)) && !name_set(frontier@).contains(s)
                        && #[trigger] references_generic(dv, s, t) ==> sel0.contains(t),
                forall|i: int, t: Seq<char>|
                    0 <= i < k && #[trigger] references_generic(dv, frontier@[i]@, t) ==> name_set(
                        selected@,
                    ).contains(t),
            decreases frontier@.len() - k,
        {
            let ghost src = frontier@[k as int]@;
            proof {
                assert(strings_view(frontier@)[k as int] == src);
                assert(name_set(frontier@).contains(src));
            }
            match type_definition(defs, frontier[k].as_str()) {
                Some(di) => {
                    let nfields = defs[di].fields.len();
                    let mut j: usize = 0;
                    while j < nfields
                        invariant
                            dv == defs_view(defs@),
                            name_set(reachable@) == reachable_types(dv),
                            k < frontier@.len(),
                            src == frontier@[k as int]@,
                            concrete_entity(dv, src) || sel0.contains(src),
                            di < defs@.len(),
                            nfields == defs@[di as int].fields@.len(),
                            type_fields(dv, src) == dv[di as int].fields,
                            j <= nfields,
                            strictly_sorted(strings_view(selected@)),
                            sel0.subset_of(name_set(selected@)),
                            selected@.len() == len0 + next@.len(),
                            forall|n: Seq<char>| #[trigger] name_set(selected@).contains(n) ==> generic_candidate(dv, n),
                            forall|h: Set<Seq<char>>| #[trigger] generics_closed(dv, h) ==> name_set(selected@).subset_of(h),
                            forall|n: Seq<char>|
                                #[trigger] name_set(selected@).contains(n) ==> sel0.contains(n) || name_set(next@).contains(n),
                            forall|n: Seq<char>| #[trigger] name_set(next@).contains(n) ==> name_set(selected@).contains(n),
                            forall|i: int, t: Seq<char>|
                                0 <= i < k && #[trigger] references_generic(dv, frontier@[i]@, t) ==> name_set(
                                    selected@,
                                ).contains(t),
                            forall|jj: int, t: Seq<char>|
                                0 <= jj < j && #[trigger] field_points_at_generic(dv, type_fields(dv, src)[jj], t)
                                    ==> name_set(selected@).contains(t),
                        decreases nfields - j,
                    {
                        let ghost f = dv[di as int].fields[j as int];
                        assert(defs@[di as int].fields@[j as int]@ == f);
                        if let Some(t) = field_generic_target(defs, &defs[di].fields[j], reachable) {
                            proof {
                                assert(references_generic(dv, src, t@));
                            }
                            if !contains_str(&selected, t.as_str()) {
                                let ghost before = strings_view(selected@);
                                let ghost old_next = strings_view(next@);
                                assert forall|n: Seq<char>| #[trigger] old_next.to_set().contains(n) implies before.to_set().contains(n) by {
                                    assert(name_set(next@).contains(n));
                                }
                                insert_name(&mut selected, t.as_str());
                                proof {
                                    broadcast use vstd::seq_lib::seq_to_set_is_finite;
                                    lemma_strictly_sorted_no_duplicates(before);
                                    lemma_strictly_sorted_no_duplicates(strings_view(selected@));
                                    before.unique_seq_to_set();
                                    strings_view(selected@).unique_seq_to_set();
                                    assert(!before.to_set().contains(t@));
                                }
                                next.push(t);
                                proof {
                                    let nv = strings_view(next@);
                                    assert(nv =~= old_next.push(t@));
                                    assert forall|n: Seq<char>|
                                        nv.to_set().contains(n) <==> (old_next.to_set().contains(n) || n == t@) by {
                                        if n == t@ {
                                            assert(nv[old_next.len() as int] == n);
                                        }
                                        if old_next.to_set().contains(n) {
                                            let i = choose|i: int| 0 <= i < old_next.len() && old_next[i] == n;
                                            assert(nv[i] == n);
                                        }
                                        if nv.to_set().contains(n) {
                                            let i = choose|i: int| 0 <= i < nv.len() && nv[i] == n;
                                            if i < old_next.len() {
                                                assert(old_next[i] == n);
                                            }
                                        }
                                    }
                                    assert forall|n: Seq<char>| #[trigger] name_set(next@).contains(n) implies name_set(selected@).contains(n) by {
                                        if old_next.to_set().contains(n) {
                                            assert(before.to_set().contains(n));
                                        }
                                    }
                                }
                            }
                        }
                        j += 1;
                    }
                },
                None => {},
            }
            k += 1;
        }
        proof {
            assert forall|n: Seq<char>| #[trigger] strings_view(selected@).contains(n) implies generic_candidate(dv, n) by {
                assert(name_set(selected@).contains(n));
            }
            lemma_candidates_bounded(dv, strings_view(selected@));
        }
        frontier = next;
    }
    let ghost g = name_set(selected@);
    assert(generics_closed(dv, g));
    assert(generics_closed(dv, g) && forall|h: Set<Seq<char>>| #[trigger]
        generics_closed(dv, h) ==> g.subset_of(h));
    let ghost r = drawn_generics(dv);
    assert(r =~= g);
    selected
}


/// The names of the concrete entities, strictly sorted.
fn concrete_names(defs: &Vec<SdlDefinition>, has_node: bool) -> (res: Vec<String>)
    requires
        has_node == schema_has_node_interfaces(defs_view(defs@)),
    ensures
        strictly_sorted(strings_view(res@)),
        name_set(res@) == Set::new(|n: Seq<char>| concrete_entity(defs_view(defs@), n)),
{
    let ghost dv = defs_view(defs@);
    let mut out: Vec<String> = Vec::new();
    let mut i: usize = 0;
    assert(name_set(out@) =~= Set::<Seq<char>>::empty());
    while i < defs.len()
        invariant
            dv == defs_view(defs@),
            has_node == schema_has_node_interfaces(dv),
            i <= defs@.len(),
            strictly_sorted(strings_view(out@)),
            name_set(out@) == Set::new(
                |n: Seq<char>|
                    exists|k: int|
                        0 <= k < i && dv[k].kind == SdlKind::Object && #[trigger] dv[k].name == n
                            && concrete_entity(dv, n),
            ),
        decreases defs@.len() - i,
    {
        let ghost before = name_set(out@);
        if defs[i].kind == SdlKind::Object && is_concrete_entity(defs, defs[i].name.as_str(), has_node) {
            insert_name(&mut out, defs[i].name.as_str());
        }
        assert forall|n: Seq<char>|
            name_set(out@).contains(n) <==> exists|k: int|
                0 <= k < i + 1 && dv[k].kind == SdlKind::Object && #[trigger] dv[k].name == n
                    && concrete_entity(dv, n) by {
            if exists|k: int|
                0 <= k < i + 1 && dv[k].kind == SdlKind::Object && #[trigger] dv[k].name == n
                    && concrete_entity(dv, n) {
                let k = choose|k: int|
                    0 <= k < i + 1 && dv[k].kind == SdlKind::Object && #[trigger] dv[k].name == n
                        && concrete_entity(dv, n);
                if k < i {
                    assert(before.contains(n));
                }
            }
            if name_set(out@).contains(n) && !before.contains(n) {
                assert(dv[i as int].name == n);
            }
        }
        assert(name_set(out@) =~= Set::new(
            |n: Seq<char>|
                exists|k: int|
                    0 <= k < i + 1 && dv[k].kind == SdlKind::Object && #[trigger] dv[k].name == n
                        && concrete_entity(dv, n),
        ));
        i += 1;
    }
    assert forall|n: Seq<char>| concrete_entity(dv, n) implies name_set(out@).contains(n) by {
        lemma_last_definition_index(dv, SdlKind::Object, n);
    }
    assert(name_set(out@) =~= Set::new(|n: Seq<char>| concrete_entity(dv, n)));
    out
}

/// The names of the generic candidates, strictly sorted.
fn candidate_names(defs: &Vec<SdlDefinition>) -> (res: Vec<String>)
    ensures
        strictly_sorted(strings_view(res@)),
        name_set(res@) == Set::new(|n: Seq<char>| generic_candidate(defs_view(defs@), n)),
{
    let ghost dv = defs_view(defs@);
    let mut out: Vec<String> = Vec::new();
    let mut i: usize = 0;
    assert(name_set(out@) =~= Set::<Seq<char>>::empty());
    while i < defs.len()
        invariant
            dv == defs_view(defs@),
            i <= defs@.len(),
            strictly_sorted(strings_view(out@)),
            name_set(out@) == Set::new(
                |n: Seq<char>|
                    exists|k: int|
                        0 <= k < i && dv[k].kind == SdlKind::Interface && #[trigger] dv[k].name == n
                            && generic_candidate(dv, n),
            ),
        decreases defs@.len() - i,
    {
        let ghost before = name_set(out@);
        if defs[i].kind == SdlKind::Interface && is_generic_candidate(defs, defs[i].name.as_str()) {
            insert_name(&mut out, defs[i].name.as_str());
        }
        assert forall|n: Seq<char>|
            name_set(out@).contains(n) <==> exists|k: int|
                0 <= k < i + 1 && dv[k].kind == SdlKind::Interface && #[trigger] dv[k].name == n
                    && generic_candidate(dv, n) by {
            if exists|k: int|
                0 <= k < i + 1 && dv[k].kind == SdlKind::Interface && #[trigger] dv[k].name == n
                    && generic_candidate(dv, n) {
                let k = choose|k: int|
                    0 <= k < i + 1 && dv[k].kind == SdlKind::Interface && #[trigger] dv[k].name == n
                        && generic_candidate(dv, n);
                if k < i {
                    assert(before.contains(n));
                }
            }
            if name_set(out@).contains(n) && !before.contains(n) {
                assert(dv[i as int].name == n);
            }
        }
        assert(name_set(out@) =~= Set::new(
            |n: Seq<char>|
                exists|k: int|
                    0 <= k < i + 1 && dv[k].kind == SdlKind::Interface && #[trigger] dv[k].name == n
                        && generic_candidate(dv, n),
        ));
        i += 1;
    }
    assert forall|n: Seq<char>| generic_candidate(dv, n) implies name_set(out@).contains(n) by {
        lemma_last_definition_index(dv, SdlKind::Interface, n);
    }
    assert(name_set(out@) =~= Set::new(|n: Seq<char>| generic_candidate(dv, n)));
    out
}

/// Membership in a sequence with one more element.
pub proof fn lemma_push_contains<T>(s: Seq<T>, x: T)
    ensures
        forall|y: T| #[trigger] s.push(x).contains(y) <==> (s.contains(y) || y == x),
        forall|y: T| #[trigger] s.push(x).to_set().contains(y) <==> (s.to_set().contains(y) || y == x),
{
    assert forall|y: T| #[trigger] s.push(x).contains(y) <==> (s.contains(y) || y == x) by {
        if s.contains(y) {
            let k = choose|k: int| 0 <= k < s.len() && s[k] == y;
            assert(s.push(x)[k] == y);
        }
        if y == x {
            assert(s.push(x)[s.len() as int] == y);
        }
        if s.push(x).contains(y) {
            let k = choose|k: int| 0 <= k < s.push(x).len() && s.push(x)[k] == y;
            if k < s.len() {
                assert(s[k] == y);
            }
        }
    }
}

/// Adds every name of `extra` to the strictly sorted `names`.
fn insert_names(names: &mut Vec<String>, extra: &Vec<String>)
    requires
        strictly_sorted(strings_view(old(names)@)),
    ensures
        strictly_sorted(strings_view(final(names)@)),
        name_set(final(names)@) == name_set(old(names)@).union(name_set(extra@)),
{
    let ghost start = name_set(names@);
    let mut i: usize = 0;
    while i < extra.len()
        invariant
            i <= extra@.len(),
            strictly_sorted(strings_view(names@)),
            name_set(names@) == start.union(strings_view(extra@).take(i as int).to_set()),
        decreases extra@.len() - i,
    {
        insert_name(names, extra[i].as_str());
        assert(strings_view(extra@).take(i + 1) =~= strings_view(extra@).take(i as int).push(extra@[i as int]@));
        proof {
            lemma_push_contains(strings_view(extra@).take(i as int), extra@[i as int]@);
        }
        assert(name_set(names@) =~= start.union(strings_view(extra@).take(i + 1).to_set()));
        i += 1;
    }
    assert(strings_view(extra@).take(extra@.len() as int) =~= strings_view(extra@));
}

/// Whether some enum type of the schema is named `name`.
fn is_enum_name(defs: &Vec<SdlDefinition>, name: &str) -> (res: bool)
    ensures
        res == enum_type_name(defs_view(defs@), name@),
{
    let ghost dv = defs_view(defs@);
    let mut i: usize = 0;
    while i < defs.len()
        invariant
            dv == defs_view(defs@),
            i <= defs@.len(),
            forall|k: int| 0 <= k < i ==> !(dv[k].kind == SdlKind::Enum && #[trigger] dv[k].name == name@),
        decreases defs@.len() - i,
    {
        if defs[i].kind == SdlKind::Enum && str_eq(defs[i].name.as_str(), name) {
            assert(dv[i as int].name == name@);
            return true;
        }
        i += 1;
    }
    false
}

/// check if a type name looks like an attribute wrapper
fn is_attribute_type(defs: &Vec<SdlDefinition>, name: &str) -> (res: bool)
    ensures
        res == attribute_type_name(defs_view(defs@), name@),
{
    ends_with(name, "Attribute") || is_attribute_wrapper(defs, name)
}

/// select the generics a type implements that the diagram also draws
fn implemented_generics(implements: &Vec<String>, generics: &Vec<String>) -> (res: Vec<String>)
    ensures
        strictly_sorted(strings_view(res@)),
        name_set(res@) == Set::new(
            |x: Seq<char>|
                strings_view(implements@).contains(x) && name_set(generics@).contains(x)
                    && !is_universal_interface(x),
        ),
{
    let mut out: Vec<String> = Vec::new();
    let mut i: usize = 0;
    let ghost iv = strings_view(implements@);
    assert(name_set(out@) =~= Set::<Seq<char>>::empty());
    while i < implements.len()
        invariant
            i <= implements@.len(),
            iv == strings_view(implements@),
            strictly_sorted(strings_view(out@)),
            name_set(out@) == Set::new(
                |x: Seq<char>|
                    iv.take(i as int).contains(x) && name_set(generics@).contains(x) && !is_universal_interface(x),
            ),
        decreases implements@.len() - i,
    {
        let x = implements[i].as_str();
        if contains_str(generics, x) && !str_eq(x, "CoreNode") {
            insert_name(&mut out, x);
        }
        assert(iv.take(i + 1) =~= iv.take(i as int).push(iv[i as int]));
        proof {
            lemma_push_contains(iv.take(i as int), iv[i as int]);
        }
        assert(name_set(out@) =~= Set::new(
            |y: Seq<char>|
                iv.take(i + 1).contains(y) && name_set(generics@).contains(y) && !is_universal_interface(y),
        ));
        i += 1;
    }
    assert(iv.take(implements@.len() as int) =~= iv);
    out
}

/// build an entity from the fields of an object or interface type definition
fn build_entity(defs: &Vec<SdlDefinition>, name: &str, entity_list: &Vec<String>, generics: &Vec<String>) -> (res: Entity)
    requires
        name_set(entity_list@) == entity_names(defs_view(defs@)),
        name_set(generics@) == drawn_generics(defs_view(defs@)),
    ensures
        res@ == entity_model(defs_view(defs@), name@),
        strictly_sorted(res@.implements),
        forall|j: int|
            0 <= j < res@.implements.len() ==> drawn_generics(defs_view(defs@)).contains(#[trigger] res@.implements[j])
                && !is_universal_interface(res@.implements[j]),
{
    let ghost dv = defs_view(defs@);
    let mut attributes: Vec<Attribute> = Vec::new();
    let mut relationships: Vec<Relationship> = Vec::new();
    let mut implements: Vec<String> = Vec::new();
    let ghost fields = type_fields(dv, name@);
    match type_definition(defs, name) {
        Some(di) => {
            let n = defs[di].fields.len();
            let mut j: usize = 0;
            while j < n
                invariant
                    dv == defs_view(defs@),
                    name_set(entity_list@) == entity_names(dv),
                    name_set(generics@) == drawn_generics(dv),
                    di < defs@.len(),
                    n == defs@[di as int].fields@.len(),
                    fields == dv[di as int].fields,
                    j <= n,
                    attributes@.map_values(|a: Attribute| a@) == collect_attributes(dv, fields.take(j as int)),
                    relationships@.map_values(|r: Relationship| r@) == collect_relationships(
                        dv,
                        fields.take(j as int),
                    ),
                decreases n - j,
            {
                let f = &defs[di].fields[j];
                assert(f@ == fields[j as int]);
                assert(fields.take(j + 1).drop_last() =~= fields.take(j as int));
                assert(fields.take(j + 1).last() == fields[j as int]);
                let ghost attrs0 = attributes@.map_values(|a: Attribute| a@);
                let ghost rels0 = relationships@.map_values(|r: Relationship| r@);
                if !is_infrastructure_field(f.name.as_str()) {
                    let base = unwrap_type_name(f.type_text.as_str());
                    match resolve_relationship(base.as_str(), entity_list) {
                        Some((target, c)) => {
                            if !(contains_str(generics, target.as_str()) && is_universal_generic_field(
                                f.name.as_str(),
                            )) {
                                let cardinality = if is_list_type(f.type_text.as_str()) {
                                    Cardinality::Many
                                } else {
                                    c
                                };
                                relationships.push(
                                    Relationship { field_name: copy_string(&f.name), target, cardinality },
                                );
                            }
                        },
                        None => {
                            if is_attribute_type(defs, base.as_str()) || is_enum_name(defs, base.as_str()) {
                                attributes.push(Attribute { name: copy_string(&f.name), attr_type: base });
                            }
                        },
                    }
                }
                assert(attributes@.map_values(|a: Attribute| a@) =~= collect_attributes(dv, fields.take(j + 1)));
                assert(relationships@.map_values(|r: Relationship| r@) =~= collect_relationships(
                    dv,
                    fields.take(j + 1),
                ));
                j += 1;
            }
            assert(fields.take(n as int) =~= fields);
            implements = implemented_generics(&defs[di].implements, generics);
        },
        None => {
            assert(attributes@.map_values(|a: Attribute| a@) =~= collect_attributes(dv, fields));
            assert(relationships@.map_values(|r: Relationship| r@) =~= collect_relationships(dv, fields));
            assert(name_set(implements@) =~= Set::<Seq<char>>::empty());
        },
    }
    let ghost impl_set = Set::new(
        |x: Seq<char>|
            type_implements(dv, name@).contains(x) && drawn_generics(dv).contains(x) && !is_universal_interface(x),
    );
    assert(name_set(implements@) =~= impl_set);
    proof {
        lemma_sorted_names_of(strings_view(implements@));
        assert forall|j: int| 0 <= j < strings_view(implements@).len() implies impl_set.contains(
            #[trigger] strings_view(implements@)[j],
        ) by {
            assert(name_set(implements@).contains(strings_view(implements@)[j]));
        }
    }
    let e = Entity { name: to_owned_string(name), attributes, relationships, implements };
    assert(e@ =~= entity_model(dv, name@));
    e
}


/// The enum types of the schema, sorted stably by name.
fn collect_enums(defs: &Vec<SdlDefinition>) -> (res: Vec<EnumType>)
    ensures
        res@.map_values(|e: EnumType| e@) == sort_stable(enum_models(defs_view(defs@)), enum_name_lt()),
{
    let ghost dv = defs_view(defs@);
    let mut out: Vec<EnumType> = Vec::new();
    let mut i: usize = 0;
    assert(dv.take(0) =~= Seq::<SdlDefinitionView>::empty());
    assert(out@.map_values(|e: EnumType| e@) =~= Seq::<EnumView>::empty());
    while i < defs.len()
        invariant
            dv == defs_view(defs@),
            i <= defs@.len(),
            out@.map_values(|e: EnumType| e@) == sort_stable(enum_models(dv.take(i as int)), enum_name_lt()),
        decreases defs@.len() - i,
    {
        assert(dv.take(i + 1).drop_last() =~= dv.take(i as int));
        assert(dv.take(i + 1).last() == dv[i as int]);
        if defs[i].kind == SdlKind::Enum {
            let e = EnumType { name: copy_string(&defs[i].name), values: clone_strings(&defs[i].values) };
            let ghost ov = out@.map_values(|x: EnumType| x@);
            let mut p: usize = 0;
            while p < out.len() && !str_lt(e.name.as_str(), out[p].name.as_str())
                invariant
                    p <= out@.len(),
                    ov == out@.map_values(|x: EnumType| x@),
                    forall|k: int| 0 <= k < p ==> !(enum_name_lt())(e@, #[trigger] ov[k]),
                decreases out@.len() - p,
            {
                p += 1;
            }
            proof {
                lemma_insert_stable_at(ov, e@, enum_name_lt(), p as int);
                let models = enum_models(dv.take(i as int));
                assert(enum_models(dv.take(i + 1)) =~= models.push(e@));
                assert(models.push(e@).drop_last() =~= models);
            }
            out.insert(p, e);
            assert(out@.map_values(|x: EnumType| x@) =~= ov.take(p as int) + seq![e@] + ov.skip(p as int));
        } else {
            assert(enum_models(dv.take(i + 1)) =~= enum_models(dv.take(i as int)));
        }
        i += 1;
    }
    assert(dv.take(defs@.len() as int) =~= dv);
    out
}

/// The schema that a sequence of definitions yields.
pub fn build_schema(defs: &Vec<SdlDefinition>) -> (res: Schema)
    ensures
        res@ == schema_model(defs_view(defs@)),
        schema_well_formed(res@),
{
    let ghost dv = defs_view(defs@);
    let has_node = has_node_interfaces(defs);
    let concrete = concrete_names(defs, has_node);
    let candidates = candidate_names(defs);
    let mut reachable = clone_strings(&concrete);
    insert_names(&mut reachable, &candidates);
    assert(name_set(reachable@) =~= reachable_types(dv));
    let generics = referenced_generics(defs, &concrete, &reachable);
    let mut names = clone_strings(&concrete);
    insert_names(&mut names, &generics);
    assert(name_set(names@) =~= entity_names(dv));
    proof {
        lemma_sorted_names_of(strings_view(names@));
    }
    let ghost nv = strings_view(names@);
    let mut entities: Vec<Entity> = Vec::new();
    let mut k: usize = 0;
    while k < names.len()
        invariant
            dv == defs_view(defs@),
            nv == strings_view(names@),
            name_set(names@) == entity_names(dv),
            name_set(generics@) == drawn_generics(dv),
            k <= names@.len(),
            entities@.map_values(|e: Entity| e@) == nv.take(k as int).map_values(
                |n: Seq<char>| entity_model(dv, n),
            ),
            forall|m: int| 0 <= m < k ==> strictly_sorted(#[trigger] entities@[m]@.implements),
            forall|m: int, j: int|
                0 <= m < k && 0 <= j < entities@[m]@.implements.len() ==> drawn_generics(dv).contains(
                    #[trigger] entities@[m]@.implements[j],
                ) && !is_universal_interface(entities@[m]@.implements[j]),
        decreases names@.len() - k,
    {
        let e = build_entity(defs, names[k].as_str(), &names, &generics);
        assert(nv[k as int] == names@[k as int]@);
        assert(e@ == entity_model(dv, nv[k as int]));
        let ghost prev = entities@.map_values(|e: Entity| e@);
        entities.push(e);
        assert(entities@.map_values(|e: Entity| e@) =~= prev.push(entity_model(dv, nv[k as int])));
        assert(nv.take(k + 1) =~= nv.take(k as int).push(nv[k as int]));
        assert(entities@.map_values(|e: Entity| e@) =~= nv.take(k + 1).map_values(
            |n: Seq<char>| entity_model(dv, n),
        ));
        k += 1;
    }
    assert(nv.take(names@.len() as int) =~= nv);
    let enums = collect_enums(defs);
    let schema = Schema { entities, enums };
    assert(schema@ =~= schema_model(dv));
    proof {
        let sv = schema@;
        let ents = sv.entities;
        let en = ents.map_values(|e: EntityView| e.name);
        assert(en =~= nv);
        assert forall|i: int, j: int| 0 <= i < ents.len() && 0 <= j < ents[i].relationships.len() implies en.contains(
            #[trigger] ents[i].relationships[j].target,
        ) by {
            assert(ents[i] == entity_model(dv, nv[i]));
            lemma_collect_relationships_targets(dv, type_fields(dv, nv[i]));
            let t = ents[i].relationships[j].target;
            assert(name_set(names@).contains(t));
            let m = choose|m: int| 0 <= m < nv.len() && nv[m] == t;
            assert(en[m] == t);
        }
        assert forall|i: int, j: int| 0 <= i < ents.len() && 0 <= j < ents[i].implements.len() implies en.contains(
            #[trigger] ents[i].implements[j],
        ) && !is_universal_interface(ents[i].implements[j]) by {
            assert(ents[i] == entities@[i]@);
            let t = ents[i].implements[j];
            assert(drawn_generics(dv).contains(t));
            assert(entity_names(dv).contains(t));
            assert(name_set(names@).contains(t));
            let m = choose|m: int| 0 <= m < nv.len() && nv[m] == t;
            assert(en[m] == t);
        }
        assert forall|i: int| 0 <= i < ents.len() implies strictly_sorted(#[trigger] ents[i].implements) by {
            assert(ents[i] == entities@[i]@);
        }
        lemma_enum_name_lt_strict();
        crate::order::lemma_sort_stable_sorted(enum_models(dv), enum_name_lt());
    }
    schema
}

/// `enum_name_lt` is a strict order.
proof fn lemma_enum_name_lt_strict()
    ensures
        crate::order::strict_order(enum_name_lt()),
{
    let lt = enum_name_lt();
    assert forall|a: EnumView| !#[trigger] lt(a, a) by {
        crate::text::lemma_seq_lt_irreflexive(a.name);
    }
    assert forall|a: EnumView, b: EnumView, c: EnumView| #[trigger] lt(a, b) && #[trigger] lt(b, c) implies lt(a, c) by {
        crate::text::lemma_seq_lt_transitive(a.name, b.name, c.name);
    }
}

/// The message of the parse error for a text that `graphql_parser` would
/// panic on.
pub open spec fn unparsable_whitespace_message() -> Seq<char> {
    "this text holds a block string (\"\"\") and whitespace outside ASCII, which the GraphQL parser cannot read"@
}

/// parse a graphql sdl string into a schema topology
///
/// a text with a block string (`"""`) and whitespace outside ASCII is
/// refused with a parse error: `graphql_parser` can panic on it.
pub fn parse_graphql_schema(sdl: &str) -> (res: Result<Schema, Error>)
    ensures
        !parses_without_panic(sdl@) ==> (res matches Err(Error::Parse(e)) && e@ == unparsable_whitespace_message()),
        parses_without_panic(sdl@) ==> match sdl_document(sdl@) {
            Ok(defs) => res matches Ok(s) && s@ == schema_model(defs),
            Err(m) => res matches Err(Error::Parse(e)) && e@ == m,
        },
        res matches Ok(s) ==> schema_well_formed(s@),
{
    if !check_parses_without_panic(sdl) {
        return Err(Error::Parse(
            to_owned_string("this text holds a block string (\"\"\") and whitespace outside ASCII, which the GraphQL parser cannot read"),
        ));
    }
    match ParsedSdl::parse(sdl) {
        Ok(doc) => {
            let defs = read_definitions(&doc);
            Ok(build_schema(&defs))
        },
        Err(e) => Err(Error::Parse(e)),
    }
}

impl Schema {
    /// look up the allowed values of an enum type by name.
    ///
    /// returns `None` when the name does not refer to an enum, so callers can
    /// distinguish enum-typed attributes from ordinary ones.
    pub fn enum_values(&self, name: &str) -> (res: Option<&[String]>)
        ensures
            match res {
                Some(values) => enum_values_of(self@.enums, name@) == Some(
                    strings_view(values@),
                ),
                None => enum_values_of(self@.enums, name@) is None,
            },
    {
        let ghost enums = self@.enums;
        let mut i: usize = 0;
        assert(enums.skip(0) =~= enums);
        while i < self.enums.len()
            invariant
                i <= self.enums@.len(),
                enums == self@.enums,
                enum_index(enums, name@) == (if enum_index(enums.skip(i as int), name@) is Some {
                    Some(i + enum_index(enums.skip(i as int), name@)->Some_0)
                } else {
                    None::<int>
                }),
            decreases self.enums@.len() - i,
        {
            assert(enums.skip(i as int).drop_first() =~= enums.skip(i + 1));
            assert(enums.skip(i as int)[0] == enums[i as int]);
            if str_eq(self.enums[i].name.as_str(), name) {
                return Some(self.enums[i].values.as_slice());
            }
            i += 1;
        }
        assert(enums.skip(i as int).len() == 0);
        None
    }
}

} // verus!
