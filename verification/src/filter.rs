//! entity name filtering
//!
//! applies `--include` and `--exclude` regex patterns to select which entities
//! appear in the output diagram. relationships and inheritance edges pointing
//! to excluded entities are removed.

use vstd::prelude::*;
use crate::parse::{Entity, EntityView, Relationship, RelationshipView, Schema, SchemaView};
use crate::parse::lemma_push_contains;
use crate::text::{contains_str, strings_view, to_owned_string};

verus! {

#[verifier::external_type_specification]
#[verifier::external_body]
pub struct ExRegex(regex::Regex);

/// Whether `regex::Regex::new` accepts a pattern.
pub uninterp spec fn regex_compiles(pattern: Seq<char>) -> bool;

/// The message of the error that `regex::Regex::new` returns for a pattern.
pub uninterp spec fn regex_error(pattern: Seq<char>) -> Seq<char>;

/// Whether the regex compiled from `pattern` matches somewhere in `text`.
pub uninterp spec fn regex_is_match(pattern: Seq<char>, text: Seq<char>) -> bool;

/// A compiled regular expression together with its source pattern.
pub struct NamePattern {
    source: String,
    regex: regex::Regex,
}

/// `regex::Regex::new`: compiles `pattern`.
#[verifier::external_body]
fn compile(pattern: &str) -> (res: Result<NamePattern, String>)
    ensures
        match res {
            Ok(p) => regex_compiles(pattern@) && p.pattern() == pattern@,
            Err(e) => !regex_compiles(pattern@) && e@ == regex_error(pattern@),
        },
{
    match regex::Regex::new(pattern) {
        Ok(regex) => Ok(NamePattern { source: pattern.to_string(), regex }),
        Err(e) => Err(e.to_string()),
    }
}

/// `regex::Regex::is_match`: whether the regex matches somewhere in `text`.
#[verifier::external_body]
fn regex_matches(p: &NamePattern, text: &str) -> (res: bool)
    ensures
        res == regex_is_match(p.pattern(), text@),
{
    p.regex.is_match(text)
}

impl NamePattern {
    /// The pattern the regex was compiled from.
    pub closed spec fn pattern(&self) -> Seq<char> {
        self.source@
    }

    /// compile a pattern; the error is the regex crate's message.
    pub fn new(pattern: &str) -> (res: Result<NamePattern, String>)
        ensures
            match res {
                Ok(p) => regex_compiles(pattern@) && p.pattern() == pattern@,
                Err(e) => !regex_compiles(pattern@) && e@ == regex_error(pattern@),
            },
    {
        compile(pattern)
    }

    /// whether the pattern matches somewhere in `text`.
    pub fn is_match(&self, text: &str) -> (res: bool)
        ensures
            res == regex_is_match(self.pattern(), text@),
    {
        regex_matches(self, text)
    }
}

/// The pattern of an optional compiled regex.
pub open spec fn pattern_of(p: Option<&NamePattern>) -> Option<Seq<char>> {
    match p {
        Some(r) => Some(r.pattern()),
        None => None,
    }
}

/// An entity name passes the filters: it matches `inclusion` when that is set,
/// and does not match `exclusion` when that is set.
pub open spec fn passes(inclusion: Option<Seq<char>>, exclusion: Option<Seq<char>>, name: Seq<char>) -> bool {
    &&& inclusion matches Some(p) ==> regex_is_match(p, name)
    &&& exclusion matches Some(p) ==> !regex_is_match(p, name)
}

/// The names of the entities that pass the filters.
pub open spec fn kept_names(entities: Seq<EntityView>, inclusion: Option<Seq<char>>, exclusion: Option<Seq<char>>) -> Set<Seq<char>> {
    Set::new(
        |n: Seq<char>|
            passes(inclusion, exclusion, n) && exists|i: int| 0 <= i < entities.len() && #[trigger] entities[i].name == n,
    )
}

/// The relationships whose target is kept.
pub open spec fn kept_relationships(rels: Seq<RelationshipView>, kept: Set<Seq<char>>) -> Seq<RelationshipView>
    decreases rels.len(),
{
    if rels.len() == 0 {
        Seq::empty()
    } else {
        kept_relationships(rels.drop_last(), kept) + if kept.contains(rels.last().target) {
            seq![rels.last()]
        } else {
            Seq::empty()
        }
    }
}

/// The names that are kept.
pub open spec fn kept_parents(names: Seq<Seq<char>>, kept: Set<Seq<char>>) -> Seq<Seq<char>>
    decreases names.len(),
{
    if names.len() == 0 {
        Seq::empty()
    } else {
        kept_parents(names.drop_last(), kept) + if kept.contains(names.last()) {
            seq![names.last()]
        } else {
            Seq::empty()
        }
    }
}

/// The entities that pass the filters, each without its relationships and
/// inheritance edges to entities that do not.
pub open spec fn kept_entities(
    entities: Seq<EntityView>,
    inclusion: Option<Seq<char>>,
    exclusion: Option<Seq<char>>,
    kept: Set<Seq<char>>,
) -> Seq<EntityView>
    decreases entities.len(),
{
    if entities.len() == 0 {
        Seq::empty()
    } else {
        let e = entities.last();
        kept_entities(entities.drop_last(), inclusion, exclusion, kept) + if passes(inclusion, exclusion, e.name) {
            seq![
                EntityView {
                    relationships: kept_relationships(e.relationships, kept),
                    implements: kept_parents(e.implements, kept),
                    ..e
                },
            ]
        } else {
            Seq::empty()
        }
    }
}

/// The schema that the filters leave.
pub open spec fn filtered(schema: SchemaView, inclusion: Option<Seq<char>>, exclusion: Option<Seq<char>>) -> SchemaView {
    SchemaView {
        entities: kept_entities(
            schema.entities,
            inclusion,
            exclusion,
            kept_names(schema.entities, inclusion, exclusion),
        ),
        enums: schema.enums,
    }
}


/// The names of the entities that pass the filters, in entity order.
pub open spec fn passing_names(entities: Seq<EntityView>, inclusion: Option<Seq<char>>, exclusion: Option<Seq<char>>) -> Seq<Seq<char>>
    decreases entities.len(),
{
    if entities.len() == 0 {
        Seq::empty()
    } else {
        passing_names(entities.drop_last(), inclusion, exclusion) + if passes(inclusion, exclusion, entities.last().name) {
            seq![entities.last().name]
        } else {
            Seq::empty()
        }
    }
}

/// The passing names, listed, are the kept names.
proof fn lemma_passing_names(entities: Seq<EntityView>, inclusion: Option<Seq<char>>, exclusion: Option<Seq<char>>)
    ensures
        passing_names(entities, inclusion, exclusion).to_set() == kept_names(entities, inclusion, exclusion),
    decreases entities.len(),
{
    let s = passing_names(entities, inclusion, exclusion);
    if entities.len() > 0 {
        let rest = entities.drop_last();
        lemma_passing_names(rest, inclusion, exclusion);
        let r = passing_names(rest, inclusion, exclusion);
        assert forall|n: Seq<char>| s.to_set().contains(n) <==> kept_names(entities, inclusion, exclusion).contains(n) by {
            if passes(inclusion, exclusion, entities.last().name) {
                lemma_push_contains(r, entities.last().name);
                assert(s == r.push(entities.last().name));
            } else {
                assert(s =~= r);
            }
            if kept_names(entities, inclusion, exclusion).contains(n) {
                let i = choose|i: int| 0 <= i < entities.len() && #[trigger] entities[i].name == n;
                if i < rest.len() {
                    assert(rest[i].name == n);
                    assert(kept_names(rest, inclusion, exclusion).contains(n));
                } else {
                    assert(entities.last().name == n);
                }
            }
            if r.to_set().contains(n) {
                assert(kept_names(rest, inclusion, exclusion).contains(n));
                let i = choose|i: int| 0 <= i < rest.len() && #[trigger] rest[i].name == n;
                assert(entities[i].name == n);
            }
            if n == entities.last().name {
                assert(entities[entities.len() - 1].name == n);
            }
        }
        assert(s.to_set() =~= kept_names(entities, inclusion, exclusion));
    } else {
        assert(s.to_set() =~= kept_names(entities, inclusion, exclusion));
    }
}

/// Whether an entity name passes the filters.
fn name_passes(inclusion: Option<&NamePattern>, exclusion: Option<&NamePattern>, name: &str) -> (res: bool)
    ensures
        res == passes(pattern_of(inclusion), pattern_of(exclusion), name@),
{
    if let Some(re) = inclusion {
        if !re.is_match(name) {
            return false;
        }
    }
    if let Some(re) = exclusion {
        if re.is_match(name) {
            return false;
        }
    }
    true
}

/// filter a schema's entities by name using inclusion/exclusion regex patterns.
///
/// when `inclusion` is set, only entities whose names match the pattern are kept.
/// when `exclusion` is set, entities whose names match the pattern are removed.
/// when both are set, inclusion is applied first, then exclusion.
///
/// relationships and inheritance edges targeting entities that were filtered
/// out are removed.
pub fn filter_schema(schema: Schema, inclusion: Option<&NamePattern>, exclusion: Option<&NamePattern>) -> (res: Schema)
    ensures
        res@ == filtered(schema@, pattern_of(inclusion), pattern_of(exclusion)),
{
    let ghost inc = pattern_of(inclusion);
    let ghost exc = pattern_of(exclusion);
    let ghost ents = schema@.entities;
    let ghost kept_set = kept_names(ents, inc, exc);
    let mut kept: Vec<String> = Vec::new();
    let mut i: usize = 0;
    assert(ents.take(0) =~= Seq::<EntityView>::empty());
    assert(strings_view(kept@) =~= Seq::<Seq<char>>::empty());
    while i < schema.entities.len()
        invariant
            ents == schema@.entities,
            i <= ents.len(),
            inc == pattern_of(inclusion),
            exc == pattern_of(exclusion),
            strings_view(kept@) == passing_names(ents.take(i as int), inc, exc),
        decreases ents.len() - i,
    {
        let ghost before = strings_view(kept@);
        let name = schema.entities[i].name.as_str();
        assert(name@ == ents[i as int].name);
        assert(ents.take(i + 1).drop_last() =~= ents.take(i as int));
        assert(ents.take(i + 1).last() == ents[i as int]);
        let ok = name_passes(inclusion, exclusion, name);
        if ok {
            kept.push(to_owned_string(name));
            assert(strings_view(kept@) =~= before.push(name@));
            assert(passing_names(ents.take(i + 1), inc, exc) =~= before.push(name@));
        } else {
            assert(passing_names(ents.take(i + 1), inc, exc) =~= before);
        }
        i += 1;
    }
    assert(ents.take(ents.len() as int) =~= ents);
    proof {
        lemma_passing_names(ents, inc, exc);
    }
    assert(strings_view(kept@).to_set() =~= kept_set);
    let ghost schema_view = schema@;
    let Schema { entities: mut remaining, enums } = schema;
    let mut entities: Vec<Entity> = Vec::new();
    let total = remaining.len();
    let mut consumed: usize = 0;
    assert(ents.skip(0) =~= ents);
    assert(ents.take(0) =~= Seq::<EntityView>::empty());
    assert(entities@.map_values(|e: Entity| e@) =~= Seq::<EntityView>::empty());
    while remaining.len() > 0
        invariant
            consumed + remaining@.len() == ents.len(),
            total == ents.len(),
            inc == pattern_of(inclusion),
            exc == pattern_of(exclusion),
            remaining@.map_values(|e: Entity| e@) == ents.skip(consumed as int),
            strings_view(kept@).to_set() == kept_set,
            entities@.map_values(|e: Entity| e@) == kept_entities(ents.take(consumed as int), inc, exc, kept_set),
        decreases remaining@.len(),
    {
        let ghost rv = remaining@.map_values(|e: Entity| e@);
        assert(rv[0] == ents[consumed as int]);
        let mut entity = remaining.remove(0);
        assert(remaining@.map_values(|e: Entity| e@) =~= rv.drop_first());
        assert(rv.drop_first() =~= ents.skip(consumed + 1));
        let ghost ev = entity@;
        assert(ents.take(consumed + 1).drop_last() =~= ents.take(consumed as int));
        assert(ents.take(consumed + 1).last() == ev);
        let ghost prev = entities@.map_values(|e: Entity| e@);
        assert(kept_entities(ents.take(consumed + 1), inc, exc, kept_set) == prev + if passes(inc, exc, ev.name) {
            seq![
                EntityView {
                    relationships: kept_relationships(ev.relationships, kept_set),
                    implements: kept_parents(ev.implements, kept_set),
                    ..ev
                },
            ]
        } else {
            Seq::<EntityView>::empty()
        });
        if name_passes(inclusion, exclusion, entity.name.as_str()) {
            let Entity { name, attributes, relationships: mut rels, implements: mut parents } = entity;
            let ghost rels0 = rels@.map_values(|r: Relationship| r@);
            let mut kept_rels: Vec<Relationship> = Vec::new();
            let rel_total = rels.len();
            let mut j: usize = 0;
            assert(rels0.skip(0) =~= rels0);
            assert(rels0.take(0) =~= Seq::<RelationshipView>::empty());
            assert(kept_rels@.map_values(|r: Relationship| r@) =~= Seq::<RelationshipView>::empty());
            while rels.len() > 0
                invariant
                    j + rels@.len() == rels0.len(),
                    rel_total == rels0.len(),
                    rels@.map_values(|r: Relationship| r@) == rels0.skip(j as int),
                    strings_view(kept@).to_set() == kept_set,
                    kept_rels@.map_values(|r: Relationship| r@) == kept_relationships(rels0.take(j as int), kept_set),
                decreases rels@.len(),
            {
                let ghost rv2 = rels@.map_values(|r: Relationship| r@);
                assert(rv2[0] == rels0[j as int]);
                let rel = rels.remove(0);
                assert(rels@.map_values(|r: Relationship| r@) =~= rv2.drop_first());
                assert(rv2.drop_first() =~= rels0.skip(j + 1));
                assert(rels0.take(j + 1).drop_last() =~= rels0.take(j as int));
                assert(rels0.take(j + 1).last() == rel@);
                let ghost kr = kept_rels@.map_values(|r: Relationship| r@);
                if contains_str(&kept, rel.target.as_str()) {
                    kept_rels.push(rel);
                    assert(kept_rels@.map_values(|r: Relationship| r@) =~= kr.push(rels0[j as int]));
                }
                assert(kept_rels@.map_values(|r: Relationship| r@) =~= kept_relationships(rels0.take(j + 1), kept_set));
                j += 1;
            }
            assert(rels0.take(rels0.len() as int) =~= rels0);
            let ghost parents0 = strings_view(parents@);
            let mut kept_parents_vec: Vec<String> = Vec::new();
            let parent_total = parents.len();
            let mut k: usize = 0;
            assert(parents0.skip(0) =~= parents0);
            assert(parents0.take(0) =~= Seq::<Seq<char>>::empty());
            assert(strings_view(kept_parents_vec@) =~= Seq::<Seq<char>>::empty());
            while parents.len() > 0
                invariant
                    k + parents@.len() == parents0.len(),
                    parent_total == parents0.len(),
                    strings_view(parents@) == parents0.skip(k as int),
                    strings_view(kept@).to_set() == kept_set,
                    strings_view(kept_parents_vec@) == kept_parents(parents0.take(k as int), kept_set),
                decreases parents@.len(),
            {
                let ghost pv = strings_view(parents@);
                assert(pv[0] == parents0[k as int]);
                let parent = parents.remove(0);
                assert(strings_view(parents@) =~= pv.drop_first());
                assert(pv.drop_first() =~= parents0.skip(k + 1));
                assert(parents0.take(k + 1).drop_last() =~= parents0.take(k as int));
                assert(parents0.take(k + 1).last() == parent@);
                let ghost kp = strings_view(kept_parents_vec@);
                if contains_str(&kept, parent.as_str()) {
                    kept_parents_vec.push(parent);
                    assert(strings_view(kept_parents_vec@) =~= kp.push(parents0[k as int]));
                }
                assert(strings_view(kept_parents_vec@) =~= kept_parents(parents0.take(k + 1), kept_set));
                k += 1;
            }
            assert(parents0.take(parents0.len() as int) =~= parents0);
            let filtered_entity = Entity { name, attributes, relationships: kept_rels, implements: kept_parents_vec };
            assert(filtered_entity@ =~= EntityView {
                relationships: kept_relationships(ev.relationships, kept_set),
                implements: kept_parents(ev.implements, kept_set),
                ..ev
            });
            entities.push(filtered_entity);
            assert(entities@.map_values(|e: Entity| e@) =~= prev.push(filtered_entity@));
            assert(entities@.map_values(|e: Entity| e@) =~= prev + seq![filtered_entity@]);
        } else {
            assert(prev + Seq::<EntityView>::empty() =~= prev);
        }
        assert(entities@.map_values(|e: Entity| e@) =~= kept_entities(ents.take(consumed + 1), inc, exc, kept_set));
        consumed += 1;
    }
    assert(ents.take(ents.len() as int) =~= ents);
    let res = Schema { entities, enums };
    assert(res@ =~= filtered(schema_view, inc, exc));
    res
}


/// The names of a sequence of entities, in order.
pub open spec fn names_of(entities: Seq<EntityView>) -> Seq<Seq<char>> {
    entities.map_values(|e: EntityView| e.name)
}

/// The kept entities are named by the passing names.
proof fn lemma_kept_entities_names(
    entities: Seq<EntityView>,
    inclusion: Option<Seq<char>>,
    exclusion: Option<Seq<char>>,
    kept: Set<Seq<char>>,
)
    ensures
        names_of(kept_entities(entities, inclusion, exclusion, kept)) == passing_names(entities, inclusion, exclusion),
    decreases entities.len(),
{
    if entities.len() > 0 {
        let prev = entities.drop_last();
        lemma_kept_entities_names(prev, inclusion, exclusion, kept);
        assert(names_of(kept_entities(entities, inclusion, exclusion, kept)) =~= passing_names(entities, inclusion, exclusion));
    }
}

/// Every kept relationship points at a kept name.
proof fn lemma_kept_relationships_targets(rels: Seq<RelationshipView>, kept: Set<Seq<char>>)
    ensures
        forall|j: int|
            0 <= j < kept_relationships(rels, kept).len() ==> kept.contains(#[trigger] kept_relationships(rels, kept)[j].target),
    decreases rels.len(),
{
    if rels.len() > 0 {
        let prev = rels.drop_last();
        lemma_kept_relationships_targets(prev, kept);
        let k = kept_relationships(rels, kept);
        assert forall|j: int| 0 <= j < k.len() implies kept.contains(#[trigger] k[j].target) by {
            if j < kept_relationships(prev, kept).len() {
                assert(k[j] == kept_relationships(prev, kept)[j]);
            }
        }
    }
}

/// Every kept inheritance edge points at a kept name.
proof fn lemma_kept_parents_targets(names: Seq<Seq<char>>, kept: Set<Seq<char>>)
    ensures
        forall|j: int| 0 <= j < kept_parents(names, kept).len() ==> kept.contains(#[trigger] kept_parents(names, kept)[j]),
    decreases names.len(),
{
    if names.len() > 0 {
        let prev = names.drop_last();
        lemma_kept_parents_targets(prev, kept);
        let k = kept_parents(names, kept);
        assert forall|j: int| 0 <= j < k.len() implies kept.contains(#[trigger] k[j]) by {
            if j < kept_parents(prev, kept).len() {
                assert(k[j] == kept_parents(prev, kept)[j]);
            }
        }
    }
}

/// Every kept entity passes, and its edges point at kept names.
proof fn lemma_kept_entities_edges(
    entities: Seq<EntityView>,
    inclusion: Option<Seq<char>>,
    exclusion: Option<Seq<char>>,
    kept: Set<Seq<char>>,
)
    ensures
        ({
            let f = kept_entities(entities, inclusion, exclusion, kept);
            forall|i: int|
                0 <= i < f.len() ==> {
                    &&& passes(inclusion, exclusion, (#[trigger] f[i]).name)
                    &&& forall|j: int| 0 <= j < f[i].relationships.len() ==> kept.contains(#[trigger] f[i].relationships[j].target)
                    &&& forall|j: int| 0 <= j < f[i].implements.len() ==> kept.contains(#[trigger] f[i].implements[j])
                }
        }),
    decreases entities.len(),
{
    if entities.len() > 0 {
        let prev = entities.drop_last();
        let e = entities.last();
        lemma_kept_entities_edges(prev, inclusion, exclusion, kept);
        lemma_kept_relationships_targets(e.relationships, kept);
        lemma_kept_parents_targets(e.implements, kept);
        let f = kept_entities(entities, inclusion, exclusion, kept);
        let fp = kept_entities(prev, inclusion, exclusion, kept);
        assert forall|i: int| 0 <= i < f.len() implies {
            &&& passes(inclusion, exclusion, (#[trigger] f[i]).name)
            &&& forall|j: int| 0 <= j < f[i].relationships.len() ==> kept.contains(#[trigger] f[i].relationships[j].target)
            &&& forall|j: int| 0 <= j < f[i].implements.len() ==> kept.contains(#[trigger] f[i].implements[j])
        } by {
            if i < fp.len() {
                assert(f[i] == fp[i]);
            }
        }
    }
}

/// The filters keep exactly the entities whose names pass them, in their
/// order, and every relationship and inheritance edge left points at a kept
/// entity: no dangling edge remains.
pub proof fn lemma_filtered_entities(schema: SchemaView, inclusion: Option<Seq<char>>, exclusion: Option<Seq<char>>)
    ensures
        ({
            let f = filtered(schema, inclusion, exclusion).entities;
            &&& names_of(f) == passing_names(schema.entities, inclusion, exclusion)
            &&& forall|i: int| 0 <= i < f.len() ==> passes(inclusion, exclusion, (#[trigger] f[i]).name)
            &&& forall|i: int, j: int|
                0 <= i < f.len() && 0 <= j < f[i].relationships.len() ==> names_of(f).contains(
                    #[trigger] f[i].relationships[j].target,
                )
            &&& forall|i: int, j: int|
                0 <= i < f.len() && 0 <= j < f[i].implements.len() ==> names_of(f).contains(#[trigger] f[i].implements[j])
        }),
{
    let ents = schema.entities;
    let kept = kept_names(ents, inclusion, exclusion);
    let f = filtered(schema, inclusion, exclusion).entities;
    lemma_kept_entities_names(ents, inclusion, exclusion, kept);
    lemma_kept_entities_edges(ents, inclusion, exclusion, kept);
    lemma_passing_names(ents, inclusion, exclusion);
    assert forall|n: Seq<char>| kept.contains(n) implies names_of(f).contains(n) by {
        assert(passing_names(ents, inclusion, exclusion).to_set().contains(n));
    }
    assert forall|i: int, j: int| 0 <= i < f.len() && 0 <= j < f[i].relationships.len() implies names_of(f).contains(
        #[trigger] f[i].relationships[j].target,
    ) by {
        assert(kept.contains(f[i].relationships[j].target));
    }
    assert forall|i: int, j: int| 0 <= i < f.len() && 0 <= j < f[i].implements.len() implies names_of(f).contains(
        #[trigger] f[i].implements[j],
    ) by {
        assert(kept.contains(f[i].implements[j]));
    }
}

proof fn lemma_kept_relationships_twice(rels: Seq<RelationshipView>, outer: Set<Seq<char>>, inner: Set<Seq<char>>)
    requires
        outer.subset_of(inner),
    ensures
        kept_relationships(kept_relationships(rels, inner), outer) == kept_relationships(rels, outer),
    decreases rels.len(),
{
    if rels.len() > 0 {
        let prev = rels.drop_last();
        lemma_kept_relationships_twice(prev, outer, inner);
        let k1 = kept_relationships(rels, inner);
        if inner.contains(rels.last().target) {
            assert(k1.drop_last() =~= kept_relationships(prev, inner));
            assert(k1.last() == rels.last());
        } else {
            assert(k1 =~= kept_relationships(prev, inner));
        }
        assert(kept_relationships(k1, outer) =~= kept_relationships(rels, outer));
    }
}

proof fn lemma_kept_parents_twice(names: Seq<Seq<char>>, outer: Set<Seq<char>>, inner: Set<Seq<char>>)
    requires
        outer.subset_of(inner),
    ensures
        kept_parents(kept_parents(names, inner), outer) == kept_parents(names, outer),
    decreases names.len(),
{
    if names.len() > 0 {
        let prev = names.drop_last();
        lemma_kept_parents_twice(prev, outer, inner);
        let k1 = kept_parents(names, inner);
        if inner.contains(names.last()) {
            assert(k1.drop_last() =~= kept_parents(prev, inner));
            assert(k1.last() == names.last());
        } else {
            assert(k1 =~= kept_parents(prev, inner));
        }
        assert(kept_parents(k1, outer) =~= kept_parents(names, outer));
    }
}

proof fn lemma_kept_entities_twice(
    entities: Seq<EntityView>,
    inclusion: Option<Seq<char>>,
    exclusion: Option<Seq<char>>,
    outer: Set<Seq<char>>,
    inner: Set<Seq<char>>,
)
    requires
        outer.subset_of(inner),
    ensures
        kept_entities(kept_entities(entities, inclusion, None, inner), None, exclusion, outer) == kept_entities(
            entities,
            inclusion,
            exclusion,
            outer,
        ),
    decreases entities.len(),
{
    if entities.len() > 0 {
        let prev = entities.drop_last();
        let e = entities.last();
        lemma_kept_entities_twice(prev, inclusion, exclusion, outer, inner);
        let k1 = kept_entities(entities, inclusion, None, inner);
        if passes(inclusion, None, e.name) {
            assert(k1.drop_last() =~= kept_entities(prev, inclusion, None, inner));
            lemma_kept_relationships_twice(e.relationships, outer, inner);
            lemma_kept_parents_twice(e.implements, outer, inner);
        } else {
            assert(k1 =~= kept_entities(prev, inclusion, None, inner));
        }
        assert(kept_entities(k1, None, exclusion, outer) =~= kept_entities(entities, inclusion, exclusion, outer));
    }
}

/// Applying both patterns at once is applying the inclusion pattern first and
/// then the exclusion pattern to what it left.
pub proof fn lemma_filters_compose(schema: SchemaView, inclusion: Option<Seq<char>>, exclusion: Option<Seq<char>>)
    ensures
        filtered(schema, inclusion, exclusion) == filtered(filtered(schema, inclusion, None), None, exclusion),
{
    let ents = schema.entities;
    let k = kept_names(ents, inclusion, exclusion);
    let k1 = kept_names(ents, inclusion, None);
    let s1 = filtered(schema, inclusion, None);
    let k2 = kept_names(s1.entities, None, exclusion);
    lemma_kept_entities_names(ents, inclusion, None, k1);
    lemma_passing_names(ents, inclusion, None);
    assert forall|n: Seq<char>| k2.contains(n) <==> k.contains(n) by {
        if k2.contains(n) {
            let i = choose|i: int| 0 <= i < s1.entities.len() && #[trigger] s1.entities[i].name == n;
            assert(names_of(s1.entities)[i] == n);
            assert(passing_names(ents, inclusion, None).contains(n));
            assert(k1.contains(n));
        }
        if k.contains(n) {
            assert(k1.contains(n));
            assert(passing_names(ents, inclusion, None).to_set().contains(n));
            let i = choose|i: int| 0 <= i < names_of(s1.entities).len() && names_of(s1.entities)[i] == n;
            assert(s1.entities[i].name == n);
        }
    }
    assert(k2 =~= k);
    assert(k.subset_of(k1));
    lemma_kept_entities_twice(ents, inclusion, exclusion, k, k1);
}


/// With no pattern every entity passes.
proof fn lemma_no_filter_names(entities: Seq<EntityView>)
    ensures
        passing_names(entities, None, None) == names_of(entities),
    decreases entities.len(),
{
    if entities.len() > 0 {
        lemma_no_filter_names(entities.drop_last());
        assert(names_of(entities).drop_last() =~= names_of(entities.drop_last()));
        assert(passing_names(entities, None, None) =~= names_of(entities));
    }
}

/// Without patterns the filters keep every entity, in order.
pub proof fn lemma_no_filters_keep_every_name(schema: SchemaView)
    ensures
        names_of(filtered(schema, None, None).entities) == names_of(schema.entities),
{
    lemma_filtered_entities(schema, None, None);
    lemma_no_filter_names(schema.entities);
}

proof fn lemma_kept_relationships_all(rels: Seq<RelationshipView>, kept: Set<Seq<char>>)
    requires
        forall|j: int| 0 <= j < rels.len() ==> kept.contains(#[trigger] rels[j].target),
    ensures
        kept_relationships(rels, kept) == rels,
    decreases rels.len(),
{
    if rels.len() > 0 {
        lemma_kept_relationships_all(rels.drop_last(), kept);
        assert(rels.drop_last().push(rels.last()) =~= rels);
        assert(kept.contains(rels[rels.len() - 1].target));
    }
}

proof fn lemma_kept_parents_all(names: Seq<Seq<char>>, kept: Set<Seq<char>>)
    requires
        forall|j: int| 0 <= j < names.len() ==> kept.contains(#[trigger] names[j]),
    ensures
        kept_parents(names, kept) == names,
    decreases names.len(),
{
    if names.len() > 0 {
        lemma_kept_parents_all(names.drop_last(), kept);
        assert(names.drop_last().push(names.last()) =~= names);
        assert(kept.contains(names[names.len() - 1]));
    }
}

/// Entities that all pass, with edges only to kept names, are kept as they
/// are.
proof fn lemma_kept_entities_all(
    entities: Seq<EntityView>,
    inclusion: Option<Seq<char>>,
    exclusion: Option<Seq<char>>,
    kept: Set<Seq<char>>,
)
    requires
        forall|i: int| 0 <= i < entities.len() ==> passes(inclusion, exclusion, (#[trigger] entities[i]).name),
        forall|i: int, j: int|
            0 <= i < entities.len() && 0 <= j < entities[i].relationships.len() ==> kept.contains(
                #[trigger] entities[i].relationships[j].target,
            ),
        forall|i: int, j: int|
            0 <= i < entities.len() && 0 <= j < entities[i].implements.len() ==> kept.contains(
                #[trigger] entities[i].implements[j],
            ),
    ensures
        kept_entities(entities, inclusion, exclusion, kept) == entities,
    decreases entities.len(),
{
    if entities.len() > 0 {
        let n = entities.len() - 1;
        let prev = entities.drop_last();
        assert forall|i: int, j: int|
            0 <= i < prev.len() && 0 <= j < prev[i].relationships.len() implies kept.contains(
                #[trigger] prev[i].relationships[j].target,
            ) by {
            assert(prev[i] == entities[i]);
        }
        assert forall|i: int, j: int|
            0 <= i < prev.len() && 0 <= j < prev[i].implements.len() implies kept.contains(
                #[trigger] prev[i].implements[j],
            ) by {
            assert(prev[i] == entities[i]);
        }
        assert forall|i: int| 0 <= i < prev.len() implies passes(inclusion, exclusion, (#[trigger] prev[i]).name) by {
            assert(prev[i] == entities[i]);
        }
        lemma_kept_entities_all(prev, inclusion, exclusion, kept);
        let e = entities[n];
        assert(passes(inclusion, exclusion, e.name));
        assert forall|j: int| 0 <= j < e.relationships.len() implies kept.contains(#[trigger] e.relationships[j].target) by {
            assert(kept.contains(entities[n].relationships[j].target));
        }
        assert forall|j: int| 0 <= j < e.implements.len() implies kept.contains(#[trigger] e.implements[j]) by {
            assert(kept.contains(entities[n].implements[j]));
        }
        lemma_kept_relationships_all(e.relationships, kept);
        lemma_kept_parents_all(e.implements, kept);
        assert(EntityView {
            relationships: kept_relationships(e.relationships, kept),
            implements: kept_parents(e.implements, kept),
            ..e
        } == e);
        assert(entities.last() == e);
        assert(prev.push(e) =~= entities);
        assert(kept_entities(entities, inclusion, exclusion, kept) =~= entities);
    }
}

/// Filtering twice with the same patterns changes nothing more.
pub proof fn lemma_filters_idempotent(schema: SchemaView, inclusion: Option<Seq<char>>, exclusion: Option<Seq<char>>)
    ensures
        filtered(filtered(schema, inclusion, exclusion), inclusion, exclusion) == filtered(
            schema,
            inclusion,
            exclusion,
        ),
{
    let f = filtered(schema, inclusion, exclusion);
    let fe = f.entities;
    lemma_filtered_entities(schema, inclusion, exclusion);
    let kept2 = kept_names(fe, inclusion, exclusion);
    lemma_passing_names(fe, inclusion, exclusion);
    assert forall|n: Seq<char>| names_of(fe).contains(n) implies kept2.contains(n) by {
        let k = choose|k: int| 0 <= k < names_of(fe).len() && names_of(fe)[k] == n;
        assert(fe[k].name == n);
        assert(passes(inclusion, exclusion, fe[k].name));
    }
    assert forall|i: int, j: int| 0 <= i < fe.len() && 0 <= j < fe[i].relationships.len() implies kept2.contains(
        #[trigger] fe[i].relationships[j].target,
    ) by {
        assert(names_of(fe).contains(fe[i].relationships[j].target));
    }
    assert forall|i: int, j: int| 0 <= i < fe.len() && 0 <= j < fe[i].implements.len() implies kept2.contains(
        #[trigger] fe[i].implements[j],
    ) by {
        assert(names_of(fe).contains(fe[i].implements[j]));
    }
    lemma_kept_entities_all(fe, inclusion, exclusion, kept2);
    assert(filtered(f, inclusion, exclusion) =~= f);
}

} // verus!
