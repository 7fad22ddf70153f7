//! relationship deduplication
//!
//! merges bidirectional relationships (A.field1→B and B.field2→A) into a
//! single edge, reducing visual clutter in rendered diagrams.

use vstd::prelude::*;
use vstd::multiset::Multiset;
use crate::order::{insert_stable, sort_stable, lemma_insert_stable_at};
use crate::parse::{Cardinality, Entity, EntityView, Relationship, RelationshipView, Schema, SchemaView};
use crate::text::{seq_lt, seq_le, str_eq, str_lt, copy_string};

verus! {

/// one side of a relationship edge
#[derive(Debug)]
pub struct EdgeSide {
    pub field_name: String,
    pub cardinality: Cardinality,
}

/// a possibly-merged relationship edge between two entities.
///
/// for unidirectional edges, `left` is the source and `right` is the target.
/// for bidirectional edges, `left` is the alphabetically first entity.
#[derive(Debug)]
pub struct MergedEdge {
    pub left: String,
    pub right: String,
    /// relationship from left to right
    pub left_to_right: EdgeSide,
    /// relationship from right to left (present only for bidirectional edges)
    pub right_to_left: Option<EdgeSide>,
}

#[verifier::ext_equal]
pub struct EdgeSideView {
    pub field_name: Seq<char>,
    pub cardinality: Cardinality,
}

#[verifier::ext_equal]
pub struct MergedEdgeView {
    pub left: Seq<char>,
    pub right: Seq<char>,
    pub left_to_right: EdgeSideView,
    pub right_to_left: Option<EdgeSideView>,
}

impl View for EdgeSide {
    type V = EdgeSideView;

    open spec fn view(&self) -> EdgeSideView {
        EdgeSideView { field_name: self.field_name@, cardinality: self.cardinality }
    }
}

/// The view of an optional edge side.
pub open spec fn side_view(s: Option<EdgeSide>) -> Option<EdgeSideView> {
    match s {
        Some(e) => Some(e@),
        None => None,
    }
}

impl View for MergedEdge {
    type V = MergedEdgeView;

    open spec fn view(&self) -> MergedEdgeView {
        MergedEdgeView {
            left: self.left@,
            right: self.right@,
            left_to_right: self.left_to_right@,
            right_to_left: side_view(self.right_to_left),
        }
    }
}

/// The views of a sequence of edges.
pub open spec fn edges_view(edges: Seq<MergedEdge>) -> Seq<MergedEdgeView> {
    edges.map_values(|e: MergedEdge| e@)
}

/// Every relationship of the schema with the name of its source entity, in
/// entity order and then relationship order.
pub open spec fn flat_relationships(entities: Seq<EntityView>) -> Seq<(Seq<char>, RelationshipView)>
    decreases entities.len(),
{
    if entities.len() == 0 {
        Seq::empty()
    } else {
        flat_relationships(entities.drop_last()) + entities.last().relationships.map_values(
            |r: RelationshipView| (entities.last().name, r),
        )
    }
}

/// The relationships between one unordered pair of distinct entities:
/// `lo` sorts first, `fwd` holds those from `lo` to `hi` and `rev` those from
/// `hi` to `lo`, each in relationship order.
#[verifier::ext_equal]
pub struct GroupView {
    pub lo: Seq<char>,
    pub hi: Seq<char>,
    pub fwd: Seq<EdgeSideView>,
    pub rev: Seq<EdgeSideView>,
}

/// The side of an edge that a relationship makes.
pub open spec fn side_of(r: RelationshipView) -> EdgeSideView {
    EdgeSideView { field_name: r.field_name, cardinality: r.cardinality }
}

/// The index of the group of the pair `lo`, `hi`.
pub open spec fn group_index(groups: Seq<GroupView>, lo: Seq<char>, hi: Seq<char>) -> Option<int>
    decreases groups.len(),
{
    if groups.len() == 0 {
        None
    } else if groups.last().lo == lo && groups.last().hi == hi {
        Some(groups.len() - 1)
    } else {
        group_index(groups.drop_last(), lo, hi)
    }
}

/// Files the relationship `r` from `src` under the group of its pair.
pub open spec fn add_to_groups(groups: Seq<GroupView>, src: Seq<char>, r: RelationshipView) -> Seq<GroupView> {
    let forward = seq_le(src, r.target);
    let lo = if forward { src } else { r.target };
    let hi = if forward { r.target } else { src };
    match group_index(groups, lo, hi) {
        Some(i) => groups.update(
            i,
            if forward {
                GroupView { fwd: groups[i].fwd.push(side_of(r)), ..groups[i] }
            } else {
                GroupView { rev: groups[i].rev.push(side_of(r)), ..groups[i] }
            },
        ),
        None => groups.push(
            GroupView {
                lo: lo,
                hi: hi,
                fwd: if forward { seq![side_of(r)] } else { Seq::empty() },
                rev: if forward { Seq::empty() } else { seq![side_of(r)] },
            },
        ),
    }
}

/// The groups of the relationships between distinct entities, in order of
/// the first relationship of each pair.
pub open spec fn groups_of(rels: Seq<(Seq<char>, RelationshipView)>) -> Seq<GroupView>
    decreases rels.len(),
{
    if rels.len() == 0 {
        Seq::empty()
    } else if rels.last().0 == rels.last().1.target {
        groups_of(rels.drop_last())
    } else {
        add_to_groups(groups_of(rels.drop_last()), rels.last().0, rels.last().1)
    }
}

/// The self-referential relationships, each an unmerged edge.
pub open spec fn self_edges(rels: Seq<(Seq<char>, RelationshipView)>) -> Seq<MergedEdgeView>
    decreases rels.len(),
{
    if rels.len() == 0 {
        Seq::empty()
    } else if rels.last().0 == rels.last().1.target {
        self_edges(rels.drop_last()).push(
            MergedEdgeView {
                left: rels.last().0,
                right: rels.last().1.target,
                left_to_right: side_of(rels.last().1),
                right_to_left: None,
            },
        )
    } else {
        self_edges(rels.drop_last())
    }
}

/// The `k`-th edge of a group: forward and reverse relationships are paired
/// up in order; the surplus of either direction stays unmerged, a reverse one
/// keeping its own direction.
pub open spec fn group_edge(g: GroupView, k: int) -> MergedEdgeView {
    if k < g.fwd.len() && k < g.rev.len() {
        MergedEdgeView { left: g.lo, right: g.hi, left_to_right: g.fwd[k], right_to_left: Some(g.rev[k]) }
    } else if k < g.fwd.len() {
        MergedEdgeView { left: g.lo, right: g.hi, left_to_right: g.fwd[k], right_to_left: None }
    } else {
        MergedEdgeView { left: g.hi, right: g.lo, left_to_right: g.rev[k], right_to_left: None }
    }
}

/// The number of edges a group yields.
pub open spec fn group_len(g: GroupView) -> nat {
    if g.fwd.len() >= g.rev.len() {
        g.fwd.len()
    } else {
        g.rev.len()
    }
}

/// The edges of a group.
pub open spec fn group_edges(g: GroupView) -> Seq<MergedEdgeView> {
    Seq::new(group_len(g), |k: int| group_edge(g, k))
}

/// The edges of a sequence of groups, group after group.
pub open spec fn all_group_edges(groups: Seq<GroupView>) -> Seq<MergedEdgeView>
    decreases groups.len(),
{
    if groups.len() == 0 {
        Seq::empty()
    } else {
        all_group_edges(groups.drop_last()) + group_edges(groups.last())
    }
}

/// Orders edges by `left`, then `right`, then the forward field name.
pub open spec fn edge_lt() -> spec_fn(MergedEdgeView, MergedEdgeView) -> bool {
    |a: MergedEdgeView, b: MergedEdgeView|
        seq_lt(a.left, b.left) || (a.left == b.left && (seq_lt(a.right, b.right) || (a.right == b.right
            && seq_lt(a.left_to_right.field_name, b.left_to_right.field_name))))
}

/// The deduplicated edges of a schema: merged, unmerged and self-referential
/// edges, sorted stably by `left`, `right` and the forward field name.
pub open spec fn deduplicated(schema: SchemaView) -> Seq<MergedEdgeView> {
    let rels = flat_relationships(schema.entities);
    sort_stable(all_group_edges(groups_of(rels)) + self_edges(rels), edge_lt())
}


/// The relationships between one unordered pair of distinct entities.
///
/// Groups are kept in a `Vec`, found by a linear search on the pair, rather
/// than in a `BTreeMap` keyed by the pair of names: vstd specifies no order on
/// `String` keys, so nothing about a map walked in key order could be proved.
/// The groups are walked in order of first appearance, and the edges sorted
/// afterwards by `sort_stable`, which gives the same output.
struct Group {
    lo: String,
    hi: String,
    fwd: Vec<EdgeSide>,
    rev: Vec<EdgeSide>,
}

impl View for Group {
    type V = GroupView;

    closed spec fn view(&self) -> GroupView {
        GroupView {
            lo: self.lo@,
            hi: self.hi@,
            fwd: self.fwd@.map_values(|e: EdgeSide| e@),
            rev: self.rev@.map_values(|e: EdgeSide| e@),
        }
    }
}

/// The views of a sequence of groups.
spec fn groups_view(groups: Seq<Group>) -> Seq<GroupView> {
    groups.map_values(|g: Group| g@)
}

/// A copy of an edge side.
fn copy_side(s: &EdgeSide) -> (res: EdgeSide)
    ensures
        res@ == s@,
{
    EdgeSide { field_name: copy_string(&s.field_name), cardinality: s.cardinality }
}

/// The side of an edge that a relationship makes.
fn make_side(r: &Relationship) -> (res: EdgeSide)
    ensures
        res@ == side_of(r@),
{
    EdgeSide { field_name: copy_string(&r.field_name), cardinality: r.cardinality }
}

/// The index of the group of the pair `lo`, `hi`.
fn find_group(groups: &Vec<Group>, lo: &str, hi: &str) -> (res: Option<usize>)
    ensures
        match res {
            Some(i) => group_index(groups_view(groups@), lo@, hi@) == Some(i as int) && i < groups@.len(),
            None => group_index(groups_view(groups@), lo@, hi@) is None,
        },
{
    let ghost gv = groups_view(groups@);
    let mut i = groups.len();
    assert(gv.take(i as int) =~= gv);
    while i > 0
        invariant
            i <= groups@.len(),
            gv == groups_view(groups@),
            group_index(gv, lo@, hi@) == group_index(gv.take(i as int), lo@, hi@),
        decreases i,
    {
        i -= 1;
        assert(gv.take(i + 1).drop_last() =~= gv.take(i as int));
        assert(gv.take(i + 1).last() == gv[i as int]);
        if str_eq(groups[i].lo.as_str(), lo) && str_eq(groups[i].hi.as_str(), hi) {
            return Some(i);
        }
    }
    None
}

/// Files the relationship `r` from `src` under the group of its pair.
fn file_relationship(groups: &mut Vec<Group>, src: &str, r: &Relationship)
    ensures
        groups_view(final(groups)@) == add_to_groups(groups_view(old(groups)@), src@, r@),
{
    let ghost gv = groups_view(groups@);
    let forward = !str_lt(r.target.as_str(), src);
    proof {
        crate::text::lemma_seq_lt_total(src@, r@.target);
        if seq_lt(src@, r@.target) {
            crate::text::lemma_seq_lt_asymmetric(src@, r@.target);
        }
        if src@ == r@.target {
            crate::text::lemma_seq_lt_irreflexive(src@);
        }
    }
    assert(forward == seq_le(src@, r@.target));
    let (lo, hi) = if forward {
        (src, r.target.as_str())
    } else {
        (r.target.as_str(), src)
    };
    match find_group(groups, lo, hi) {
        Some(i) => {
            let mut g = groups.remove(i);
            if forward {
                g.fwd.push(make_side(r));
            } else {
                g.rev.push(make_side(r));
            }
            groups.insert(i, g);
            assert(g@.fwd =~= (if forward { gv[i as int].fwd.push(side_of(r@)) } else { gv[i as int].fwd }));
            assert(g@.rev =~= (if forward { gv[i as int].rev } else { gv[i as int].rev.push(side_of(r@)) }));
            assert(groups_view(groups@) =~= add_to_groups(gv, src@, r@));
        },
        None => {
            let mut fwd: Vec<EdgeSide> = Vec::new();
            let mut rev: Vec<EdgeSide> = Vec::new();
            if forward {
                fwd.push(make_side(r));
            } else {
                rev.push(make_side(r));
            }
            let g = Group { lo: crate::text::to_owned_string(lo), hi: crate::text::to_owned_string(hi), fwd, rev };
            groups.push(g);
            assert(g@.fwd =~= (if forward { seq![side_of(r@)] } else { Seq::empty() }));
            assert(g@.rev =~= (if forward { Seq::empty() } else { seq![side_of(r@)] }));
            assert(groups_view(groups@) =~= add_to_groups(gv, src@, r@));
        },
    }
}

/// The `k`-th edge of a group.
fn make_group_edge(g: &Group, k: usize) -> (res: MergedEdge)
    requires
        k < group_len(g@),
    ensures
        res@ == group_edge(g@, k as int),
{
    if k < g.fwd.len() && k < g.rev.len() {
        MergedEdge {
            left: copy_string(&g.lo),
            right: copy_string(&g.hi),
            left_to_right: copy_side(&g.fwd[k]),
            right_to_left: Some(copy_side(&g.rev[k])),
        }
    } else if k < g.fwd.len() {
        MergedEdge {
            left: copy_string(&g.lo),
            right: copy_string(&g.hi),
            left_to_right: copy_side(&g.fwd[k]),
            right_to_left: None,
        }
    } else {
        MergedEdge {
            left: copy_string(&g.hi),
            right: copy_string(&g.lo),
            left_to_right: copy_side(&g.rev[k]),
            right_to_left: None,
        }
    }
}

/// Whether edge `a` sorts strictly before edge `b`.
fn edge_before(a: &MergedEdge, b: &MergedEdge) -> (res: bool)
    ensures
        res == (edge_lt())(a@, b@),
{
    str_lt(a.left.as_str(), b.left.as_str()) || (str_eq(a.left.as_str(), b.left.as_str()) && (str_lt(
        a.right.as_str(),
        b.right.as_str(),
    ) || (str_eq(a.right.as_str(), b.right.as_str()) && str_lt(
        a.left_to_right.field_name.as_str(),
        b.left_to_right.field_name.as_str(),
    ))))
}

/// deduplicate bidirectional relationships in a schema.
///
/// groups relationships by canonical entity pair (sorted names), merges
/// pairs that exist in both directions into a single [`MergedEdge`], and
/// leaves unidirectional and self-referential relationships untouched.
pub fn deduplicate(schema: &Schema) -> (res: Vec<MergedEdge>)
    ensures
        edges_view(res@) == deduplicated(schema@),
{
    let ghost ents = schema@.entities;
    let mut groups: Vec<Group> = Vec::new();
    let mut self_refs: Vec<MergedEdge> = Vec::new();
    let mut i: usize = 0;
    assert(ents.take(0) =~= Seq::<EntityView>::empty());
    assert(groups_view(groups@) =~= Seq::<GroupView>::empty());
    assert(edges_view(self_refs@) =~= Seq::<MergedEdgeView>::empty());
    while i < schema.entities.len()
        invariant
            ents == schema@.entities,
            i <= ents.len(),
            groups_view(groups@) == groups_of(flat_relationships(ents.take(i as int))),
            edges_view(self_refs@) == self_edges(flat_relationships(ents.take(i as int))),
        decreases ents.len() - i,
    {
        let entity = &schema.entities[i];
        let ghost base = flat_relationships(ents.take(i as int));
        let ghost e = ents[i as int];
        let ghost pairs = e.relationships.map_values(|r: RelationshipView| (e.name, r));
        assert(entity@ == e);
        assert(ents.take(i + 1).drop_last() =~= ents.take(i as int));
        assert(ents.take(i + 1).last() == e);
        assert(flat_relationships(ents.take(i + 1)) == base + pairs);
        let mut j: usize = 0;
        assert(base + pairs.take(0) =~= base);
        while j < entity.relationships.len()
            invariant
                entity@ == e,
                j <= e.relationships.len(),
                pairs == e.relationships.map_values(|r: RelationshipView| (e.name, r)),
                groups_view(groups@) == groups_of(base + pairs.take(j as int)),
                edges_view(self_refs@) == self_edges(base + pairs.take(j as int)),
            decreases e.relationships.len() - j,
        {
            let rel = &entity.relationships[j];
            assert(rel@ == e.relationships[j as int]);
            let ghost prefix = base + pairs.take(j + 1);
            assert(prefix.drop_last() =~= base + pairs.take(j as int));
            assert(prefix.last() == (e.name, rel@));
            if str_eq(entity.name.as_str(), rel.target.as_str()) {
                let ghost prev = edges_view(self_refs@);
                self_refs.push(
                    MergedEdge {
                        left: copy_string(&entity.name),
                        right: copy_string(&rel.target),
                        left_to_right: make_side(rel),
                        right_to_left: None,
                    },
                );
                assert(edges_view(self_refs@) =~= prev.push(self_refs@.last()@));
            } else {
                file_relationship(&mut groups, entity.name.as_str(), rel);
            }
            j += 1;
        }
        assert(base + pairs.take(e.relationships.len() as int) =~= base + pairs);
        i += 1;
    }
    assert(ents.take(ents.len() as int) =~= ents);
    let ghost rels = flat_relationships(ents);
    let ghost gv = groups_of(rels);
    let mut unsorted: Vec<MergedEdge> = Vec::new();
    let mut gi: usize = 0;
    assert(gv.take(0) =~= Seq::<GroupView>::empty());
    assert(edges_view(unsorted@) =~= Seq::<MergedEdgeView>::empty());
    while gi < groups.len()
        invariant
            gv == groups_view(groups@),
            gi <= groups@.len(),
            edges_view(unsorted@) == all_group_edges(gv.take(gi as int)),
        decreases groups@.len() - gi,
    {
        let g = &groups[gi];
        assert(g@ == gv[gi as int]);
        let n = if g.fwd.len() >= g.rev.len() {
            g.fwd.len()
        } else {
            g.rev.len()
        };
        let ghost start = edges_view(unsorted@);
        let mut k: usize = 0;
        assert(group_edges(g@).take(0) =~= Seq::<MergedEdgeView>::empty());
        assert(start + group_edges(g@).take(0) =~= start);
        while k < n
            invariant
                g@ == gv[gi as int],
                n == group_len(g@),
                k <= n,
                edges_view(unsorted@) == start + group_edges(g@).take(k as int),
            decreases n - k,
        {
            let edge = make_group_edge(g, k);
            let ghost prev = edges_view(unsorted@);
            assert(edge@ == group_edges(g@)[k as int]);
            unsorted.push(edge);
            assert(edges_view(unsorted@) =~= prev.push(edge@));
            assert(group_edges(g@).take(k + 1) =~= group_edges(g@).take(k as int).push(edge@));
            assert(edges_view(unsorted@) =~= start + group_edges(g@).take(k + 1));
            k += 1;
        }
        assert(group_edges(g@).take(n as int) =~= group_edges(g@));
        assert(gv.take(gi + 1).drop_last() =~= gv.take(gi as int));
        assert(gv.take(gi + 1).last() == g@);
        gi += 1;
    }
    assert(gv.take(groups@.len() as int) =~= gv);
    let ghost u0 = edges_view(unsorted@);
    let ghost s0 = edges_view(self_refs@);
    unsorted.append(&mut self_refs);
    let ghost u = edges_view(unsorted@);
    assert(u =~= u0 + s0);
    let mut out: Vec<MergedEdge> = Vec::new();
    let mut consumed: usize = 0;
    let total = unsorted.len();
    assert(u.take(0) =~= Seq::<MergedEdgeView>::empty());
    assert(edges_view(out@) =~= Seq::<MergedEdgeView>::empty());
    assert(u.skip(0) =~= u);
    while unsorted.len() > 0
        invariant
            total == u.len(),
            consumed + unsorted@.len() == total,
            edges_view(unsorted@) == u.skip(consumed as int),
            edges_view(out@) == sort_stable(u.take(consumed as int), edge_lt()),
        decreases unsorted@.len(),
    {
        let ghost uv = edges_view(unsorted@);
        assert(uv[0] == u[consumed as int]);
        let edge = unsorted.remove(0);
        assert(edge@ == u[consumed as int]);
        assert(edges_view(unsorted@) =~= uv.drop_first());
        let ghost ov = edges_view(out@);
        let mut p: usize = 0;
        while p < out.len() && !edge_before(&edge, &out[p])
            invariant
                p <= out@.len(),
                ov == edges_view(out@),
                forall|q: int| 0 <= q < p ==> !(edge_lt())(edge@, #[trigger] ov[q]),
            decreases out@.len() - p,
        {
            p += 1;
        }
        proof {
            lemma_insert_stable_at(ov, edge@, edge_lt(), p as int);
            assert(u.take(consumed + 1).drop_last() =~= u.take(consumed as int));
            assert(u.take(consumed + 1).last() == edge@);
        }
        out.insert(p, edge);
        assert(edges_view(out@) =~= ov.take(p as int) + seq![edge@] + ov.skip(p as int));
        assert(edges_view(unsorted@) =~= u.skip(consumed + 1));
        consumed += 1;
    }
    assert(u.take(total as int) =~= u);
    out
}


/// A relationship read as a directed side: source entity, target entity and
/// the field with its cardinality.
pub type DirectedSide = (Seq<char>, Seq<char>, EdgeSideView);

/// The directed sides an edge draws: left to right, and, when merged, right
/// to left.
pub open spec fn edge_sides(e: MergedEdgeView) -> Multiset<DirectedSide> {
    let forward = Multiset::empty().insert((e.left, e.right, e.left_to_right));
    match e.right_to_left {
        Some(back) => forward.insert((e.right, e.left, back)),
        None => forward,
    }
}

/// The directed sides that a sequence of edges draws.
pub open spec fn sides_of(edges: Seq<MergedEdgeView>) -> Multiset<DirectedSide>
    decreases edges.len(),
{
    if edges.len() == 0 {
        Multiset::empty()
    } else {
        sides_of(edges.drop_last()).add(edge_sides(edges.last()))
    }
}

/// The relationships, each read as a directed side.
pub open spec fn relationship_sides(rels: Seq<(Seq<char>, RelationshipView)>) -> Multiset<DirectedSide>
    decreases rels.len(),
{
    if rels.len() == 0 {
        Multiset::empty()
    } else {
        relationship_sides(rels.drop_last()).insert((rels.last().0, rels.last().1.target, side_of(rels.last().1)))
    }
}

/// The directed sides from `a` to `b` made by `sides`.
spec fn directed(a: Seq<char>, b: Seq<char>, sides: Seq<EdgeSideView>) -> Multiset<DirectedSide>
    decreases sides.len(),
{
    if sides.len() == 0 {
        Multiset::empty()
    } else {
        directed(a, b, sides.drop_last()).insert((a, b, sides.last()))
    }
}

/// The directed sides a group holds.
spec fn group_sides(g: GroupView) -> Multiset<DirectedSide> {
    directed(g.lo, g.hi, g.fwd).add(directed(g.hi, g.lo, g.rev))
}

/// The directed sides a sequence of groups holds.
spec fn groups_sides(groups: Seq<GroupView>) -> Multiset<DirectedSide>
    decreases groups.len(),
{
    if groups.len() == 0 {
        Multiset::empty()
    } else {
        groups_sides(groups.drop_last()).add(group_sides(groups.last()))
    }
}

proof fn lemma_sides_of_single(e: MergedEdgeView)
    ensures
        sides_of(seq![e]) == edge_sides(e),
{
    broadcast use vstd::multiset::group_multiset_axioms;

    assert(seq![e].drop_last() =~= Seq::<MergedEdgeView>::empty());
    assert(seq![e].last() == e);
    assert(sides_of(Seq::<MergedEdgeView>::empty()) =~= Multiset::empty());
    assert(sides_of(seq![e]) =~= edge_sides(e));
}

proof fn lemma_sides_of_concat(a: Seq<MergedEdgeView>, b: Seq<MergedEdgeView>)
    ensures
        sides_of(a + b) == sides_of(a).add(sides_of(b)),
    decreases b.len(),
{
    broadcast use vstd::multiset::group_multiset_axioms;

    if b.len() == 0 {
        assert(a + b =~= a);
        assert(sides_of(a).add(sides_of(b)) =~= sides_of(a));
    } else {
        lemma_sides_of_concat(a, b.drop_last());
        assert((a + b).drop_last() =~= a + b.drop_last());
        assert((a + b).last() == b.last());
        assert(sides_of(a + b) =~= sides_of(a).add(sides_of(b)));
    }
}

proof fn lemma_sides_of_insert_stable(
    s: Seq<MergedEdgeView>,
    x: MergedEdgeView,
    lt: spec_fn(MergedEdgeView, MergedEdgeView) -> bool,
)
    ensures
        sides_of(insert_stable(s, x, lt)) == sides_of(s).add(edge_sides(x)),
    decreases s.len(),
{
    broadcast use vstd::multiset::group_multiset_axioms;

    lemma_sides_of_single(x);
    if s.len() == 0 {
        assert(sides_of(s).add(edge_sides(x)) =~= edge_sides(x));
    } else if lt(x, s[0]) {
        lemma_sides_of_concat(seq![x], s);
        assert(sides_of(insert_stable(s, x, lt)) =~= sides_of(s).add(edge_sides(x)));
    } else {
        let t = s.drop_first();
        lemma_sides_of_insert_stable(t, x, lt);
        lemma_sides_of_single(s[0]);
        lemma_sides_of_concat(seq![s[0]], insert_stable(t, x, lt));
        lemma_sides_of_concat(seq![s[0]], t);
        assert(seq![s[0]] + t =~= s);
        assert(sides_of(insert_stable(s, x, lt)) =~= sides_of(s).add(edge_sides(x)));
    }
}

proof fn lemma_sides_of_sort_stable(s: Seq<MergedEdgeView>, lt: spec_fn(MergedEdgeView, MergedEdgeView) -> bool)
    ensures
        sides_of(sort_stable(s, lt)) == sides_of(s),
    decreases s.len(),
{
    if s.len() > 0 {
        lemma_sides_of_sort_stable(s.drop_last(), lt);
        lemma_sides_of_insert_stable(sort_stable(s.drop_last(), lt), s.last(), lt);
    }
}

/// The first `k` edges of a group draw the first `k` forward and the first
/// `k` reverse relationships.
proof fn lemma_group_edges_prefix(g: GroupView, k: int)
    requires
        0 <= k <= group_len(g),
    ensures
        sides_of(group_edges(g).take(k)) == directed(
            g.lo,
            g.hi,
            g.fwd.take(if k < g.fwd.len() { k } else { g.fwd.len() as int }),
        ).add(directed(g.hi, g.lo, g.rev.take(if k < g.rev.len() { k } else { g.rev.len() as int }))),
    decreases k,
{
    broadcast use vstd::multiset::group_multiset_axioms;

    let f = g.fwd;
    let r = g.rev;
    if k == 0 {
        assert(group_edges(g).take(0) =~= Seq::<MergedEdgeView>::empty());
        assert(f.take(0) =~= Seq::<EdgeSideView>::empty());
        assert(r.take(0) =~= Seq::<EdgeSideView>::empty());
        assert(directed(g.lo, g.hi, f.take(0)).add(directed(g.hi, g.lo, r.take(0))) =~= Multiset::empty());
    } else {
        let j = k - 1;
        lemma_group_edges_prefix(g, j);
        let es = group_edges(g);
        assert(es.take(k).drop_last() =~= es.take(j));
        assert(es.take(k).last() == group_edge(g, j));
        if j < f.len() {
            assert(f.take(k).drop_last() =~= f.take(j));
            assert(f.take(k).last() == f[j]);
        }
        if j < r.len() {
            assert(r.take(k).drop_last() =~= r.take(j));
            assert(r.take(k).last() == r[j]);
        }
        let fj = if j < f.len() { j } else { f.len() as int };
        let fk = if k < f.len() { k } else { f.len() as int };
        let rj = if j < r.len() { j } else { r.len() as int };
        let rk = if k < r.len() { k } else { r.len() as int };
        if j >= f.len() {
            assert(fj == fk);
        }
        if j >= r.len() {
            assert(rj == rk);
        }
        assert(sides_of(es.take(k)) =~= directed(g.lo, g.hi, f.take(fk)).add(directed(g.hi, g.lo, r.take(rk))));
    }
}

proof fn lemma_group_edges_sides(g: GroupView)
    ensures
        sides_of(group_edges(g)) == group_sides(g),
{
    lemma_group_edges_prefix(g, group_len(g) as int);
    assert(group_edges(g).take(group_len(g) as int) =~= group_edges(g));
    assert(g.fwd.take(g.fwd.len() as int) =~= g.fwd);
    assert(g.rev.take(g.rev.len() as int) =~= g.rev);
}

proof fn lemma_all_group_edges_sides(groups: Seq<GroupView>)
    ensures
        sides_of(all_group_edges(groups)) == groups_sides(groups),
    decreases groups.len(),
{
    if groups.len() > 0 {
        lemma_all_group_edges_sides(groups.drop_last());
        lemma_sides_of_concat(all_group_edges(groups.drop_last()), group_edges(groups.last()));
        lemma_group_edges_sides(groups.last());
    }
}

proof fn lemma_group_index_found(groups: Seq<GroupView>, lo: Seq<char>, hi: Seq<char>)
    ensures
        group_index(groups, lo, hi) matches Some(i) ==> 0 <= i < groups.len() && groups[i].lo == lo
            && groups[i].hi == hi,
    decreases groups.len(),
{
    if groups.len() > 0 {
        lemma_group_index_found(groups.drop_last(), lo, hi);
    }
}

proof fn lemma_groups_sides_update(groups: Seq<GroupView>, i: int, g: GroupView)
    requires
        0 <= i < groups.len(),
    ensures
        groups_sides(groups.update(i, g)).add(group_sides(groups[i])) == groups_sides(groups).add(group_sides(g)),
    decreases groups.len(),
{
    broadcast use vstd::multiset::group_multiset_axioms;

    let u = groups.update(i, g);
    let gi = group_sides(groups[i]);
    let gg = group_sides(g);
    if i == groups.len() - 1 {
        assert(u.drop_last() =~= groups.drop_last());
        assert(u.last() == g);
        let base = groups_sides(groups.drop_last());
        assert(groups_sides(u) == base.add(gg));
        assert(groups_sides(groups) == base.add(gi));
        assert(base.add(gg).add(gi) =~= base.add(gi).add(gg));
    } else {
        let d = groups.drop_last();
        lemma_groups_sides_update(d, i, g);
        assert(u.drop_last() =~= d.update(i, g));
        assert(u.last() == groups.last());
        assert(d[i] == groups[i]);
        let last = group_sides(groups.last());
        assert(groups_sides(u) == groups_sides(d.update(i, g)).add(last));
        assert(groups_sides(groups) == groups_sides(d).add(last));
        assert(groups_sides(d.update(i, g)).add(gi) == groups_sides(d).add(gg));
        assert(groups_sides(d.update(i, g)).add(last).add(gi) =~= groups_sides(d.update(i, g)).add(gi).add(last));
        assert(groups_sides(d).add(last).add(gg) =~= groups_sides(d).add(gg).add(last));
    }
}

proof fn lemma_directed_push(a: Seq<char>, b: Seq<char>, sides: Seq<EdgeSideView>, x: EdgeSideView)
    ensures
        directed(a, b, sides.push(x)) == directed(a, b, sides).insert((a, b, x)),
{
    assert(sides.push(x).drop_last() =~= sides);
}

proof fn lemma_add_to_groups_sides(groups: Seq<GroupView>, src: Seq<char>, r: RelationshipView)
    ensures
        groups_sides(add_to_groups(groups, src, r)) == groups_sides(groups).insert((src, r.target, side_of(r))),
{
    broadcast use vstd::multiset::group_multiset_axioms;

    let forward = seq_le(src, r.target);
    let lo = if forward { src } else { r.target };
    let hi = if forward { r.target } else { src };
    let d = (src, r.target, side_of(r));
    lemma_group_index_found(groups, lo, hi);
    match group_index(groups, lo, hi) {
        Some(i) => {
            let old_g = groups[i];
            let new_g = if forward {
                GroupView { fwd: old_g.fwd.push(side_of(r)), ..old_g }
            } else {
                GroupView { rev: old_g.rev.push(side_of(r)), ..old_g }
            };
            lemma_directed_push(old_g.lo, old_g.hi, old_g.fwd, side_of(r));
            lemma_directed_push(old_g.hi, old_g.lo, old_g.rev, side_of(r));
            assert(group_sides(new_g) =~= group_sides(old_g).insert(d));
            lemma_groups_sides_update(groups, i, new_g);
            let u = groups.update(i, new_g);
            assert(groups_sides(u).add(group_sides(old_g)) == groups_sides(groups).add(group_sides(new_g)));
            assert forall|x: DirectedSide| #[trigger] groups_sides(u).count(x) == groups_sides(groups).insert(d).count(x) by {
                assert(groups_sides(u).add(group_sides(old_g)).count(x) == groups_sides(groups).add(group_sides(new_g)).count(x));
            }
            assert(groups_sides(u) =~= groups_sides(groups).insert(d));
        },
        None => {
            let g = GroupView {
                lo: lo,
                hi: hi,
                fwd: if forward { seq![side_of(r)] } else { Seq::empty() },
                rev: if forward { Seq::empty() } else { seq![side_of(r)] },
            };
            lemma_directed_push(lo, hi, Seq::empty(), side_of(r));
            lemma_directed_push(hi, lo, Seq::empty(), side_of(r));
            assert(Seq::<EdgeSideView>::empty().push(side_of(r)) =~= seq![side_of(r)]);
            assert(group_sides(g) =~= Multiset::empty().insert(d));
            assert(groups.push(g).drop_last() =~= groups);
            assert(groups_sides(groups.push(g)) =~= groups_sides(groups).insert(d));
        },
    }
}

proof fn lemma_split_sides(rels: Seq<(Seq<char>, RelationshipView)>)
    ensures
        sides_of(self_edges(rels)).add(groups_sides(groups_of(rels))) == relationship_sides(rels),
    decreases rels.len(),
{
    broadcast use vstd::multiset::group_multiset_axioms;

    if rels.len() == 0 {
        assert(sides_of(self_edges(rels)).add(groups_sides(groups_of(rels))) =~= relationship_sides(rels));
    } else {
        let prev = rels.drop_last();
        let (src, r) = rels.last();
        lemma_split_sides(prev);
        if src == r.target {
            let e = MergedEdgeView { left: src, right: r.target, left_to_right: side_of(r), right_to_left: None };
            assert(self_edges(prev).push(e).drop_last() =~= self_edges(prev));
        } else {
            lemma_add_to_groups_sides(groups_of(prev), src, r);
        }
        assert(sides_of(self_edges(rels)).add(groups_sides(groups_of(rels))) =~= relationship_sides(rels));
    }
}

/// Deduplication neither loses nor repeats a relationship: read each edge
/// left to right, and a merged edge also right to left, and the directed
/// sides drawn are exactly the schema's relationships, each as its source
/// entity, its target and its field with cardinality.
pub proof fn lemma_deduplicate_keeps_every_relationship(schema: SchemaView)
    ensures
        sides_of(deduplicated(schema)) == relationship_sides(flat_relationships(schema.entities)),
{
    broadcast use vstd::multiset::group_multiset_axioms;

    let rels = flat_relationships(schema.entities);
    let a = all_group_edges(groups_of(rels));
    let b = self_edges(rels);
    lemma_sides_of_sort_stable(a + b, edge_lt());
    lemma_sides_of_concat(a, b);
    lemma_all_group_edges_sides(groups_of(rels));
    lemma_split_sides(rels);
    assert(sides_of(a + b) =~= relationship_sides(rels));
}


/// Every group joins two distinct entities, the one that sorts first as `lo`,
/// and no two groups join the same pair.
spec fn groups_well_formed(groups: Seq<GroupView>) -> bool {
    &&& forall|a: int| 0 <= a < groups.len() ==> seq_lt(#[trigger] groups[a].lo, groups[a].hi)
    &&& forall|a: int, b: int|
        0 <= a < b < groups.len() ==> !(#[trigger] groups[a].lo == #[trigger] groups[b].lo && groups[a].hi
            == groups[b].hi)
}

proof fn lemma_group_index_missing(groups: Seq<GroupView>, lo: Seq<char>, hi: Seq<char>)
    ensures
        group_index(groups, lo, hi) is None ==> forall|a: int|
            0 <= a < groups.len() ==> !(#[trigger] groups[a].lo == lo && groups[a].hi == hi),
    decreases groups.len(),
{
    if groups.len() > 0 {
        lemma_group_index_missing(groups.drop_last(), lo, hi);
        if group_index(groups, lo, hi) is None {
            assert forall|a: int| 0 <= a < groups.len() implies !(#[trigger] groups[a].lo == lo && groups[a].hi
                == hi) by {
                if a < groups.len() - 1 {
                    assert(groups.drop_last()[a] == groups[a]);
                }
            }
        }
    }
}

proof fn lemma_groups_of_well_formed(rels: Seq<(Seq<char>, RelationshipView)>)
    ensures
        groups_well_formed(groups_of(rels)),
    decreases rels.len(),
{
    if rels.len() > 0 {
        let prev = rels.drop_last();
        let (src, r) = rels.last();
        lemma_groups_of_well_formed(prev);
        if src != r.target {
            let gs = groups_of(prev);
            let forward = seq_le(src, r.target);
            let lo = if forward { src } else { r.target };
            let hi = if forward { r.target } else { src };
            crate::text::lemma_seq_lt_total(src, r.target);
            assert(seq_lt(lo, hi));
            lemma_group_index_found(gs, lo, hi);
            lemma_group_index_missing(gs, lo, hi);
            let ng = add_to_groups(gs, src, r);
            match group_index(gs, lo, hi) {
                Some(i) => {
                    assert forall|a: int| 0 <= a < ng.len() implies ng[a].lo == gs[a].lo && ng[a].hi == gs[a].hi by {
                    }
                },
                None => {
                    assert forall|a: int| 0 <= a < gs.len() implies ng[a] == gs[a] by {}
                },
            }
        }
    }
}

/// Where an edge of a sequence of groups comes from.
proof fn lemma_all_group_edges_source(groups: Seq<GroupView>, e: MergedEdgeView)
    requires
        all_group_edges(groups).contains(e),
    ensures
        exists|a: int, k: int| 0 <= a < groups.len() && 0 <= k < group_len(groups[a]) && e == #[trigger] group_edge(groups[a], k),
    decreases groups.len(),
{
    let prev = groups.drop_last();
    let a = all_group_edges(prev);
    let b = group_edges(groups.last());
    let m = choose|m: int| 0 <= m < a.len() + b.len() && all_group_edges(groups)[m] == e;
    if m < a.len() {
        assert(a[m] == e);
        lemma_all_group_edges_source(prev, e);
        let (x, k) = choose|x: int, k: int| 0 <= x < prev.len() && 0 <= k < group_len(prev[x]) && e == #[trigger] group_edge(prev[x], k);
        assert(groups[x] == prev[x]);
    } else {
        assert(b[m - a.len()] == e);
        assert(groups[groups.len() - 1] == groups.last());
    }
}

/// An edge of the deduplicated output comes from a group or is
/// self-referential.
proof fn lemma_deduplicated_source(schema: SchemaView, e: MergedEdgeView)
    requires
        deduplicated(schema).contains(e),
    ensures
        ({
            let gs = groups_of(flat_relationships(schema.entities));
            ||| (exists|a: int, k: int| 0 <= a < gs.len() && 0 <= k < group_len(gs[a]) && e == #[trigger] group_edge(gs[a], k))
            ||| (e.left == e.right && e.right_to_left is None)
        }),
{
    let rels = flat_relationships(schema.entities);
    let a = all_group_edges(groups_of(rels));
    let b = self_edges(rels);
    crate::order::lemma_sort_stable_contains(a + b, edge_lt(), e);
    let m = choose|m: int| 0 <= m < (a + b).len() && (a + b)[m] == e;
    if m < a.len() {
        assert(a[m] == e);
        lemma_all_group_edges_source(groups_of(rels), e);
    } else {
        assert(b[m - a.len()] == e);
        lemma_self_edges_shape(rels, m - a.len());
    }
}

proof fn lemma_self_edges_shape(rels: Seq<(Seq<char>, RelationshipView)>, k: int)
    requires
        0 <= k < self_edges(rels).len(),
    ensures
        self_edges(rels)[k].left == self_edges(rels)[k].right,
        self_edges(rels)[k].right_to_left is None,
    decreases rels.len(),
{
    let prev = rels.drop_last();
    if rels.last().0 == rels.last().1.target {
        if k < self_edges(prev).len() {
            lemma_self_edges_shape(prev, k);
        }
    } else {
        lemma_self_edges_shape(prev, k);
    }
}

/// A merged edge joins two distinct entities and has the one that sorts first
/// on its left; so a self-referential relationship is never merged.
pub proof fn lemma_merged_edges_ordered(schema: SchemaView)
    ensures
        ({
            let d = deduplicated(schema);
            forall|k: int| 0 <= k < d.len() && (#[trigger] d[k]).right_to_left is Some ==> seq_lt(d[k].left, d[k].right)
        }),
{
    let d = deduplicated(schema);
    let gs = groups_of(flat_relationships(schema.entities));
    lemma_groups_of_well_formed(flat_relationships(schema.entities));
    assert forall|k: int| 0 <= k < d.len() && (#[trigger] d[k]).right_to_left is Some implies seq_lt(d[k].left, d[k].right) by {
        let e = d[k];
        assert(d.contains(e));
        lemma_deduplicated_source(schema, e);
    }
}

/// No two unmerged edges run opposite ways between the same two distinct
/// entities: relationships in both directions are always paired up.
pub proof fn lemma_opposite_edges_merged(schema: SchemaView)
    ensures
        ({
            let d = deduplicated(schema);
            forall|i: int, j: int|
                0 <= i < d.len() && 0 <= j < d.len() && (#[trigger] d[i]).right_to_left is None
                    && (#[trigger] d[j]).right_to_left is None && d[i].left != d[i].right ==> !(d[i].left == d[j].right
                    && d[i].right == d[j].left)
        }),
{
    let d = deduplicated(schema);
    let gs = groups_of(flat_relationships(schema.entities));
    lemma_groups_of_well_formed(flat_relationships(schema.entities));
    assert forall|i: int, j: int|
        0 <= i < d.len() && 0 <= j < d.len() && (#[trigger] d[i]).right_to_left is None
            && (#[trigger] d[j]).right_to_left is None && d[i].left != d[i].right implies !(d[i].left == d[j].right
            && d[i].right == d[j].left) by {
        let x = d[i];
        let y = d[j];
        if x.left == y.right && x.right == y.left {
            assert(d.contains(x));
            assert(d.contains(y));
            lemma_deduplicated_source(schema, x);
            lemma_deduplicated_source(schema, y);
            let (a, ka) = choose|a: int, k: int| 0 <= a < gs.len() && 0 <= k < group_len(gs[a]) && x == #[trigger] group_edge(gs[a], k);
            let (b, kb) = choose|a: int, k: int| 0 <= a < gs.len() && 0 <= k < group_len(gs[a]) && y == #[trigger] group_edge(gs[a], k);
            let ga = gs[a];
            let gb = gs[b];
            crate::text::lemma_seq_lt_irreflexive(ga.lo);
            crate::text::lemma_seq_lt_irreflexive(gb.lo);
            crate::text::lemma_seq_lt_asymmetric(ga.lo, ga.hi);
            crate::text::lemma_seq_lt_asymmetric(gb.lo, gb.hi);
            assert(ga.lo == gb.lo && ga.hi == gb.hi);
            if a < b {
                assert(!(gs[a].lo == gs[b].lo && gs[a].hi == gs[b].hi));
            } else if b < a {
                assert(!(gs[b].lo == gs[a].lo && gs[b].hi == gs[a].hi));
            }
            assert(a == b);
        }
    }
}

/// `edge_lt` is a strict order.
proof fn lemma_edge_lt_strict()
    ensures
        crate::order::strict_order(edge_lt()),
{
    let lt = edge_lt();
    assert forall|a: MergedEdgeView| !#[trigger] lt(a, a) by {
        crate::text::lemma_seq_lt_irreflexive(a.left);
        crate::text::lemma_seq_lt_irreflexive(a.right);
        crate::text::lemma_seq_lt_irreflexive(a.left_to_right.field_name);
    }
    assert forall|a: MergedEdgeView, b: MergedEdgeView, c: MergedEdgeView| #[trigger] lt(a, b) && #[trigger] lt(b, c) implies lt(a, c) by {
        if seq_lt(a.left, b.left) && seq_lt(b.left, c.left) {
            crate::text::lemma_seq_lt_transitive(a.left, b.left, c.left);
        }
        if seq_lt(a.right, b.right) && seq_lt(b.right, c.right) {
            crate::text::lemma_seq_lt_transitive(a.right, b.right, c.right);
        }
        if seq_lt(a.left_to_right.field_name, b.left_to_right.field_name) && seq_lt(b.left_to_right.field_name, c.left_to_right.field_name) {
            crate::text::lemma_seq_lt_transitive(a.left_to_right.field_name, b.left_to_right.field_name, c.left_to_right.field_name);
        }
    }
}

/// The edges come out ordered by left entity, then right entity, then the
/// forward field name: no edge sorts strictly before an earlier one.
pub proof fn lemma_deduplicated_sorted(schema: SchemaView)
    ensures
        crate::order::sorted_by(deduplicated(schema), edge_lt()),
{
    lemma_edge_lt_strict();
    let rels = flat_relationships(schema.entities);
    crate::order::lemma_sort_stable_sorted(all_group_edges(groups_of(rels)) + self_edges(rels), edge_lt());
}

} // verus!
