//! Concept-set analysis: gathering direct concepts, duplicate detection,
//! batched hierarchy expansion, normalization and exclusion dominance.

use vstd::prelude::*;
use crate::concepts::{ConceptSetExpression, ConceptSetItem};

verus! {

/// A sequence of identifiers in strictly increasing order (sorted and
/// duplicate-free).
pub open spec fn strictly_sorted(s: Seq<i32>) -> bool {
    forall|i: int, j: int| 0 <= i < j < s.len() ==> s[i] < s[j]
}

/// The six gathered identifier sets: included/excluded, each split into the
/// direct concepts, the expanded descendants and the expanded mapped
/// concepts.
pub struct ConceptGatheringResult {
    pub included_concepts: Vec<i32>,
    pub included_descendants: Vec<i32>,
    pub included_mapped: Vec<i32>,
    pub excluded_concepts: Vec<i32>,
    pub excluded_descendants: Vec<i32>,
    pub excluded_mapped: Vec<i32>,
}

impl ConceptGatheringResult {
    pub fn new() -> (r: Self)
        ensures
            r.included_concepts@ == Seq::<i32>::empty(),
            r.included_descendants@ == Seq::<i32>::empty(),
            r.included_mapped@ == Seq::<i32>::empty(),
            r.excluded_concepts@ == Seq::<i32>::empty(),
            r.excluded_descendants@ == Seq::<i32>::empty(),
            r.excluded_mapped@ == Seq::<i32>::empty(),
    {
        let r = Self {
            included_concepts: Vec::new(),
            included_descendants: Vec::new(),
            included_mapped: Vec::new(),
            excluded_concepts: Vec::new(),
            excluded_descendants: Vec::new(),
            excluded_mapped: Vec::new(),
        };
        proof {
            assert(r.included_concepts@ =~= Seq::<i32>::empty());
            assert(r.included_descendants@ =~= Seq::<i32>::empty());
            assert(r.included_mapped@ =~= Seq::<i32>::empty());
            assert(r.excluded_concepts@ =~= Seq::<i32>::empty());
            assert(r.excluded_descendants@ =~= Seq::<i32>::empty());
            assert(r.excluded_mapped@ =~= Seq::<i32>::empty());
        }
        r
    }
}

/// Insert `x` into a strictly sorted vector, keeping it strictly sorted;
/// a value already present is left alone.
pub(crate) fn insert_sorted_unique(r: &mut Vec<i32>, x: i32)
    requires
        strictly_sorted(old(r)@),
    ensures
        strictly_sorted(final(r)@),
        forall|y: i32| final(r)@.contains(y) <==> old(r)@.contains(y) || y == x,
{
    let mut pos: usize = 0;
    while pos < r.len() && r[pos] < x
        invariant
            pos <= r.len(),
            strictly_sorted(r@),
            r == old(r),
            forall|k: int| 0 <= k < pos ==> r@[k] < x,
        decreases r.len() - pos,
    {
        pos += 1;
    }
    if pos < r.len() && r[pos] == x {
        proof {
            assert(r@.contains(x)) by {
                assert(r@[pos as int] == x);
            }
            assert(forall|y: i32| r@.contains(y) <==> old(r)@.contains(y) || y == x);
        }
        return ;
    }
    let ghost prior = r@;
    r.insert(pos, x);
    proof {
        prior.insert_ensures(pos as int, x);
        assert(strictly_sorted(r@)) by {
            assert(forall|k: int| pos < k < r@.len() ==> r@[k] == prior[k - 1]);
            assert(forall|k: int| pos <= k < prior.len() ==> prior[k] > x) by {
                if pos < prior.len() {
                    assert(prior[pos as int] != x && prior[pos as int] >= x);
                    assert(forall|k: int|
                        pos < k < prior.len() ==> prior[pos as int] < #[trigger] prior[k]);
                }
            }
        }
        assert forall|y: i32| final(r)@.contains(y) implies prior.contains(y) || y == x by {
            let k = choose|k: int| 0 <= k < r@.len() && r@[k] == y;
            if k < pos {
                assert(prior[k] == y);
            } else if k > pos {
                assert(prior[k - 1] == y);
            }
        }
        assert forall|y: i32| prior.contains(y) || y == x implies final(r)@.contains(y) by {
            if prior.contains(y) {
                let k = choose|k: int| 0 <= k < prior.len() && prior[k] == y;
                if k < pos {
                    assert(r@[k] == y);
                } else {
                    assert(r@[k + 1] == y);
                }
            } else {
                assert(r@[pos as int] == y);
            }
        }
    }
}

/// Sort a vector of concept identifiers and drop duplicates: the result is
/// strictly increasing and holds exactly the values of the input.
pub fn sort_and_dedup_vec(v: &mut Vec<i32>)
    ensures
        strictly_sorted(final(v)@),
        forall|x: i32| final(v)@.contains(x) <==> old(v)@.contains(x),
{
    broadcast use vstd::seq_lib::group_seq_properties;

    let mut r: Vec<i32> = Vec::new();
    let mut i: usize = 0;
    while i < v.len()
        invariant
            i <= v.len(),
            v == old(v),
            strictly_sorted(r@),
            forall|x: i32| r@.contains(x) <==> v@.take(i as int).contains(x),
        decreases v.len() - i,
    {
        insert_sorted_unique(&mut r, v[i]);
        proof {
            let prev = v@.take(i as int);
            assert(v@.take(i as int + 1) =~= prev.push(v@[i as int]));
            assert forall|x: i32|
                #[trigger] v@.take(i as int + 1).contains(x)
                    <==> (prev.contains(x) || x == v@[i as int]) by {
                vstd::seq_lib::lemma_seq_contains_after_push(prev, v@[i as int], x);
            }
        }
        i += 1;
    }
    proof {
        assert(v@.take(v@.len() as int) =~= v@);
    }
    *v = r;
}

/// The direct identifier lists gathered from an expression, in item order:
/// (included, included-mapped seeds, excluded, excluded-mapped seeds).
/// A mapped seed is the item's own identifier, recorded so that the mapped
/// list carries the source concept alongside its expanded mapped concepts.
pub open spec fn spec_gather(items: Seq<ConceptSetItem>) -> (Seq<i32>, Seq<i32>, Seq<i32>, Seq<i32>)
    decreases items.len(),
{
    if items.len() == 0 {
        (Seq::<i32>::empty(), Seq::<i32>::empty(), Seq::<i32>::empty(), Seq::<i32>::empty())
    } else {
        let p = spec_gather(items.drop_last());
        let it = items.last();
        let id = it.concept.concept_id;
        if it.is_excluded {
            (p.0, p.1, p.2.push(id), if it.include_mapped { p.3.push(id) } else { p.3 })
        } else {
            (p.0.push(id), if it.include_mapped { p.1.push(id) } else { p.1 }, p.2, p.3)
        }
    }
}

/// Walk the expression once and route every item's identifier into the
/// included or excluded direct list by its excluded flag, seeding the mapped
/// lists where the item asks for mapped concepts. Descendant lists stay empty
/// here; they are filled by the batched expansion.
pub fn gather_concepts_from_expression(expression: &ConceptSetExpression) -> (r:
    ConceptGatheringResult)
    ensures
        r.included_concepts@ == spec_gather(expression.items@).0,
        r.included_mapped@ == spec_gather(expression.items@).1,
        r.excluded_concepts@ == spec_gather(expression.items@).2,
        r.excluded_mapped@ == spec_gather(expression.items@).3,
        r.included_descendants@ == Seq::<i32>::empty(),
        r.excluded_descendants@ == Seq::<i32>::empty(),
{
    let mut result = ConceptGatheringResult::new();
    proof {
        assert(expression.items@.take(0) =~= Seq::<ConceptSetItem>::empty());
    }
    let mut i: usize = 0;
    while i < expression.items.len()
        invariant
            i <= expression.items.len(),
            result.included_concepts@ == spec_gather(expression.items@.take(i as int)).0,
            result.included_mapped@ == spec_gather(expression.items@.take(i as int)).1,
            result.excluded_concepts@ == spec_gather(expression.items@.take(i as int)).2,
            result.excluded_mapped@ == spec_gather(expression.items@.take(i as int)).3,
            result.included_descendants@ == Seq::<i32>::empty(),
            result.excluded_descendants@ == Seq::<i32>::empty(),
        decreases expression.items.len() - i,
    {
        let item = &expression.items[i];
        let concept_id = item.concept.concept_id;
        if item.is_excluded {
            result.excluded_concepts.push(concept_id);
            if item.include_mapped {
                result.excluded_mapped.push(concept_id);
            }
        } else {
            result.included_concepts.push(concept_id);
            if item.include_mapped {
                result.included_mapped.push(concept_id);
            }
        }
        proof {
            let t1 = expression.items@.take(i as int + 1);
            assert(t1.drop_last() =~= expression.items@.take(i as int));
            assert(t1.last() == expression.items@[i as int]);
        }
        i += 1;
    }
    proof {
        assert(expression.items@.take(expression.items@.len() as int) =~= expression.items@);
    }
    result
}

/// Every item's concept identifier, in item order.
pub open spec fn item_ids(items: Seq<ConceptSetItem>) -> Seq<i32>
    decreases items.len(),
{
    if items.len() == 0 {
        Seq::<i32>::empty()
    } else {
        item_ids(items.drop_last()).push(items.last().concept.concept_id)
    }
}

/// The identifiers of the items carrying the given expansion flag, in item
/// order: what one batched relational call is issued for.
pub open spec fn flagged_ids(items: Seq<ConceptSetItem>, mapped: bool) -> Seq<i32>
    decreases items.len(),
{
    if items.len() == 0 {
        Seq::<i32>::empty()
    } else {
        let rest = flagged_ids(items.drop_last(), mapped);
        let it = items.last();
        let flag = if mapped {
            it.include_mapped
        } else {
            it.include_descendants
        };
        if flag {
            rest.push(it.concept.concept_id)
        } else {
            rest
        }
    }
}

fn collect_flagged_ids(expression: &ConceptSetExpression, mapped: bool) -> (r: Vec<i32>)
    ensures
        r@ == flagged_ids(expression.items@, mapped),
{
    let mut r: Vec<i32> = Vec::new();
    proof {
        assert(expression.items@.take(0) =~= Seq::<ConceptSetItem>::empty());
        assert(r@ =~= flagged_ids(expression.items@.take(0), mapped));
    }
    let mut i: usize = 0;
    while i < expression.items.len()
        invariant
            i <= expression.items.len(),
            r@ == flagged_ids(expression.items@.take(i as int), mapped),
        decreases expression.items.len() - i,
    {
        let item = &expression.items[i];
        let flag = if mapped {
            item.include_mapped
        } else {
            item.include_descendants
        };
        if flag {
            r.push(item.concept.concept_id);
        }
        proof {
            let t1 = expression.items@.take(i as int + 1);
            assert(t1.drop_last() =~= expression.items@.take(i as int));
            assert(t1.last() == expression.items@[i as int]);
        }
        i += 1;
    }
    proof {
        assert(expression.items@.take(expression.items@.len() as int) =~= expression.items@);
    }
    r
}

/// The concept identifiers whose descendants one batched relational call is
/// to fetch: every item with the descendants flag, in item order.
pub fn concepts_needing_descendants(expression: &ConceptSetExpression) -> (r: Vec<i32>)
    ensures
        r@ == flagged_ids(expression.items@, false),
{
    collect_flagged_ids(expression, false)
}

/// The concept identifiers whose mapped concepts one batched relational
/// call is to fetch: every item with the mapped flag, in item order.
pub fn concepts_needing_mapped(expression: &ConceptSetExpression) -> (r: Vec<i32>)
    ensures
        r@ == flagged_ids(expression.items@, true),
{
    collect_flagged_ids(expression, true)
}

/// One key of a batched hierarchy lookup together with the identifiers the
/// relational store returned for it.
pub struct IdGroup {
    pub key: i32,
    pub ids: Vec<i32>,
}

/// The outcome of one batched relational expansion call, as the caller hands
/// it in: not needed (no item asked for it), the returned groups, or the
/// store's failure message.
pub enum BatchOutcome {
    Skipped,
    Fetched(Vec<IdGroup>),
    Failed(String),
}

/// The identifiers the batch returned for `key`: the first matching group.
pub open spec fn lookup_ids(groups: Seq<IdGroup>, key: i32) -> Option<Seq<i32>>
    decreases groups.len(),
{
    if groups.len() == 0 {
        None
    } else if groups[0].key == key {
        Some(groups[0].ids@)
    } else {
        lookup_ids(groups.drop_first(), key)
    }
}

fn find_group<'a>(groups: &'a Vec<IdGroup>, key: i32) -> (r: Option<&'a Vec<i32>>)
    ensures
        match r {
            Some(ids) => lookup_ids(groups@, key) == Some(ids@),
            None => lookup_ids(groups@, key) is None,
        },
{
    proof {
        assert(groups@.skip(0) =~= groups@);
    }
    let mut i: usize = 0;
    while i < groups.len()
        invariant
            i <= groups.len(),
            lookup_ids(groups@, key) == lookup_ids(groups@.skip(i as int), key),
        decreases groups.len() - i,
    {
        proof {
            assert(groups@.skip(i as int)[0] == groups@[i as int]);
            assert(groups@.skip(i as int).drop_first() =~= groups@.skip(i as int + 1));
        }
        if groups[i].key == key {
            return Some(&groups[i].ids);
        }
        i += 1;
    }
    proof {
        assert(groups@.skip(groups@.len() as int).len() == 0);
    }
    None
}

/// What a batched expansion adds to one routed list: for every item whose
/// relevant flag is set and whose excluded flag matches, the identifiers the
/// batch returned for its concept, in item order.
pub open spec fn expansion_additions(
    items: Seq<ConceptSetItem>,
    groups: Seq<IdGroup>,
    excluded: bool,
    mapped: bool,
) -> Seq<i32>
    decreases items.len(),
{
    if items.len() == 0 {
        Seq::<i32>::empty()
    } else {
        let rest = expansion_additions(items.drop_last(), groups, excluded, mapped);
        let it = items.last();
        let flag = if mapped {
            it.include_mapped
        } else {
            it.include_descendants
        };
        if flag && it.is_excluded == excluded {
            match lookup_ids(groups, it.concept.concept_id) {
                Some(ids) => rest + ids,
                None => rest,
            }
        } else {
            rest
        }
    }
}

spec fn target_inc(s: ConceptGatheringResult, mapped: bool) -> Seq<i32> {
    if mapped {
        s.included_mapped@
    } else {
        s.included_descendants@
    }
}

spec fn target_exc(s: ConceptGatheringResult, mapped: bool) -> Seq<i32> {
    if mapped {
        s.excluded_mapped@
    } else {
        s.excluded_descendants@
    }
}

spec fn untouched_by_expansion(
    a: ConceptGatheringResult,
    b: ConceptGatheringResult,
    mapped: bool,
) -> bool {
    &&& a.included_concepts@ == b.included_concepts@
    &&& a.excluded_concepts@ == b.excluded_concepts@
    &&& if mapped {
        a.included_descendants@ == b.included_descendants@ && a.excluded_descendants@
            == b.excluded_descendants@
    } else {
        a.included_mapped@ == b.included_mapped@ && a.excluded_mapped@ == b.excluded_mapped@
    }
}

fn apply_expansion(
    summary: &mut ConceptGatheringResult,
    expression: &ConceptSetExpression,
    groups: &Vec<IdGroup>,
    mapped: bool,
)
    ensures
        target_inc(*final(summary), mapped) == target_inc(*old(summary), mapped)
            + expansion_additions(expression.items@, groups@, false, mapped),
        target_exc(*final(summary), mapped) == target_exc(*old(summary), mapped)
            + expansion_additions(expression.items@, groups@, true, mapped),
        untouched_by_expansion(*old(summary), *final(summary), mapped),
{
    proof {
        assert(expression.items@.take(0) =~= Seq::<ConceptSetItem>::empty());
        assert(target_inc(*old(summary), mapped) + Seq::<i32>::empty() =~= target_inc(
            *old(summary),
            mapped,
        ));
        assert(target_exc(*old(summary), mapped) + Seq::<i32>::empty() =~= target_exc(
            *old(summary),
            mapped,
        ));
    }
    let mut i: usize = 0;
    while i < expression.items.len()
        invariant
            i <= expression.items.len(),
            target_inc(*summary, mapped) == target_inc(*old(summary), mapped)
                + expansion_additions(expression.items@.take(i as int), groups@, false, mapped),
            target_exc(*summary, mapped) == target_exc(*old(summary), mapped)
                + expansion_additions(expression.items@.take(i as int), groups@, true, mapped),
            untouched_by_expansion(*old(summary), *summary, mapped),
        decreases expression.items.len() - i,
    {
        let item = &expression.items[i];
        let flag = if mapped {
            item.include_mapped
        } else {
            item.include_descendants
        };
        if flag {
            match find_group(groups, item.concept.concept_id) {
                Some(ids) => {
                    let ghost inc_before = target_inc(*summary, mapped);
                    let ghost exc_before = target_exc(*summary, mapped);
                    let mut j: usize = 0;
                    while j < ids.len()
                        invariant
                            j <= ids.len(),
                            i < expression.items.len(),
                            lookup_ids(groups@, item.concept.concept_id) == Some(ids@),
                            item == &expression.items[i as int],
                            if item.is_excluded {
                                target_exc(*summary, mapped) == exc_before + ids@.take(j as int)
                                    && target_inc(*summary, mapped) == inc_before
                            } else {
                                target_inc(*summary, mapped) == inc_before + ids@.take(j as int)
                                    && target_exc(*summary, mapped) == exc_before
                            },
                            untouched_by_expansion(*old(summary), *summary, mapped),
                        decreases ids.len() - j,
                    {
                        let v = ids[j];
                        if item.is_excluded {
                            if mapped {
                                summary.excluded_mapped.push(v);
                            } else {
                                summary.excluded_descendants.push(v);
                            }
                        } else {
                            if mapped {
                                summary.included_mapped.push(v);
                            } else {
                                summary.included_descendants.push(v);
                            }
                        }
                        proof {
                            assert(ids@.take(j as int + 1) =~= ids@.take(j as int).push(
                                ids@[j as int],
                            ));
                            if item.is_excluded {
                                assert(exc_before + ids@.take(j as int + 1) =~= (exc_before
                                    + ids@.take(j as int)).push(ids@[j as int]));
                            } else {
                                assert(inc_before + ids@.take(j as int + 1) =~= (inc_before
                                    + ids@.take(j as int)).push(ids@[j as int]));
                            }
                        }
                        j += 1;
                    }
                    proof {
                        assert(ids@.take(ids@.len() as int) =~= ids@);
                    }
                },
                None => {},
            }
        }
        proof {
            let t1 = expression.items@.take(i as int + 1);
            assert(t1.drop_last() =~= expression.items@.take(i as int));
            assert(t1.last() == expression.items@[i as int]);
            let inc0 = target_inc(*old(summary), mapped);
            let exc0 = target_exc(*old(summary), mapped);
            let add_inc = expansion_additions(expression.items@.take(i as int), groups@, false,
                mapped);
            let add_exc = expansion_additions(expression.items@.take(i as int), groups@, true,
                mapped);
            let it = expression.items@[i as int];
            let fl = if mapped {
                it.include_mapped
            } else {
                it.include_descendants
            };
            if fl {
                match lookup_ids(groups@, it.concept.concept_id) {
                    Some(idseq) => {
                        if it.is_excluded {
                            assert((exc0 + add_exc) + idseq =~= exc0 + (add_exc + idseq));
                        } else {
                            assert((inc0 + add_inc) + idseq =~= inc0 + (add_inc + idseq));
                        }
                    },
                    None => {},
                }
            }
        }
        i += 1;
    }
    proof {
        assert(expression.items@.take(expression.items@.len() as int) =~= expression.items@);
    }
}

/// Route the batched descendant groups into the included and excluded
/// descendant lists, following each contributing item's excluded flag.
pub fn apply_descendant_expansion(
    summary: &mut ConceptGatheringResult,
    expression: &ConceptSetExpression,
    groups: &Vec<IdGroup>,
)
    ensures
        final(summary).included_descendants@ == old(summary).included_descendants@
            + expansion_additions(expression.items@, groups@, false, false),
        final(summary).excluded_descendants@ == old(summary).excluded_descendants@
            + expansion_additions(expression.items@, groups@, true, false),
        final(summary).included_concepts@ == old(summary).included_concepts@,
        final(summary).excluded_concepts@ == old(summary).excluded_concepts@,
        final(summary).included_mapped@ == old(summary).included_mapped@,
        final(summary).excluded_mapped@ == old(summary).excluded_mapped@,
{
    apply_expansion(summary, expression, groups, false);
}

/// Route the batched mapped-concept groups into the included and excluded
/// mapped lists, following each contributing item's excluded flag.
pub fn apply_mapped_expansion(
    summary: &mut ConceptGatheringResult,
    expression: &ConceptSetExpression,
    groups: &Vec<IdGroup>,
)
    ensures
        final(summary).included_mapped@ == old(summary).included_mapped@ + expansion_additions(
            expression.items@,
            groups@,
            false,
            true,
        ),
        final(summary).excluded_mapped@ == old(summary).excluded_mapped@ + expansion_additions(
            expression.items@,
            groups@,
            true,
            true,
        ),
        final(summary).included_concepts@ == old(summary).included_concepts@,
        final(summary).excluded_concepts@ == old(summary).excluded_concepts@,
        final(summary).included_descendants@ == old(summary).included_descendants@,
        final(summary).excluded_descendants@ == old(summary).excluded_descendants@,
{
    apply_expansion(summary, expression, groups, true);
}

/// What one batch outcome adds to a routed list: the groups' contribution
/// when the batch was fetched, nothing when it was skipped or failed.
pub open spec fn expansion_of(
    items: Seq<ConceptSetItem>,
    o: BatchOutcome,
    excluded: bool,
    mapped: bool,
) -> Seq<i32> {
    match o {
        BatchOutcome::Fetched(groups) => expansion_additions(items, groups@, excluded, mapped),
        _ => Seq::<i32>::empty(),
    }
}

/// Whether `x` is excluded by any path: as a direct excluded concept, an
/// excluded descendant or an excluded mapped concept.
pub open spec fn excluded_union_has(s: ConceptGatheringResult, x: i32) -> bool {
    s.excluded_concepts@.contains(x) || s.excluded_descendants@.contains(x)
        || s.excluded_mapped@.contains(x)
}

/// The predicate that keeps an identifier during exclusion dominance: it is
/// not excluded by any path of `s`.
pub open spec fn kept_by(s: ConceptGatheringResult) -> spec_fn(i32) -> bool {
    |x: i32| !excluded_union_has(s, x)
}

spec fn not_in(excl: Seq<i32>) -> spec_fn(i32) -> bool {
    |x: i32| !excl.contains(x)
}

/// A fully normalized gathering result: the four derived lists are strictly
/// sorted, and no identifier excluded by any path remains in any included
/// list — exclusion strictly dominates inclusion.
pub open spec fn normalized(s: ConceptGatheringResult) -> bool {
    &&& strictly_sorted(s.included_descendants@)
    &&& strictly_sorted(s.included_mapped@)
    &&& strictly_sorted(s.excluded_descendants@)
    &&& strictly_sorted(s.excluded_mapped@)
    &&& forall|x: i32|
        excluded_union_has(s, x) ==> !s.included_concepts@.contains(x)
            && !s.included_descendants@.contains(x) && !s.included_mapped@.contains(x)
}

pub(crate) proof fn lemma_filter_push<A>(s: Seq<A>, p: spec_fn(A) -> bool, x: A)
    ensures
        s.push(x).filter(p) == if p(x) {
            s.filter(p).push(x)
        } else {
            s.filter(p)
        },
{
    assert(s.push(x).drop_last() =~= s);
    assert(s.push(x).last() == x);
    reveal_with_fuel(Seq::filter, 2);
}

pub(crate) proof fn lemma_filter_membership<A>(s: Seq<A>, p: spec_fn(A) -> bool, x: A)
    ensures
        s.filter(p).contains(x) <==> s.contains(x) && p(x),
    decreases s.len(),
{
    broadcast use vstd::seq_lib::group_seq_properties;

    reveal_with_fuel(Seq::filter, 2);
    if s.len() == 0 {
    } else {
        let s0 = s.drop_last();
        lemma_filter_membership(s0, p, x);
        lemma_filter_push(s0, p, s.last());
        assert(s0.push(s.last()) =~= s);
    }
}

pub(crate) proof fn lemma_filter_congruent<A>(s: Seq<A>, p: spec_fn(A) -> bool, q: spec_fn(A) -> bool)
    requires
        forall|x: A| #[trigger] p(x) == q(x),
    ensures
        s.filter(p) == s.filter(q),
    decreases s.len(),
{
    reveal_with_fuel(Seq::filter, 2);
    if s.len() == 0 {
        assert(s.filter(p) =~= s.filter(q));
    } else {
        lemma_filter_congruent(s.drop_last(), p, q);
        lemma_filter_push(s.drop_last(), p, s.last());
        lemma_filter_push(s.drop_last(), q, s.last());
        assert(s.drop_last().push(s.last()) =~= s);
    }
}

pub(crate) fn contains_i32(v: &Vec<i32>, x: i32) -> (b: bool)
    ensures
        b == v@.contains(x),
{
    let mut i: usize = 0;
    while i < v.len()
        invariant
            i <= v.len(),
            forall|k: int| 0 <= k < i ==> v@[k] != x,
        decreases v.len() - i,
    {
        if v[i] == x {
            proof {
                assert(v@[i as int] == x);
            }
            return true;
        }
        i += 1;
    }
    false
}

pub(crate) fn append_all(dst: &mut Vec<i32>, src: &Vec<i32>)
    ensures
        final(dst)@ == old(dst)@ + src@,
{
    let mut j: usize = 0;
    while j < src.len()
        invariant
            j <= src.len(),
            dst@ == old(dst)@ + src@.take(j as int),
        decreases src.len() - j,
    {
        dst.push(src[j]);
        proof {
            assert(src@.take(j as int + 1) =~= src@.take(j as int).push(src@[j as int]));
            assert(old(dst)@ + src@.take(j as int + 1) =~= (old(dst)@ + src@.take(j as int)).push(
                src@[j as int],
            ));
        }
        j += 1;
    }
    proof {
        assert(old(dst)@ + src@.take(src@.len() as int) =~= old(dst)@ + src@);
        assert(dst@ == old(dst)@ + src@);
    }
}

fn filter_not_in(v: &mut Vec<i32>, excl: &Vec<i32>)
    ensures
        final(v)@ == old(v)@.filter(not_in(excl@)),
{
    let ghost p = not_in(excl@);
    let mut r: Vec<i32> = Vec::new();
    proof {
        assert(old(v)@.take(0) =~= Seq::<i32>::empty());
        reveal_with_fuel(Seq::filter, 1);
        assert(Seq::<i32>::empty().filter(p) =~= Seq::<i32>::empty());
    }
    let mut i: usize = 0;
    while i < v.len()
        invariant
            i <= v.len(),
            v == old(v),
            p == not_in(excl@),
            r@ == v@.take(i as int).filter(p),
        decreases v.len() - i,
    {
        let x = v[i];
        if !contains_i32(excl, x) {
            r.push(x);
        }
        proof {
            lemma_filter_push(v@.take(i as int), p, v@[i as int]);
            assert(v@.take(i as int + 1) =~= v@.take(i as int).push(v@[i as int]));
        }
        i += 1;
    }
    proof {
        assert(v@.take(v@.len() as int) =~= v@);
    }
    *v = r;
}

/// Normalize a gathering result, as the final analysis step: sort and
/// deduplicate the four derived lists, then remove from every included list
/// each identifier excluded by any path. The excluded direct list keeps its
/// original order; the included direct list keeps its order and merely loses
/// the dominated identifiers.
pub fn normalize_concept_summary(summary: &mut ConceptGatheringResult)
    ensures
        normalized(*final(summary)),
        final(summary).excluded_concepts@ == old(summary).excluded_concepts@,
        forall|x: i32|
            final(summary).excluded_descendants@.contains(x) <==> old(
                summary,
            ).excluded_descendants@.contains(x),
        forall|x: i32|
            final(summary).excluded_mapped@.contains(x) <==> old(summary).excluded_mapped@.contains(
                x,
            ),
        final(summary).included_concepts@ == old(summary).included_concepts@.filter(
            kept_by(*old(summary)),
        ),
        forall|x: i32|
            #![trigger final(summary).included_descendants@.contains(x)]
            final(summary).included_descendants@.contains(x) <==> old(
                summary,
            ).included_descendants@.contains(x) && !excluded_union_has(*old(summary), x),
        forall|x: i32|
            #![trigger final(summary).included_mapped@.contains(x)]
            final(summary).included_mapped@.contains(x) <==> old(summary).included_mapped@.contains(
                x,
            ) && !excluded_union_has(*old(summary), x),
        normalize_rel(*old(summary), *final(summary)),
{
    sort_and_dedup_vec(&mut summary.excluded_descendants);
    sort_and_dedup_vec(&mut summary.excluded_mapped);

    let mut all_excluded: Vec<i32> = Vec::new();
    append_all(&mut all_excluded, &summary.excluded_concepts);
    append_all(&mut all_excluded, &summary.excluded_descendants);
    append_all(&mut all_excluded, &summary.excluded_mapped);
    proof {
        broadcast use vstd::seq_lib::group_seq_properties;

        assert(all_excluded@ == (Seq::<i32>::empty() + summary.excluded_concepts@
            + summary.excluded_descendants@) + summary.excluded_mapped@);
        assert forall|x: i32|
            all_excluded@.contains(x) <==> excluded_union_has(*old(summary), x) by {
            assert(Seq::<i32>::empty() + summary.excluded_concepts@ =~= summary.excluded_concepts@);
        }
        assert forall|x: i32| #[trigger] not_in(all_excluded@)(x) == kept_by(*old(summary))(x) by {}
    }
    filter_not_in(&mut summary.included_concepts, &all_excluded);
    proof {
        lemma_filter_congruent(
            old(summary).included_concepts@,
            not_in(all_excluded@),
            kept_by(*old(summary)),
        );
    }
    filter_not_in(&mut summary.included_descendants, &all_excluded);
    sort_and_dedup_vec(&mut summary.included_descendants);
    filter_not_in(&mut summary.included_mapped, &all_excluded);
    sort_and_dedup_vec(&mut summary.included_mapped);
    proof {
        assert forall|x: i32|
            summary.included_descendants@.contains(x) <==> old(
                summary,
            ).included_descendants@.contains(x) && !excluded_union_has(*old(summary), x) by {
            lemma_filter_membership(
                old(summary).included_descendants@,
                not_in(all_excluded@),
                x,
            );
        }
        assert forall|x: i32|
            summary.included_mapped@.contains(x) <==> old(summary).included_mapped@.contains(x)
                && !excluded_union_has(*old(summary), x) by {
            lemma_filter_membership(old(summary).included_mapped@, not_in(all_excluded@), x);
        }
        assert forall|x: i32|
            excluded_union_has(*summary, x) implies !summary.included_concepts@.contains(x)
            && !summary.included_descendants@.contains(x) && !summary.included_mapped@.contains(
            x,
        ) by {
            assert(excluded_union_has(*old(summary), x));
            lemma_filter_membership(
                old(summary).included_concepts@,
                kept_by(*old(summary)),
                x,
            );
        }
    }
}

/// Everything the analysis promises about the gathering result it attaches:
/// it is the normalization of the direct gathering extended by the two batch
/// expansions. The excluded direct list is exactly the gathered one; the
/// included direct list is the gathered one with every excluded identifier
/// removed, order kept; the four derived lists are pinned by strict sortedness
/// together with their membership.
/// Whether `x` escapes exclusion dominance for this expression and these
/// batch outcomes.
pub open spec fn analysis_kept(
    items: Seq<ConceptSetItem>,
    d: BatchOutcome,
    m: BatchOutcome,
) -> spec_fn(i32) -> bool {
    |x: i32|
        !(spec_gather(items).2.contains(x) || expansion_of(items, d, true, false).contains(x) || (
        spec_gather(items).3 + expansion_of(items, m, true, true)).contains(x))
}

/// Everything `normalize_concept_summary` promises, packaged: `b` is the
/// normalization of `a`.
pub open spec fn normalize_rel(a: ConceptGatheringResult, b: ConceptGatheringResult) -> bool {
    &&& normalized(b)
    &&& b.excluded_concepts@ == a.excluded_concepts@
    &&& (forall|x: i32|
        b.excluded_descendants@.contains(x) <==> a.excluded_descendants@.contains(x))
    &&& (forall|x: i32| b.excluded_mapped@.contains(x) <==> a.excluded_mapped@.contains(x))
    &&& b.included_concepts@ == a.included_concepts@.filter(kept_by(a))
    &&& (forall|x: i32|
        #![trigger b.included_descendants@.contains(x)]
        b.included_descendants@.contains(x) <==> a.included_descendants@.contains(x)
            && !excluded_union_has(a, x))
    &&& (forall|x: i32|
        #![trigger b.included_mapped@.contains(x)]
        b.included_mapped@.contains(x) <==> a.included_mapped@.contains(x) && !excluded_union_has(
            a,
            x,
        ))
}

proof fn lemma_sorted_unique_eq(a: Seq<i32>, b: Seq<i32>)
    requires
        strictly_sorted(a),
        strictly_sorted(b),
        forall|x: i32| a.contains(x) <==> b.contains(x),
    ensures
        a == b,
    decreases a.len(),
{
    if a.len() == 0 {
        if b.len() > 0 {
            assert(b.contains(b[0]));
            assert(a.contains(b[0]));
        }
        assert(a =~= b);
    } else {
        assert(a.contains(a[0]));
        assert(b.len() > 0) by {
            assert(b.contains(a[0]));
        }
        assert(a[0] == b[0]) by {
            assert(b.contains(a[0]));
            let i = choose|i: int| 0 <= i < b.len() && b[i] == a[0];
            assert(b[0] <= a[0]) by {
                if i > 0 {
                    assert(b[0] < b[i]);
                }
            }
            assert(a.contains(b[0]));
            let j = choose|j: int| 0 <= j < a.len() && a[j] == b[0];
            assert(a[0] <= b[0]) by {
                if j > 0 {
                    assert(a[0] < a[j]);
                }
            }
        }
        let a1 = a.drop_first();
        let b1 = b.drop_first();
        assert(strictly_sorted(a1)) by {
            assert(forall|k: int| 0 <= k < a1.len() ==> a1[k] == a[k + 1]);
        }
        assert(strictly_sorted(b1)) by {
            assert(forall|k: int| 0 <= k < b1.len() ==> b1[k] == b[k + 1]);
        }
        assert forall|x: i32| a1.contains(x) <==> b1.contains(x) by {
            assert(forall|k: int| 0 <= k < a1.len() ==> a1[k] == a[k + 1]);
            assert(forall|k: int| 0 <= k < b1.len() ==> b1[k] == b[k + 1]);
            if a1.contains(x) {
                let k = choose|k: int| 0 <= k < a1.len() && a1[k] == x;
                assert(a[k + 1] == x);
                assert(a.contains(x));
                assert(x > a[0]);
                assert(b.contains(x));
                let m = choose|m: int| 0 <= m < b.len() && b[m] == x;
                assert(m > 0);
                assert(b1[m - 1] == x);
            }
            if b1.contains(x) {
                let k = choose|k: int| 0 <= k < b1.len() && b1[k] == x;
                assert(b[k + 1] == x);
                assert(b.contains(x));
                assert(x > b[0]);
                assert(a.contains(x));
                let m = choose|m: int| 0 <= m < a.len() && a[m] == x;
                assert(m > 0);
                assert(a1[m - 1] == x);
            }
        }
        lemma_sorted_unique_eq(a1, b1);
        assert(a =~= b) by {
            assert(forall|k: int| 0 < k < a.len() ==> a[k] == a1[k - 1]);
            assert(forall|k: int| 0 < k < b.len() ==> b[k] == b1[k - 1]);
        }
    }
}

proof fn lemma_filter_all_kept<A>(s: Seq<A>, p: spec_fn(A) -> bool)
    requires
        forall|k: int| 0 <= k < s.len() ==> p(#[trigger] s[k]),
    ensures
        s.filter(p) == s,
    decreases s.len(),
{
    reveal_with_fuel(Seq::filter, 2);
    if s.len() == 0 {
        assert(s.filter(p) =~= s);
    } else {
        let s0 = s.drop_last();
        assert(forall|k: int| 0 <= k < s0.len() ==> s0[k] == s[k]);
        lemma_filter_all_kept(s0, p);
        lemma_filter_push(s0, p, s.last());
        assert(s0.push(s.last()) =~= s);
        assert(p(s.last()));
    }
}

/// Exclusion dominance: in a normalized gathering result, an identifier
/// excluded by any path — direct, descendant or mapped — is absent from
/// every included list, whatever rule contributed it.
pub proof fn lemma_exclusion_dominance(s: ConceptGatheringResult, x: i32)
    requires
        normalized(s),
        excluded_union_has(s, x),
    ensures
        !s.included_concepts@.contains(x),
        !s.included_descendants@.contains(x),
        !s.included_mapped@.contains(x),
{
}

/// After analysis the four derived lists — included and excluded
/// descendants and mapped concepts — are sorted and duplicate-free.
pub proof fn lemma_derived_lists_sorted(s: ConceptGatheringResult)
    requires
        normalized(s),
    ensures
        strictly_sorted(s.included_descendants@),
        strictly_sorted(s.included_mapped@),
        strictly_sorted(s.excluded_descendants@),
        strictly_sorted(s.excluded_mapped@),
{
}

/// Normalization is idempotent: normalizing an already-normalized gathering
/// result gives it back unchanged, list for list.
pub proof fn lemma_normalize_idempotent(s: ConceptGatheringResult, t: ConceptGatheringResult)
    requires
        normalized(s),
        normalize_rel(s, t),
    ensures
        t.included_concepts@ == s.included_concepts@,
        t.included_descendants@ == s.included_descendants@,
        t.included_mapped@ == s.included_mapped@,
        t.excluded_concepts@ == s.excluded_concepts@,
        t.excluded_descendants@ == s.excluded_descendants@,
        t.excluded_mapped@ == s.excluded_mapped@,
{
    lemma_sorted_unique_eq(t.excluded_descendants@, s.excluded_descendants@);
    lemma_sorted_unique_eq(t.excluded_mapped@, s.excluded_mapped@);
    assert forall|k: int| 0 <= k < s.included_concepts@.len() implies kept_by(s)(
        #[trigger] s.included_concepts@[k],
    ) by {
        assert(s.included_concepts@.contains(s.included_concepts@[k]));
        assert(!excluded_union_has(s, s.included_concepts@[k]));
    }
    lemma_filter_all_kept(s.included_concepts@, kept_by(s));
    assert forall|x: i32|
        t.included_descendants@.contains(x) <==> s.included_descendants@.contains(x) by {
        if s.included_descendants@.contains(x) {
            assert(!excluded_union_has(s, x));
        }
    }
    lemma_sorted_unique_eq(t.included_descendants@, s.included_descendants@);
    assert forall|x: i32| t.included_mapped@.contains(x) <==> s.included_mapped@.contains(x) by {
        if s.included_mapped@.contains(x) {
            assert(!excluded_union_has(s, x));
        }
    }
    lemma_sorted_unique_eq(t.included_mapped@, s.included_mapped@);
}

/// A gathering result that relates to the pre-normalization lists as
/// `normalize_concept_summary` promises satisfies the full analysis
/// relation.
pub proof fn lemma_analysis_rel_intro(
    items: Seq<ConceptSetItem>,
    d: BatchOutcome,
    m: BatchOutcome,
    pre: ConceptGatheringResult,
    s: ConceptGatheringResult,
)
    requires
        pre.excluded_concepts@ == spec_gather(items).2,
        pre.included_concepts@ == spec_gather(items).0,
        pre.excluded_descendants@ == expansion_of(items, d, true, false),
        pre.included_descendants@ == expansion_of(items, d, false, false),
        pre.excluded_mapped@ == spec_gather(items).3 + expansion_of(items, m, true, true),
        pre.included_mapped@ == spec_gather(items).1 + expansion_of(items, m, false, true),
        normalized(s),
        s.excluded_concepts@ == pre.excluded_concepts@,
        forall|x: i32|
            s.excluded_descendants@.contains(x) <==> pre.excluded_descendants@.contains(x),
        forall|x: i32| s.excluded_mapped@.contains(x) <==> pre.excluded_mapped@.contains(x),
        s.included_concepts@ == pre.included_concepts@.filter(kept_by(pre)),
        forall|x: i32|
            s.included_descendants@.contains(x) <==> pre.included_descendants@.contains(x)
                && !excluded_union_has(pre, x),
        forall|x: i32|
            s.included_mapped@.contains(x) <==> pre.included_mapped@.contains(x)
                && !excluded_union_has(pre, x),
    ensures
        analysis_rel(items, d, m, s),
{
    let g = spec_gather(items);
    let incd = expansion_of(items, d, false, false);
    let excd = expansion_of(items, d, true, false);
    let incm = g.1 + expansion_of(items, m, false, true);
    let excm = g.3 + expansion_of(items, m, true, true);
    assert forall|x: i32| #[trigger] kept_by(pre)(x) == analysis_kept(items, d, m)(x) by {
        assert(excluded_union_has(pre, x) == (g.2.contains(x) || excd.contains(x)
            || excm.contains(x)));
    }
    lemma_filter_congruent(g.0, kept_by(pre), analysis_kept(items, d, m));
    assert(s.included_concepts@ == g.0.filter(analysis_kept(items, d, m)));
    assert forall|x: i32|
        s.included_descendants@.contains(x) <==> incd.contains(x) && !(g.2.contains(x)
            || excd.contains(x) || excm.contains(x)) by {
        assert(excluded_union_has(pre, x) == (g.2.contains(x) || excd.contains(x)
            || excm.contains(x)));
    }
    assert forall|x: i32|
        s.included_mapped@.contains(x) <==> incm.contains(x) && !(g.2.contains(x)
            || excd.contains(x) || excm.contains(x)) by {
        assert(excluded_union_has(pre, x) == (g.2.contains(x) || excd.contains(x)
            || excm.contains(x)));
    }
}

pub open spec fn analysis_rel(
    items: Seq<ConceptSetItem>,
    d: BatchOutcome,
    m: BatchOutcome,
    s: ConceptGatheringResult,
) -> bool {
    let g = spec_gather(items);
    let incd = expansion_of(items, d, false, false);
    let excd = expansion_of(items, d, true, false);
    let incm = g.1 + expansion_of(items, m, false, true);
    let excm = g.3 + expansion_of(items, m, true, true);
    &&& normalized(s)
    &&& s.excluded_concepts@ == g.2
    &&& (forall|x: i32| s.excluded_descendants@.contains(x) <==> excd.contains(x))
    &&& (forall|x: i32| s.excluded_mapped@.contains(x) <==> excm.contains(x))
    &&& s.included_concepts@ == g.0.filter(analysis_kept(items, d, m))
    &&& (forall|x: i32|
        s.included_descendants@.contains(x) <==> incd.contains(x) && !(g.2.contains(x)
            || excd.contains(x) || excm.contains(x)))
    &&& (forall|x: i32|
        s.included_mapped@.contains(x) <==> incm.contains(x) && !(g.2.contains(x)
            || excd.contains(x) || excm.contains(x)))
}

} // verus!
