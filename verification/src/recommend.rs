//! The recommendation engine: positive and negative examples from the
//! exact-match index, the set of concepts already reachable from the
//! expression, and the filtering and ranking of the scored points the vector
//! index returned.

use vstd::prelude::*;
use crate::analysis::{
    append_all, contains_i32, item_ids, sort_and_dedup_vec, strictly_sorted, BatchOutcome, IdGroup,
};
use crate::concepts::{Concept, ConceptSetExpression, ConceptSetItem};
use crate::index::{spec_index_lookup, ExactMatchIndex, IndexEntry};
use crate::seqs::{lemma_insert_to_multiset, lemma_remove_first_to_multiset};
use crate::text::{lower_of, lowercase, text_in, texts};

verus! {

/// One ranked suggestion: the concept's fields, the similarity score of the
/// point that carried it (as an order-preserving integer key) and the
/// top-level concept the recommendation is attributed to.
pub struct RecommendedConcept {
    pub concept_id: i32,
    pub concept_name: String,
    pub vocabulary_id: String,
    pub domain_id: String,
    pub concept_class_id: String,
    pub concept_code: String,
    pub standard_concept: String,
    pub invalid_reason: Option<String>,
    pub similarity_score: u64,
    pub source_concept_id: i32,
}

/// The aggregate answer: the ranked suggestions, how many there are, and the
/// distinct vocabularies referenced by the input expression.
pub struct ConceptRecommendations {
    pub recommendations: Vec<RecommendedConcept>,
    pub total_count: usize,
    pub used_vocabularies: Vec<String>,
}

/// One scored point the vector index returned, already expanded into the
/// concepts its payload carries. The score is an order-preserving integer
/// key for the index's similarity value.
pub struct ScoredHit {
    pub score: u64,
    pub concepts: Vec<Concept>,
}

/// How the recommendation stage went, as the caller hands it in: the
/// handles were not configured, the reachable-set lookup failed with a
/// message, or the scored points of the recommend query (with the two batch
/// expansions used to compute the reachable set).
pub enum RecommendOutcome {
    Unavailable,
    Errored(String),
    Completed { descendants: BatchOutcome, mapped: BatchOutcome, hits: Vec<ScoredHit> },
}

/// All identifiers of one batch outcome, flattened.
pub open spec fn flatten_ids(groups: Seq<IdGroup>) -> Seq<i32>
    decreases groups.len(),
{
    if groups.len() == 0 {
        Seq::<i32>::empty()
    } else {
        flatten_ids(groups.drop_last()) + groups.last().ids@
    }
}

pub open spec fn batch_flat_ids(o: BatchOutcome) -> Seq<i32> {
    match o {
        BatchOutcome::Fetched(groups) => flatten_ids(groups@),
        _ => Seq::<i32>::empty(),
    }
}

/// Whether `x` is already reachable from the expression: a direct item, or
/// returned by either batched expansion.
pub open spec fn in_set(
    items: Seq<ConceptSetItem>,
    d: BatchOutcome,
    m: BatchOutcome,
    x: i32,
) -> bool {
    item_ids(items).contains(x) || batch_flat_ids(d).contains(x) || batch_flat_ids(m).contains(x)
}

/// Every concept already in the set: all direct items plus everything either
/// batched expansion returned, excluded items included, since none of them
/// may be recommended again. Sorted and duplicate-free.
pub fn get_all_concepts_in_set(
    expression: &ConceptSetExpression,
    descendants: &BatchOutcome,
    mapped: &BatchOutcome,
) -> (r: Vec<i32>)
    ensures
        strictly_sorted(r@),
        forall|x: i32|
            r@.contains(x) <==> in_set(expression.items@, *descendants, *mapped, x),
{
    broadcast use vstd::seq_lib::group_seq_properties;

    let mut all: Vec<i32> = Vec::new();
    proof {
        assert(expression.items@.take(0) =~= Seq::<ConceptSetItem>::empty());
        assert(all@ =~= item_ids(expression.items@.take(0)));
    }
    let mut i: usize = 0;
    while i < expression.items.len()
        invariant
            i <= expression.items.len(),
            all@ == item_ids(expression.items@.take(i as int)),
        decreases expression.items.len() - i,
    {
        all.push(expression.items[i].concept.concept_id);
        proof {
            let t1 = expression.items@.take(i as int + 1);
            assert(t1.drop_last() =~= expression.items@.take(i as int));
            assert(t1.last() == expression.items@[i as int]);
        }
        i += 1;
    }
    proof {
        assert(expression.items@.take(expression.items@.len() as int) =~= expression.items@);
    }
    append_batch(&mut all, descendants);
    append_batch(&mut all, mapped);
    sort_and_dedup_vec(&mut all);
    proof {
        assert forall|x: i32|
            all@.contains(x) <==> in_set(expression.items@, *descendants, *mapped, x) by {}
    }
    all
}

fn append_batch(dst: &mut Vec<i32>, o: &BatchOutcome)
    ensures
        final(dst)@ == old(dst)@ + batch_flat_ids(*o),
{
    match o {
        BatchOutcome::Fetched(groups) => {
            proof {
                assert(groups@.take(0) =~= Seq::<IdGroup>::empty());
                assert(dst@ + flatten_ids(groups@.take(0)) =~= dst@);
            }
            let mut i: usize = 0;
            while i < groups.len()
                invariant
                    i <= groups.len(),
                    dst@ == old(dst)@ + flatten_ids(groups@.take(i as int)),
                decreases groups.len() - i,
            {
                append_all(dst, &groups[i].ids);
                proof {
                    let t1 = groups@.take(i as int + 1);
                    assert(t1.drop_last() =~= groups@.take(i as int));
                    assert(t1.last() == groups@[i as int]);
                    assert((old(dst)@ + flatten_ids(groups@.take(i as int)))
                        + groups@[i as int].ids@ =~= old(dst)@ + (flatten_ids(
                        groups@.take(i as int),
                    ) + groups@[i as int].ids@));
                }
                i += 1;
            }
            proof {
                assert(groups@.take(groups@.len() as int) =~= groups@);
            }
        },
        BatchOutcome::Skipped => {
            proof {
                assert(old(dst)@ + batch_flat_ids(*o) =~= old(dst)@);
            }
        },
        BatchOutcome::Failed(_) => {
            proof {
                assert(old(dst)@ + batch_flat_ids(*o) =~= old(dst)@);
            }
        },
    }
}

/// The point identifiers the exact-match index holds for the items on one
/// side of the excluded flag: the first cached identifier per item, in item
/// order; items absent from the index contribute nothing.
pub open spec fn cache_points(
    items: Seq<ConceptSetItem>,
    entries: Seq<IndexEntry>,
    excluded: bool,
) -> Seq<Seq<char>>
    decreases items.len(),
{
    if items.len() == 0 {
        Seq::<Seq<char>>::empty()
    } else {
        let rest = cache_points(items.drop_last(), entries, excluded);
        let it = items.last();
        if it.is_excluded == excluded {
            match spec_index_lookup(entries, lower_of(it.concept.concept_name@)) {
                Some(ids) => if ids.len() > 0 {
                    rest.push(ids[0]@)
                } else {
                    rest
                },
                None => rest,
            }
        } else {
            rest
        }
    }
}

fn cache_point_ids(
    expression: &ConceptSetExpression,
    concept_index: &ExactMatchIndex,
    excluded: bool,
) -> (r: Vec<String>)
    ensures
        texts(r@) == cache_points(expression.items@, concept_index.entries@, excluded),
{
    let mut r: Vec<String> = Vec::new();
    proof {
        assert(expression.items@.take(0) =~= Seq::<ConceptSetItem>::empty());
        assert(texts(r@) =~= cache_points(
            expression.items@.take(0),
            concept_index.entries@,
            excluded,
        ));
    }
    let mut i: usize = 0;
    while i < expression.items.len()
        invariant
            i <= expression.items.len(),
            texts(r@) == cache_points(
                expression.items@.take(i as int),
                concept_index.entries@,
                excluded,
            ),
        decreases expression.items.len() - i,
    {
        let item = &expression.items[i];
        if item.is_excluded == excluded {
            let name_lower = lowercase(item.concept.concept_name.as_str());
            match concept_index.lookup(&name_lower) {
                Some(cached_ids) => {
                    if cached_ids.len() > 0 {
                        let first = cached_ids[0].clone();
                        r.push(first);
                    }
                },
                None => {},
            }
        }
        proof {
            let t1 = expression.items@.take(i as int + 1);
            assert(t1.drop_last() =~= expression.items@.take(i as int));
            assert(t1.last() == expression.items@[i as int]);
            assert(texts(r@) =~= cache_points(t1, concept_index.entries@, excluded));
        }
        i += 1;
    }
    proof {
        assert(expression.items@.take(expression.items@.len() as int) =~= expression.items@);
    }
    r
}

/// The positive examples: the first cached point identifier of every
/// top-level included item.
pub fn collect_positive_point_ids(
    expression: &ConceptSetExpression,
    concept_index: &ExactMatchIndex,
) -> (r: Vec<String>)
    ensures
        texts(r@) == cache_points(expression.items@, concept_index.entries@, false),
{
    cache_point_ids(expression, concept_index, false)
}

/// The negative examples: the first cached point identifier of every
/// excluded item.
pub fn collect_negative_point_ids(
    expression: &ConceptSetExpression,
    concept_index: &ExactMatchIndex,
) -> (r: Vec<String>)
    ensures
        texts(r@) == cache_points(expression.items@, concept_index.entries@, true),
{
    cache_point_ids(expression, concept_index, true)
}

/// Cap an example list: only the first `limit` point identifiers are sent
/// with the recommend query.
pub fn limit_point_ids(point_ids: Vec<String>, limit: usize) -> (r: Vec<String>)
    ensures
        r@ == if point_ids@.len() <= limit {
            point_ids@
        } else {
            point_ids@.take(limit as int)
        },
{
    let mut r = point_ids;
    r.truncate(limit);
    r
}

/// The concept identifier of the first top-level included item, or zero when
/// every item is excluded: every recommendation is attributed to it.
pub open spec fn first_included_id(items: Seq<ConceptSetItem>) -> i32
    decreases items.len(),
{
    if items.len() == 0 {
        0
    } else if !items[0].is_excluded {
        items[0].concept.concept_id
    } else {
        first_included_id(items.drop_first())
    }
}

fn find_first_included_id(expression: &ConceptSetExpression) -> (r: i32)
    ensures
        r == first_included_id(expression.items@),
{
    proof {
        assert(expression.items@.skip(0) =~= expression.items@);
    }
    let mut i: usize = 0;
    while i < expression.items.len()
        invariant
            i <= expression.items.len(),
            first_included_id(expression.items@) == first_included_id(
                expression.items@.skip(i as int),
            ),
        decreases expression.items.len() - i,
    {
        proof {
            assert(expression.items@.skip(i as int)[0] == expression.items@[i as int]);
            assert(expression.items@.skip(i as int).drop_first() =~= expression.items@.skip(
                i as int + 1,
            ));
        }
        if !expression.items[i].is_excluded {
            return expression.items[i].concept.concept_id;
        }
        i += 1;
    }
    proof {
        assert(expression.items@.skip(expression.items@.len() as int).len() == 0);
    }
    0
}

/// Whether some item of the expression carries this domain.
pub open spec fn domain_referenced(items: Seq<ConceptSetItem>, t: Seq<char>) -> bool {
    exists|j: int| 0 <= j < items.len() && items[j].concept.domain_id@ == t
}

/// Whether some item of the expression carries this vocabulary.
pub open spec fn vocabulary_referenced(items: Seq<ConceptSetItem>, t: Seq<char>) -> bool {
    exists|j: int| 0 <= j < items.len() && items[j].concept.vocabulary_id@ == t
}

fn contains_text(list: &Vec<String>, t: &String) -> (b: bool)
    ensures
        b == text_in(list@, t@),
{
    let mut i: usize = 0;
    while i < list.len()
        invariant
            i <= list.len(),
            forall|k: int| 0 <= k < i ==> list@[k]@ != t@,
        decreases list.len() - i,
    {
        if list[i] == *t {
            proof {
                assert(list@[i as int]@ == t@);
            }
            return true;
        }
        i += 1;
    }
    false
}

fn expression_domains(expression: &ConceptSetExpression) -> (r: Vec<String>)
    ensures
        forall|t: Seq<char>|
            text_in(r@, t) <==> domain_referenced(expression.items@, t),
{
    let mut r: Vec<String> = Vec::new();
    let mut i: usize = 0;
    while i < expression.items.len()
        invariant
            i <= expression.items.len(),
            forall|t: Seq<char>|
                text_in(r@, t) <==> domain_referenced(expression.items@.take(i as int), t),
        decreases expression.items.len() - i,
    {
        let d = expression.items[i].concept.domain_id.clone();
        let ghost before = r@;
        r.push(d);
        proof {
            assert forall|t: Seq<char>|
                text_in(r@, t) <==> domain_referenced(
                    expression.items@.take(i as int + 1),
                    t,
                ) by {
                let t1 = expression.items@.take(i as int + 1);
                assert(forall|k: int| 0 <= k < before.len() ==> r@[k] == before[k]);
                assert(r@[before.len() as int]@ == expression.items@[i as int].concept.domain_id@);
                if text_in(r@, t) {
                    let j = choose|j: int| 0 <= j < r@.len() && r@[j]@ == t;
                    if j < before.len() {
                        assert(text_in(before, t));
                        let k = choose|k: int|
                            0 <= k < i && expression.items@.take(i as int)[k].concept.domain_id@
                                == t;
                        assert(t1[k].concept.domain_id@ == t);
                    } else {
                        assert(t1[i as int].concept.domain_id@ == t);
                    }
                }
                if domain_referenced(t1, t) {
                    let k = choose|k: int| 0 <= k < t1.len() && t1[k].concept.domain_id@ == t;
                    if k < i {
                        assert(expression.items@.take(i as int)[k].concept.domain_id@ == t);
                        assert(text_in(before, t));
                        let j = choose|j: int| 0 <= j < before.len() && before[j]@ == t;
                        assert(r@[j]@ == t);
                    } else {
                        assert(r@[before.len() as int]@ == t);
                    }
                }
            }
        }
        i += 1;
    }
    proof {
        assert(expression.items@.take(expression.items@.len() as int) =~= expression.items@);
    }
    r
}

fn distinct_vocabularies(expression: &ConceptSetExpression) -> (r: Vec<String>)
    ensures
        forall|j1: int, j2: int| 0 <= j1 < j2 < r@.len() ==> r@[j1]@ != r@[j2]@,
        forall|t: Seq<char>|
            text_in(r@, t) <==> vocabulary_referenced(expression.items@, t),
{
    let mut r: Vec<String> = Vec::new();
    let mut i: usize = 0;
    while i < expression.items.len()
        invariant
            i <= expression.items.len(),
            forall|j1: int, j2: int| 0 <= j1 < j2 < r@.len() ==> r@[j1]@ != r@[j2]@,
            forall|t: Seq<char>|
                text_in(r@, t) <==> vocabulary_referenced(expression.items@.take(i as int), t),
        decreases expression.items.len() - i,
    {
        let v = &expression.items[i].concept.vocabulary_id;
        let ghost before = r@;
        if !contains_text(&r, v) {
            r.push(v.clone());
        }
        proof {
            let t1 = expression.items@.take(i as int + 1);
            assert(t1.drop_last() =~= expression.items@.take(i as int));
            assert forall|t: Seq<char>|
                text_in(r@, t) <==> vocabulary_referenced(t1, t) by {
                assert(t1[i as int] == expression.items@[i as int]);
                if text_in(r@, t) {
                    let j = choose|j: int| 0 <= j < r@.len() && r@[j]@ == t;
                    if j < before.len() {
                        assert(text_in(before, t));
                        let k = choose|k: int|
                            0 <= k < i && expression.items@.take(i as int)[k].concept.vocabulary_id@
                                == t;
                        assert(t1[k].concept.vocabulary_id@ == t);
                    } else {
                        assert(r@[j]@ == expression.items@[i as int].concept.vocabulary_id@);
                        assert(t1[i as int].concept.vocabulary_id@ == t);
                    }
                }
                if vocabulary_referenced(t1, t) {
                    let k = choose|k: int| 0 <= k < t1.len() && t1[k].concept.vocabulary_id@ == t;
                    if k < i {
                        assert(expression.items@.take(i as int)[k].concept.vocabulary_id@ == t);
                        assert(text_in(before, t));
                        let j = choose|j: int| 0 <= j < before.len() && before[j]@ == t;
                        assert(r@[j]@ == t);
                    } else {
                        if text_in(before, expression.items@[i as int].concept.vocabulary_id@) {
                            let j = choose|j: int|
                                0 <= j < before.len() && before[j]@ == expression.items@[
                                    i as int
                                ].concept.vocabulary_id@;
                            assert(r@[j]@ == t);
                        } else {
                            assert(r@[before.len() as int]@ == t);
                        }
                    }
                }
            }
        }
        i += 1;
    }
    proof {
        assert(expression.items@.take(expression.items@.len() as int) =~= expression.items@);
    }
    r
}

/// The recommendation built from one payload concept of one scored point:
/// the concept's fields (absent optional strings rendered empty), the
/// point's score, and the given source attribution.
pub open spec fn rec_from(rc: RecommendedConcept, h: ScoredHit, c: Concept, src: i32) -> bool {
    &&& rc.concept_id == c.concept_id
    &&& rc.concept_name@ == c.concept_name@
    &&& rc.vocabulary_id@ == c.vocabulary_id@
    &&& rc.domain_id@ == c.domain_id@
    &&& rc.concept_class_id@ == c.concept_class_id@
    &&& rc.concept_code@ == match c.concept_code {
        Some(s) => s@,
        None => Seq::<char>::empty(),
    }
    &&& rc.standard_concept@ == match c.standard_concept {
        Some(s) => s@,
        None => Seq::<char>::empty(),
    }
    &&& match (rc.invalid_reason, c.invalid_reason) {
        (Some(a), Some(b)) => a@ == b@,
        (None, None) => true,
        _ => false,
    }
    &&& rc.similarity_score == h.score
    &&& rc.source_concept_id == src
}

/// Scores never increase along the ranked list.
pub open spec fn sorted_desc_recs(s: Seq<RecommendedConcept>) -> bool {
    forall|i: int, j: int|
        0 <= i < j < s.len() ==> s[i].similarity_score >= s[j].similarity_score
}

/// A payload concept survives the recommendation filter: it is not already
/// in the set and its domain is among the allowed ones.
pub open spec fn survives(c: Concept, existing: Seq<i32>, domains: Seq<String>) -> bool {
    !existing.contains(c.concept_id) && text_in(domains, c.domain_id@)
}

/// A sound recommendation: it survives the filter and was built from some
/// payload concept of some scored point.
pub open spec fn sound_rec(
    rc: RecommendedConcept,
    hits: Seq<ScoredHit>,
    existing: Seq<i32>,
    domains: Seq<String>,
    src: i32,
) -> bool {
    &&& !existing.contains(rc.concept_id)
    &&& text_in(domains, rc.domain_id@)
    &&& exists|h: int, c: int|
        0 <= h < hits.len() && 0 <= c < hits[h].concepts@.len() && rec_from(
            rc,
            hits[h],
            hits[h].concepts@[c],
            src,
        )
}

/// Some entry of the list was built from this payload concept.
pub open spec fn represented(
    all: Seq<RecommendedConcept>,
    h: ScoredHit,
    c: Concept,
    src: i32,
) -> bool {
    exists|k: int| 0 <= k < all.len() && rec_from(all[k], h, c, src)
}

fn build_recommendations(
    hits: &Vec<ScoredHit>,
    existing_concepts: &Vec<i32>,
    allowed_domains: &Vec<String>,
    source_concept_id: i32,
) -> (all: Vec<RecommendedConcept>)
    ensures
        forall|k: int|
            0 <= k < all@.len() ==> sound_rec(
                #[trigger] all@[k],
                hits@,
                existing_concepts@,
                allowed_domains@,
                source_concept_id,
            ),
        forall|h: int, c: int|
            0 <= h < hits@.len() && 0 <= c < hits@[h].concepts@.len() && survives(
                #[trigger] hits@[h].concepts@[c],
                existing_concepts@,
                allowed_domains@,
            ) ==> represented(all@, hits@[h], hits@[h].concepts@[c], source_concept_id),
{
    let mut all: Vec<RecommendedConcept> = Vec::new();
    let mut h: usize = 0;
    while h < hits.len()
        invariant
            h <= hits.len(),
            forall|k: int|
                0 <= k < all@.len() ==> sound_rec(
                    #[trigger] all@[k],
                    hits@,
                    existing_concepts@,
                    allowed_domains@,
                    source_concept_id,
                ),
            forall|hh: int, cc: int|
                0 <= hh < h && 0 <= cc < hits@[hh].concepts@.len() && survives(
                    #[trigger] hits@[hh].concepts@[cc],
                    existing_concepts@,
                    allowed_domains@,
                ) ==> represented(all@, hits@[hh], hits@[hh].concepts@[cc], source_concept_id),
        decreases hits.len() - h,
    {
        let hit = &hits[h];
        let mut c: usize = 0;
        while c < hit.concepts.len()
            invariant
                h < hits.len(),
                c <= hit.concepts.len(),
                hit == &hits[h as int],
                forall|k: int|
                    0 <= k < all@.len() ==> sound_rec(
                        #[trigger] all@[k],
                        hits@,
                        existing_concepts@,
                        allowed_domains@,
                        source_concept_id,
                    ),
                forall|hh: int, cc: int|
                    0 <= hh < h && 0 <= cc < hits@[hh].concepts@.len() && survives(
                        #[trigger] hits@[hh].concepts@[cc],
                        existing_concepts@,
                        allowed_domains@,
                    ) ==> represented(all@, hits@[hh], hits@[hh].concepts@[cc], source_concept_id),
                forall|cc: int|
                    0 <= cc < c && survives(
                        #[trigger] hits@[h as int].concepts@[cc],
                        existing_concepts@,
                        allowed_domains@,
                    ) ==> represented(
                        all@,
                        hits@[h as int],
                        hits@[h as int].concepts@[cc],
                        source_concept_id,
                    ),
            decreases hit.concepts.len() - c,
        {
            let concept = &hit.concepts[c];
            let already = contains_i32(existing_concepts, concept.concept_id);
            let in_domain = contains_text(allowed_domains, &concept.domain_id);
            let ghost all_before = all@;
            if !already && in_domain {
                let rc = RecommendedConcept {
                    concept_id: concept.concept_id,
                    concept_name: concept.concept_name.clone(),
                    vocabulary_id: concept.vocabulary_id.clone(),
                    domain_id: concept.domain_id.clone(),
                    concept_class_id: concept.concept_class_id.clone(),
                    concept_code: match &concept.concept_code {
                        Some(s) => s.clone(),
                        None => String::new(),
                    },
                    standard_concept: match &concept.standard_concept {
                        Some(s) => s.clone(),
                        None => String::new(),
                    },
                    invalid_reason: match &concept.invalid_reason {
                        Some(s) => Some(s.clone()),
                        None => None,
                    },
                    similarity_score: hit.score,
                    source_concept_id,
                };
                all.push(rc);
                proof {
                    assert(forall|k: int| 0 <= k < all_before.len() ==> all@[k] == all_before[k]);
                    assert(rec_from(
                        all@[all_before.len() as int],
                        hits@[h as int],
                        hits@[h as int].concepts@[c as int],
                        source_concept_id,
                    ));
                    assert(sound_rec(
                        all@[all_before.len() as int],
                        hits@,
                        existing_concepts@,
                        allowed_domains@,
                        source_concept_id,
                    ));
                    assert forall|hh: ScoredHit, cn: Concept|
                        represented(all_before, hh, cn, source_concept_id) implies represented(
                        all@,
                        hh,
                        cn,
                        source_concept_id,
                    ) by {
                        let k = choose|k: int|
                            0 <= k < all_before.len() && rec_from(
                                all_before[k],
                                hh,
                                cn,
                                source_concept_id,
                            );
                        assert(rec_from(all@[k], hh, cn, source_concept_id));
                    }
                }
            } else {
                proof {
                    assert(!survives(
                        hits@[h as int].concepts@[c as int],
                        existing_concepts@,
                        allowed_domains@,
                    ));
                }
            }
            c += 1;
        }
        h += 1;
    }
    all
}

fn sort_recommendations_desc(v: Vec<RecommendedConcept>) -> (r: Vec<RecommendedConcept>)
    ensures
        sorted_desc_recs(r@),
        r@.to_multiset() == v@.to_multiset(),
{
    broadcast use vstd::seq_lib::group_to_multiset_ensures;
    broadcast use vstd::multiset::group_multiset_axioms;

    let mut rest = v;
    let mut r: Vec<RecommendedConcept> = Vec::new();
    proof {
        assert(r@.to_multiset().add(rest@.to_multiset()) =~= v@.to_multiset());
    }
    while rest.len() > 0
        invariant
            sorted_desc_recs(r@),
            r@.to_multiset().add(rest@.to_multiset()) =~= v@.to_multiset(),
        decreases rest.len(),
    {
        let ghost rest_before = rest@;
        let ghost r_before = r@;
        proof {
            lemma_remove_first_to_multiset(rest@);
        }
        let g = rest.remove(0);
        let mut pos: usize = 0;
        while pos < r.len() && r[pos].similarity_score >= g.similarity_score
            invariant
                pos <= r.len(),
                r@ == r_before,
                forall|k: int| 0 <= k < pos ==> r@[k].similarity_score >= g.similarity_score,
            decreases r.len() - pos,
        {
            pos += 1;
        }
        proof {
            lemma_insert_to_multiset(r@, pos as int, g);
            r@.insert_ensures(pos as int, g);
        }
        r.insert(pos, g);
        proof {
            assert(sorted_desc_recs(r@)) by {
                assert(forall|k: int|
                    pos < k < r@.len() ==> r@[k] == r_before[k - 1]);
                assert(forall|k: int|
                    pos <= k < r_before.len() ==> r_before[k].similarity_score
                        <= g.similarity_score) by {
                    if pos < r_before.len() {
                        assert(r_before[pos as int].similarity_score < g.similarity_score);
                        assert(forall|k: int|
                            pos < k < r_before.len() ==> #[trigger] r_before[k].similarity_score
                                <= r_before[pos as int].similarity_score);
                    }
                }
            }
            assert(r@.to_multiset().add(rest@.to_multiset()) =~= v@.to_multiset());
        }
    }
    proof {
        assert(rest@.to_multiset() =~= Seq::<RecommendedConcept>::empty().to_multiset());
        assert(r@.to_multiset().add(rest@.to_multiset()) =~= r@.to_multiset());
    }
    r
}

/// Filter and rank the scored points of one recommend query: keep each
/// payload concept that is not already in the set and whose domain the
/// expression references, attribute it to the given source concept, and
/// sort the survivors by score, best first.
pub fn query_and_process_recommendations(
    hits: &Vec<ScoredHit>,
    existing_concepts: &Vec<i32>,
    allowed_domains: &Vec<String>,
    source_concept_id: i32,
    used_vocabularies: Vec<String>,
) -> (r: ConceptRecommendations)
    ensures
        sorted_desc_recs(r.recommendations@),
        r.total_count == r.recommendations@.len(),
        r.used_vocabularies == used_vocabularies,
        forall|k: int|
            0 <= k < r.recommendations@.len() ==> sound_rec(
                #[trigger] r.recommendations@[k],
                hits@,
                existing_concepts@,
                allowed_domains@,
                source_concept_id,
            ),
        forall|h: int, c: int|
            0 <= h < hits@.len() && 0 <= c < hits@[h].concepts@.len() && survives(
                #[trigger] hits@[h].concepts@[c],
                existing_concepts@,
                allowed_domains@,
            ) ==> represented(
                r.recommendations@,
                hits@[h],
                hits@[h].concepts@[c],
                source_concept_id,
            ),
{
    broadcast use vstd::seq_lib::group_to_multiset_ensures;

    let all = build_recommendations(
        hits,
        existing_concepts,
        allowed_domains,
        source_concept_id,
    );
    let ghost pre_sort = all@;
    let sorted = sort_recommendations_desc(all);
    proof {
        assert forall|k: int| 0 <= k < sorted@.len() implies sound_rec(
            #[trigger] sorted@[k],
            hits@,
            existing_concepts@,
            allowed_domains@,
            source_concept_id,
        ) by {
            assert(sorted@.contains(sorted@[k]));
            assert(sorted@.to_multiset().count(sorted@[k]) > 0);
            assert(pre_sort.contains(sorted@[k]));
            let k0 = choose|k0: int| 0 <= k0 < pre_sort.len() && pre_sort[k0] == sorted@[k];
            assert(sound_rec(
                pre_sort[k0],
                hits@,
                existing_concepts@,
                allowed_domains@,
                source_concept_id,
            ));
        }
        assert forall|h: int, c: int|
            0 <= h < hits@.len() && 0 <= c < hits@[h].concepts@.len() && survives(
                #[trigger] hits@[h].concepts@[c],
                existing_concepts@,
                allowed_domains@,
            ) implies represented(
            sorted@,
            hits@[h],
            hits@[h].concepts@[c],
            source_concept_id,
        ) by {
            assert(represented(pre_sort, hits@[h], hits@[h].concepts@[c], source_concept_id));
            let k0 = choose|k0: int|
                0 <= k0 < pre_sort.len() && rec_from(
                    pre_sort[k0],
                    hits@[h],
                    hits@[h].concepts@[c],
                    source_concept_id,
                );
            assert(pre_sort.contains(pre_sort[k0]));
            assert(sorted@.to_multiset().count(pre_sort[k0]) > 0);
            assert(sorted@.contains(pre_sort[k0]));
            let k = choose|k: int| 0 <= k < sorted@.len() && sorted@[k] == pre_sort[k0];
            assert(rec_from(
                sorted@[k],
                hits@[h],
                hits@[h].concepts@[c],
                source_concept_id,
            ));
        }
    }
    let total_count = sorted.len();
    ConceptRecommendations { recommendations: sorted, total_count, used_vocabularies }
}

/// Everything the completed recommendation stage promises about its answer,
/// given the expression, the index entries, the two batch expansions and the
/// scored points.
pub open spec fn recommendations_rel(
    items: Seq<ConceptSetItem>,
    entries: Seq<IndexEntry>,
    d: BatchOutcome,
    m: BatchOutcome,
    hits: Seq<ScoredHit>,
    cr: ConceptRecommendations,
) -> bool {
    if cache_points(items, entries, false).len() == 0 {
        cr.recommendations@.len() == 0 && cr.total_count == 0 && cr.used_vocabularies@.len() == 0
    } else {
        &&& sorted_desc_recs(cr.recommendations@)
        &&& cr.total_count == cr.recommendations@.len()
        &&& forall|k: int|
            0 <= k < cr.recommendations@.len() ==> {
                &&& !in_set(items, d, m, #[trigger] cr.recommendations@[k].concept_id)
                &&& domain_referenced(items, cr.recommendations@[k].domain_id@)
                &&& exists|h: int, c: int|
                    0 <= h < hits.len() && 0 <= c < hits[h].concepts@.len() && rec_from(
                        cr.recommendations@[k],
                        hits[h],
                        hits[h].concepts@[c],
                        first_included_id(items),
                    )
            }
        &&& forall|h: int, c: int|
            0 <= h < hits.len() && 0 <= c < hits[h].concepts@.len() && !in_set(
                items,
                d,
                m,
                #[trigger] hits[h].concepts@[c].concept_id,
            ) && domain_referenced(items, hits[h].concepts@[c].domain_id@) ==> represented(
                cr.recommendations@,
                hits[h],
                hits[h].concepts@[c],
                first_included_id(items),
            )
        &&& forall|j1: int, j2: int|
            0 <= j1 < j2 < cr.used_vocabularies@.len() ==> cr.used_vocabularies@[j1]@
                != cr.used_vocabularies@[j2]@
        &&& forall|t: Seq<char>|
            text_in(cr.used_vocabularies@, t) <==> vocabulary_referenced(items, t)
    }
}

/// Produce the recommendations for an analyzed expression from the scored
/// points the caller obtained with the capped positive and negative
/// examples. With no cached positive example the answer is empty and no
/// query result is consulted. The per-concept cap is accepted for interface
/// compatibility; the example lists are capped at fifty entries instead.
pub fn get_concept_recommendations(
    expression: &ConceptSetExpression,
    concept_index: &ExactMatchIndex,
    descendants: &BatchOutcome,
    mapped: &BatchOutcome,
    hits: &Vec<ScoredHit>,
    limit_per_concept: u64,
) -> (r: ConceptRecommendations)
    ensures
        recommendations_rel(
            expression.items@,
            concept_index.entries@,
            *descendants,
            *mapped,
            hits@,
            r,
        ),
{
    let positives = collect_positive_point_ids(expression, concept_index);
    if positives.len() == 0 {
        let r = ConceptRecommendations {
            recommendations: Vec::new(),
            total_count: 0,
            used_vocabularies: Vec::new(),
        };
        proof {
            assert(texts(positives@).len() == positives@.len());
            assert(r.recommendations@.len() == 0);
            assert(r.used_vocabularies@.len() == 0);
        }
        return r;
    }
    let existing_concepts = get_all_concepts_in_set(expression, descendants, mapped);
    let source_concept_id = find_first_included_id(expression);
    let allowed_domains = expression_domains(expression);
    let concept_set_vocabularies = distinct_vocabularies(expression);
    let r = query_and_process_recommendations(
        hits,
        &existing_concepts,
        &allowed_domains,
        source_concept_id,
        concept_set_vocabularies,
    );
    proof {
        assert(texts(positives@).len() == positives@.len());
        let items = expression.items@;
        assert forall|k: int| 0 <= k < r.recommendations@.len() implies {
            &&& !in_set(items, *descendants, *mapped, #[trigger] r.recommendations@[k].concept_id)
            &&& domain_referenced(items, r.recommendations@[k].domain_id@)
            &&& exists|h: int, c: int|
                0 <= h < hits@.len() && 0 <= c < hits@[h].concepts@.len() && rec_from(
                    r.recommendations@[k],
                    hits@[h],
                    hits@[h].concepts@[c],
                    first_included_id(items),
                )
        } by {
            assert(sound_rec(
                r.recommendations@[k],
                hits@,
                existing_concepts@,
                allowed_domains@,
                source_concept_id,
            ));
        }
        assert forall|h: int, c: int|
            0 <= h < hits@.len() && 0 <= c < hits@[h].concepts@.len() && !in_set(
                items,
                *descendants,
                *mapped,
                #[trigger] hits@[h].concepts@[c].concept_id,
            ) && domain_referenced(items, hits@[h].concepts@[c].domain_id@) implies represented(
            r.recommendations@,
            hits@[h],
            hits@[h].concepts@[c],
            first_included_id(items),
        ) by {
            assert(survives(hits@[h].concepts@[c], existing_concepts@, allowed_domains@));
        }
    }
    r
}

} // verus!
