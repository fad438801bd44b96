//! Concept-set validation: the result object, duplicate detection, and the
//! full analysis pipeline over the outcomes of the caller's relational and
//! vector-index calls.

use vstd::prelude::*;
use vstd::string::StringExecFns;
use crate::analysis::{
    analysis_rel, apply_descendant_expansion, apply_mapped_expansion, contains_i32,
    gather_concepts_from_expression, insert_sorted_unique, item_ids, normalize_concept_summary,
    spec_gather, strictly_sorted, BatchOutcome, ConceptGatheringResult,
};
use crate::concepts::{ConceptSetExpression, ConceptSetItem};
use crate::index::{ExactMatchIndex, IndexEntry};
use crate::recommend::{
    get_concept_recommendations, recommendations_rel, ConceptRecommendations, RecommendOutcome,
};
use crate::seqs::lemma_insert_to_multiset;
use crate::text::{
    is_blank_text, join_ids, joined_dec, lemma_texts_push, spec_trim, texts,
};

verus! {

/// The analysis answer: a validity flag, the errors that made it invalid,
/// the warnings that did not, and, when the expression was well formed, the
/// gathered identifier sets and the recommendations.
pub struct ValidationResult {
    pub valid: bool,
    pub errors: Vec<String>,
    pub warnings: Vec<String>,
    pub concept_summary: Option<ConceptGatheringResult>,
    pub recommendations: Option<ConceptRecommendations>,
}

impl ValidationResult {
    /// A fresh result: valid, with nothing recorded.
    pub fn new() -> (r: Self)
        ensures
            r.valid,
            r.errors@ == Seq::<String>::empty(),
            r.warnings@ == Seq::<String>::empty(),
            r.concept_summary is None,
            r.recommendations is None,
    {
        let r = ValidationResult {
            valid: true,
            errors: Vec::new(),
            warnings: Vec::new(),
            concept_summary: None,
            recommendations: None,
        };
        proof {
            assert(r.errors@ =~= Seq::<String>::empty());
            assert(r.warnings@ =~= Seq::<String>::empty());
        }
        r
    }

    /// Record an error; the result is invalid from then on.
    pub fn add_error(&mut self, error: String)
        ensures
            final(self).errors@ == old(self).errors@.push(error),
            !final(self).valid,
            final(self).warnings@ == old(self).warnings@,
            final(self).concept_summary == old(self).concept_summary,
            final(self).recommendations == old(self).recommendations,
    {
        self.errors.push(error);
        self.valid = false;
    }

    /// Record a warning; validity is untouched.
    pub fn add_warning(&mut self, warning: String)
        ensures
            final(self).warnings@ == old(self).warnings@.push(warning),
            final(self).valid == old(self).valid,
            final(self).errors@ == old(self).errors@,
            final(self).concept_summary == old(self).concept_summary,
            final(self).recommendations == old(self).recommendations,
    {
        self.warnings.push(warning);
    }
}

/// Whether `x` occurs at two different positions of the identifier list.
pub open spec fn has_dup(s: Seq<i32>, x: i32) -> bool {
    exists|i: int, j: int| 0 <= i < j < s.len() && s[i] == x && s[j] == x
}

fn contains_prefix(ids: &Vec<i32>, upto: usize, x: i32) -> (b: bool)
    requires
        upto <= ids@.len(),
    ensures
        b == ids@.take(upto as int).contains(x),
{
    let mut j: usize = 0;
    while j < upto
        invariant
            j <= upto <= ids@.len(),
            forall|k: int| 0 <= k < j ==> ids@[k] != x,
        decreases upto - j,
    {
        if ids[j] == x {
            proof {
                assert(ids@.take(upto as int)[j as int] == x);
            }
            return true;
        }
        j += 1;
    }
    proof {
        assert forall|k: int| 0 <= k < upto implies ids@.take(upto as int)[k] != x by {
            assert(ids@.take(upto as int)[k] == ids@[k]);
        }
    }
    false
}

/// The identifiers that occur more than once, sorted and duplicate-free.
pub fn duplicate_ids(ids: &Vec<i32>) -> (r: Vec<i32>)
    ensures
        strictly_sorted(r@),
        forall|x: i32| r@.contains(x) <==> has_dup(ids@, x),
{
    let mut r: Vec<i32> = Vec::new();
    let mut i: usize = 0;
    while i < ids.len()
        invariant
            i <= ids.len(),
            strictly_sorted(r@),
            forall|x: i32| r@.contains(x) <==> has_dup(ids@.take(i as int), x),
        decreases ids.len() - i,
    {
        let x = ids[i];
        if contains_prefix(ids, i, x) {
            insert_sorted_unique(&mut r, x);
        }
        proof {
            let t = ids@.take(i as int);
            let t1 = ids@.take(i as int + 1);
            assert(t1.len() == i + 1);
            assert(forall|k: int| 0 <= k <= i ==> t1[k] == ids@[k]);
            assert(forall|k: int| 0 <= k < i ==> t[k] == ids@[k]);
            assert forall|y: i32|
                has_dup(t1, y) <==> (has_dup(t, y) || (y == ids@[i as int] && t.contains(
                    y,
                ))) by {
                if has_dup(t1, y) {
                    let (a, b) = choose|a: int, b: int|
                        0 <= a < b < t1.len() && t1[a] == y && t1[b] == y;
                    if b < i {
                        assert(t[a] == y && t[b] == y);
                        assert(has_dup(t, y));
                    } else {
                        assert(b == i);
                        assert(y == ids@[i as int]);
                        assert(t[a] == y);
                        assert(t.contains(y));
                    }
                }
                if has_dup(t, y) {
                    let (a, b) = choose|a: int, b: int|
                        0 <= a < b < t.len() && t[a] == y && t[b] == y;
                    assert(t1[a] == y && t1[b] == y);
                    assert(has_dup(t1, y));
                }
                if y == ids@[i as int] && t.contains(y) {
                    let a = choose|a: int| 0 <= a < t.len() && t[a] == y;
                    assert(t1[a] == y && t1[i as int] == y);
                    assert(has_dup(t1, y));
                }
            }
        }
        i += 1;
    }
    proof {
        assert(ids@.take(ids@.len() as int) =~= ids@);
    }
    r
}

fn collect_item_ids(expression: &ConceptSetExpression) -> (r: Vec<i32>)
    ensures
        r@ == item_ids(expression.items@),
{
    let mut r: Vec<i32> = Vec::new();
    proof {
        assert(expression.items@.take(0) =~= Seq::<ConceptSetItem>::empty());
        assert(r@ =~= item_ids(expression.items@.take(0)));
    }
    let mut i: usize = 0;
    while i < expression.items.len()
        invariant
            i <= expression.items.len(),
            r@ == item_ids(expression.items@.take(i as int)),
        decreases expression.items.len() - i,
    {
        r.push(expression.items[i].concept.concept_id);
        proof {
            let t1 = expression.items@.take(i as int + 1);
            assert(t1.drop_last() =~= expression.items@.take(i as int));
            assert(t1.last() == expression.items@[i as int]);
        }
        i += 1;
    }
    proof {
        assert(expression.items@.take(expression.items@.len() as int) =~= expression.items@);
    }
    r
}

/// The duplicate warning, when there is something to warn about.
pub open spec fn w_dups(dups: Seq<i32>) -> Seq<Seq<char>> {
    if dups.len() == 0 {
        Seq::<Seq<char>>::empty()
    } else {
        seq!["Duplicate concept IDs found in expression: "@ + joined_dec(dups)]
    }
}

/// Warn once when some concept identifier occurs on more than one item:
/// the warning lists the offending identifiers, sorted and deduplicated.
/// Duplicates never affect validity.
pub fn check_for_duplicates(result: &mut ValidationResult, expression: &ConceptSetExpression)
    ensures
        final(result).valid == old(result).valid,
        final(result).errors@ == old(result).errors@,
        final(result).concept_summary == old(result).concept_summary,
        final(result).recommendations == old(result).recommendations,
        exists|dups: Seq<i32>|
            {
                &&& strictly_sorted(dups)
                &&& (forall|x: i32| dups.contains(x) <==> has_dup(item_ids(expression.items@), x))
                &&& texts(final(result).warnings@) == texts(old(result).warnings@) + w_dups(dups)
            },
{
    let all_concept_ids = collect_item_ids(expression);
    let dups = duplicate_ids(&all_concept_ids);
    if dups.len() > 0 {
        let listing = join_ids(&dups);
        let message = "Duplicate concept IDs found in expression: ".to_owned().concat(
            listing.as_str(),
        );
        let ghost before = result.warnings@;
        result.add_warning(message);
        proof {
            lemma_texts_push(before, message);
            assert(texts(result.warnings@) =~= texts(before) + w_dups(dups@));
        }
    } else {
        proof {
            assert(w_dups(dups@) =~= Seq::<Seq<char>>::empty());
            assert(texts(result.warnings@) =~= texts(result.warnings@) + w_dups(dups@));
        }
    }
}

/// A result that records exactly one error and nothing else.
pub open spec fn empty_error_post(r: ValidationResult, msg: Seq<char>) -> bool {
    &&& texts(r.errors@) == seq![msg]
    &&& !r.valid
    &&& r.warnings@.len() == 0
    &&& r.concept_summary is None
    &&& r.recommendations is None
}

/// The warning recorded when the expression includes nothing.
pub open spec fn w_no_include(items: Seq<ConceptSetItem>) -> Seq<Seq<char>> {
    if spec_gather(items).0.len() == 0 && spec_gather(items).1.len() == 0 {
        seq!["No concepts are included in this concept set"@]
    } else {
        Seq::<Seq<char>>::empty()
    }
}

/// The warning recorded when one batched expansion failed.
pub open spec fn w_batch(o: BatchOutcome, prefix: Seq<char>) -> Seq<Seq<char>> {
    match o {
        BatchOutcome::Failed(e) => seq![prefix + e@],
        _ => Seq::<Seq<char>>::empty(),
    }
}

/// The warning recorded when the recommendation stage failed.
pub open spec fn w_rec(have_index: bool, rec: RecommendOutcome) -> Seq<Seq<char>> {
    if have_index {
        match rec {
            RecommendOutcome::Errored(e) => seq!["Could not generate recommendations: "@ + e@],
            _ => Seq::<Seq<char>>::empty(),
        }
    } else {
        Seq::<Seq<char>>::empty()
    }
}

/// The exact warning sequence of a completed analysis, in recording order:
/// nothing included, duplicates, descendant failure, mapped failure,
/// recommendation failure.
pub open spec fn warnings_post(
    items: Seq<ConceptSetItem>,
    d: BatchOutcome,
    m: BatchOutcome,
    have_index: bool,
    rec: RecommendOutcome,
    r: ValidationResult,
) -> bool {
    exists|dups: Seq<i32>|
        {
            &&& strictly_sorted(dups)
            &&& (forall|x: i32| dups.contains(x) <==> has_dup(item_ids(items), x))
            &&& texts(r.warnings@) == w_no_include(items) + w_dups(dups) + w_batch(
                d,
                "Could not get descendants for concepts: "@,
            ) + w_batch(m, "Could not get mapped concepts for concepts: "@) + w_rec(
                have_index,
                rec,
            )
        }
}

/// What the recommendations field holds: nothing unless both handles were
/// available and the stage completed, and then an answer that satisfies the
/// recommendation contract.
pub open spec fn recommendations_post(
    items: Seq<ConceptSetItem>,
    have_index: bool,
    entries: Seq<IndexEntry>,
    rec: RecommendOutcome,
    r: ValidationResult,
) -> bool {
    if have_index {
        match rec {
            RecommendOutcome::Completed { descendants, mapped, hits } => match r
                .recommendations {
                Some(cr) => recommendations_rel(items, entries, descendants, mapped, hits@, cr),
                None => false,
            },
            _ => r.recommendations is None,
        }
    } else {
        r.recommendations is None
    }
}

/// Everything one analysis run promises, by case: blank input, unparseable
/// input, an empty expression, or a completed analysis with its summary,
/// warnings and recommendations.
pub open spec fn analyze_post(
    raw: Seq<char>,
    parse: Result<ConceptSetExpression, String>,
    d: BatchOutcome,
    m: BatchOutcome,
    have_index: bool,
    entries: Seq<IndexEntry>,
    rec: RecommendOutcome,
    r: ValidationResult,
) -> bool {
    &&& (r.valid <==> r.errors@.len() == 0)
    &&& if spec_trim(raw).len() == 0 {
        empty_error_post(r, "Concept set cannot be empty"@)
    } else {
        match parse {
            Err(e) => empty_error_post(r, "Invalid concept set format: "@ + e@),
            Ok(expression) => {
                if expression.items@.len() == 0 {
                    empty_error_post(r, "Concept set expression contains no items"@)
                } else {
                    &&& r.valid
                    &&& r.errors@.len() == 0
                    &&& match r.concept_summary {
                        Some(s) => analysis_rel(expression.items@, d, m, s),
                        None => false,
                    }
                    &&& warnings_post(expression.items@, d, m, have_index, rec, r)
                    &&& recommendations_post(expression.items@, have_index, entries, rec, r)
                }
            },
        }
    }
}

/// Analyze one submitted concept set. The caller parses the raw text into an
/// expression (or a failure message), performs the two batched hierarchy
/// expansions the expression asks for, and runs the recommend query; their
/// outcomes are handed in as plain values, and every decision about them is
/// made here. Every path returns a result object; errors make it invalid,
/// warnings never do.
pub fn analyze_concept_set(
    concept_set: &str,
    parse: &Result<ConceptSetExpression, String>,
    descendants: &BatchOutcome,
    mapped: &BatchOutcome,
    concept_index: Option<&ExactMatchIndex>,
    recommendation: &RecommendOutcome,
) -> (r: ValidationResult)
    ensures
        analyze_post(
            concept_set@,
            *parse,
            *descendants,
            *mapped,
            concept_index is Some,
            match concept_index {
                Some(ix) => ix.entries@,
                None => Seq::<IndexEntry>::empty(),
            },
            *recommendation,
            r,
        ),
{
    let mut result = ValidationResult::new();

    if is_blank_text(concept_set) {
        let ghost before = result.errors@;
        result.add_error("Concept set cannot be empty".to_owned());
        proof {
            lemma_texts_push(before, result.errors@.last());
            assert(texts(result.errors@) =~= seq!["Concept set cannot be empty"@]);
        }
        return result;
    }

    let expression = match parse {
        Ok(expression) => expression,
        Err(e) => {
            let message = "Invalid concept set format: ".to_owned().concat(e.as_str());
            let ghost before = result.errors@;
            result.add_error(message);
            proof {
                lemma_texts_push(before, result.errors@.last());
                assert(texts(result.errors@) =~= seq!["Invalid concept set format: "@ + e@]);
            }
            return result;
        },
    };

    if expression.items.len() == 0 {
        let ghost before = result.errors@;
        result.add_error("Concept set expression contains no items".to_owned());
        proof {
            lemma_texts_push(before, result.errors@.last());
            assert(texts(result.errors@) =~= seq!["Concept set expression contains no items"@]);
        }
        return result;
    }

    let mut concept_summary = gather_concepts_from_expression(expression);

    if concept_summary.included_concepts.len() == 0 && concept_summary.included_descendants.len()
        == 0 && concept_summary.included_mapped.len() == 0 {
        let ghost before = result.warnings@;
        result.add_warning("No concepts are included in this concept set".to_owned());
        proof {
            lemma_texts_push(before, result.warnings@.last());
            assert(texts(result.warnings@) =~= w_no_include(expression.items@));
        }
    } else {
        proof {
            assert(texts(result.warnings@) =~= w_no_include(expression.items@));
        }
    }

    check_for_duplicates(&mut result, expression);
    let ghost dups = choose|dups: Seq<i32>|
        {
            &&& strictly_sorted(dups)
            &&& (forall|x: i32| dups.contains(x) <==> has_dup(item_ids(expression.items@), x))
            &&& texts(result.warnings@) == w_no_include(expression.items@) + w_dups(dups)
        };

    let ghost items = expression.items@;
    match descendants {
        BatchOutcome::Fetched(groups) => {
            apply_descendant_expansion(&mut concept_summary, expression, groups);
            proof {
                assert(texts(result.warnings@) =~= w_no_include(expression.items@) + w_dups(dups)
                    + w_batch(*descendants, "Could not get descendants for concepts: "@));
                assert(concept_summary.included_descendants@ =~= crate::analysis::expansion_of(
                    items,
                    *descendants,
                    false,
                    false,
                ));
                assert(concept_summary.excluded_descendants@ =~= crate::analysis::expansion_of(
                    items,
                    *descendants,
                    true,
                    false,
                ));
            }
        },
        BatchOutcome::Failed(e) => {
            let message = "Could not get descendants for concepts: ".to_owned().concat(e.as_str());
            let ghost before = result.warnings@;
            result.add_warning(message);
            proof {
                lemma_texts_push(before, result.warnings@.last());
                assert(texts(result.warnings@) =~= w_no_include(expression.items@) + w_dups(dups)
                    + w_batch(*descendants, "Could not get descendants for concepts: "@));
                assert(concept_summary.included_descendants@ =~= crate::analysis::expansion_of(
                    items,
                    *descendants,
                    false,
                    false,
                ));
                assert(concept_summary.excluded_descendants@ =~= crate::analysis::expansion_of(
                    items,
                    *descendants,
                    true,
                    false,
                ));
            }
        },
        BatchOutcome::Skipped => {
            proof {
                assert(texts(result.warnings@) =~= w_no_include(expression.items@) + w_dups(dups)
                    + w_batch(*descendants, "Could not get descendants for concepts: "@));
                assert(concept_summary.included_descendants@ =~= crate::analysis::expansion_of(
                    items,
                    *descendants,
                    false,
                    false,
                ));
                assert(concept_summary.excluded_descendants@ =~= crate::analysis::expansion_of(
                    items,
                    *descendants,
                    true,
                    false,
                ));
            }
        },
    }
    let ghost w_after_desc = w_no_include(expression.items@) + w_dups(dups) + w_batch(
        *descendants,
        "Could not get descendants for concepts: "@,
    );

    match mapped {
        BatchOutcome::Fetched(groups) => {
            apply_mapped_expansion(&mut concept_summary, expression, groups);
            proof {
                assert(texts(result.warnings@) =~= w_after_desc + w_batch(
                    *mapped,
                    "Could not get mapped concepts for concepts: "@,
                ));
                assert(concept_summary.included_mapped@ == spec_gather(items).1
                    + crate::analysis::expansion_of(items, *mapped, false, true));
                assert(concept_summary.excluded_mapped@ == spec_gather(items).3
                    + crate::analysis::expansion_of(items, *mapped, true, true));
            }
        },
        BatchOutcome::Failed(e) => {
            let message = "Could not get mapped concepts for concepts: ".to_owned().concat(
                e.as_str(),
            );
            let ghost before = result.warnings@;
            result.add_warning(message);
            proof {
                lemma_texts_push(before, result.warnings@.last());
                assert(texts(result.warnings@) =~= w_after_desc + w_batch(
                    *mapped,
                    "Could not get mapped concepts for concepts: "@,
                ));
                assert(concept_summary.included_mapped@ =~= spec_gather(items).1
                    + crate::analysis::expansion_of(items, *mapped, false, true));
                assert(concept_summary.excluded_mapped@ =~= spec_gather(items).3
                    + crate::analysis::expansion_of(items, *mapped, true, true));
            }
        },
        BatchOutcome::Skipped => {
            proof {
                assert(texts(result.warnings@) =~= w_after_desc + w_batch(
                    *mapped,
                    "Could not get mapped concepts for concepts: "@,
                ));
                assert(concept_summary.included_mapped@ =~= spec_gather(items).1
                    + crate::analysis::expansion_of(items, *mapped, false, true));
                assert(concept_summary.excluded_mapped@ =~= spec_gather(items).3
                    + crate::analysis::expansion_of(items, *mapped, true, true));
            }
        },
    }
    let ghost w_after_mapped = w_after_desc + w_batch(
        *mapped,
        "Could not get mapped concepts for concepts: "@,
    );

    let ghost pre_normal = concept_summary;
    normalize_concept_summary(&mut concept_summary);
    proof {
        assert forall|x: i32|
            concept_summary.included_descendants@.contains(x)
                <==> pre_normal.included_descendants@.contains(x)
                && !crate::analysis::excluded_union_has(pre_normal, x) by {}
        assert forall|x: i32|
            concept_summary.included_mapped@.contains(x)
                <==> pre_normal.included_mapped@.contains(x)
                && !crate::analysis::excluded_union_has(pre_normal, x) by {}
        crate::analysis::lemma_analysis_rel_intro(
            items,
            *descendants,
            *mapped,
            pre_normal,
            concept_summary,
        );
    }
    result.concept_summary = Some(concept_summary);

    match concept_index {
        Some(ix) => {
            match recommendation {
                RecommendOutcome::Completed { descendants: rec_desc, mapped: rec_mapped, hits } => {
                    let recs = get_concept_recommendations(
                        expression,
                        ix,
                        rec_desc,
                        rec_mapped,
                        hits,
                        50,
                    );
                    result.recommendations = Some(recs);
                    proof {
                        assert(texts(result.warnings@) =~= w_after_mapped + w_rec(
                            true,
                            *recommendation,
                        ));
                    }
                },
                RecommendOutcome::Errored(e) => {
                    let message = "Could not generate recommendations: ".to_owned().concat(
                        e.as_str(),
                    );
                    let ghost before = result.warnings@;
                    result.add_warning(message);
                    proof {
                        lemma_texts_push(before, result.warnings@.last());
                        assert(texts(result.warnings@) =~= w_after_mapped + w_rec(
                            true,
                            *recommendation,
                        ));
                    }
                },
                RecommendOutcome::Unavailable => {
                    proof {
                        assert(texts(result.warnings@) =~= w_after_mapped + w_rec(
                            true,
                            *recommendation,
                        ));
                    }
                },
            }
        },
        None => {
            proof {
                assert(texts(result.warnings@) =~= w_after_mapped + w_rec(
                    false,
                    *recommendation,
                ));
            }
        },
    }

    result
}

} // verus!
