//! Resolution of medical-vocabulary queries into ranked concept results, and
//! validation of concept-set expressions with hierarchy expansion and
//! vector-based recommendations.
//!
//! The library is the decision core: it owns the data model, the cascading
//! search logic (exact-match cache, relational fallback, semantic fallback,
//! expansion), the concept-set analysis (gathering, duplicate detection,
//! batched hierarchy expansion, exclusion dominance) and the recommendation
//! processing. Callers perform the actual relational and vector-index calls
//! and hand the outcomes in as plain values.

mod analysis;
mod concepts;
mod index;
mod recommend;
mod search;
mod seqs;
mod text;
mod validation;

pub use analysis::{
    analysis_kept, analysis_rel, apply_descendant_expansion, apply_mapped_expansion,
    concepts_needing_descendants, concepts_needing_mapped, excluded_union_has,
    expansion_additions, expansion_of, flagged_ids, gather_concepts_from_expression, item_ids,
    kept_by, lemma_analysis_rel_intro, lemma_derived_lists_sorted, lemma_exclusion_dominance,
    lemma_normalize_idempotent, lookup_ids, normalize_concept_summary, normalize_rel, normalized,
    sort_and_dedup_vec, spec_gather, strictly_sorted, BatchOutcome, ConceptGatheringResult,
    IdGroup,
};
pub use concepts::{Concept, ConceptSetExpression, ConceptSetItem, ConceptSetWithMetadata};
pub use index::{spec_index_lookup, ExactMatchIndex, IndexEntry};
pub use recommend::{
    cache_points, collect_negative_point_ids, collect_positive_point_ids, domain_referenced,
    first_included_id, get_all_concepts_in_set, get_concept_recommendations, in_set,
    limit_point_ids, query_and_process_recommendations, rec_from, recommendations_rel,
    represented, sorted_desc_recs, sound_rec, survives, vocabulary_referenced,
    ConceptRecommendations, RecommendOutcome, RecommendedConcept, ScoredHit,
};
pub use search::{
    accumulate_groups, all_pass, concept_matches, expansion_results, fallback_results,
    fallback_search_limit, filter_concepts, from_surviving, group_rooted, group_survives,
    groups_wf, has_name, identity_from, matches_pred, merged_one, nocase_in,
    after_relational, resolutions_ok, resolve_candidate_names, sorted_desc_groups, start_search,
    std_concept_ok, LookupKey, NameResolution, RelationalStep, ResultGroup, SearchFilters,
    SearchStep,
};
pub use text::{
    ascii_eq_nocase, comma_values, dec_chars, digits_val, i32_to_string, is_blank_text,
    is_space_char, join_ids, joined_dec, lower_of, lowercase, parse_i32, spec_i32_dec,
    spec_parse_i32, spec_trim, split_filter_values, text_in, texts, trim_text,
};
pub use validation::{
    analyze_concept_set, analyze_post, check_for_duplicates, duplicate_ids, empty_error_post,
    has_dup, recommendations_post, warnings_post, w_batch, w_dups, w_no_include, w_rec,
    ValidationResult,
};
