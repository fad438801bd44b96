use concept_search::{
    analyze_concept_set, sort_and_dedup_vec, BatchOutcome, Concept, ConceptGatheringResult,
    ConceptSetExpression, ConceptSetItem, ExactMatchIndex, IdGroup, RecommendOutcome,
    ValidationResult,
};

fn concept(id: i32, name: &str, vocabulary: &str, domain: &str) -> Concept {
    Concept {
        concept_id: id,
        concept_name: name.to_string(),
        vocabulary_id: vocabulary.to_string(),
        domain_id: domain.to_string(),
        concept_class_id: "Clinical Finding".to_string(),
        standard_concept: Some("S".to_string()),
        standard_concept_caption: Some("Standard".to_string()),
        invalid_reason: None,
        invalid_reason_caption: None,
        concept_code: Some("C0".to_string()),
    }
}

fn item(id: i32, name: &str, excluded: bool, descendants: bool, mapped: bool) -> ConceptSetItem {
    ConceptSetItem {
        concept: concept(id, name, "SNOMED", "Condition"),
        is_excluded: excluded,
        include_descendants: descendants,
        include_mapped: mapped,
    }
}

fn analyze_plain(
    raw: &str,
    parse: Result<ConceptSetExpression, String>,
    descendants: BatchOutcome,
    mapped: BatchOutcome,
) -> ValidationResult {
    analyze_concept_set(
        raw,
        &parse,
        &descendants,
        &mapped,
        None,
        &RecommendOutcome::Unavailable,
    )
}

#[test]
fn empty_raw_text_is_rejected() {
    let parse = Err("Unable to parse concept set".to_string());
    let result = analyze_plain("", parse, BatchOutcome::Skipped, BatchOutcome::Skipped);
    assert!(!result.valid);
    assert_eq!(result.errors, vec!["Concept set cannot be empty".to_string()]);
    assert!(result.warnings.is_empty());
    assert!(result.concept_summary.is_none());
    assert!(result.recommendations.is_none());
}

#[test]
fn whitespace_only_raw_text_is_rejected() {
    let parse = Err("Unable to parse concept set".to_string());
    let result = analyze_plain("  \t\n ", parse, BatchOutcome::Skipped, BatchOutcome::Skipped);
    assert!(!result.valid);
    assert_eq!(result.errors, vec!["Concept set cannot be empty".to_string()]);
}

#[test]
fn unparseable_text_reports_the_format_error() {
    let parse = Err("Unable to parse concept set".to_string());
    let result = analyze_plain("{ nonsense", parse, BatchOutcome::Skipped, BatchOutcome::Skipped);
    assert!(!result.valid);
    assert_eq!(
        result.errors,
        vec!["Invalid concept set format: Unable to parse concept set".to_string()]
    );
    assert!(result.concept_summary.is_none());
}

#[test]
fn empty_expression_is_rejected() {
    let parse = Ok(ConceptSetExpression { items: Vec::new() });
    let result = analyze_plain("{}", parse, BatchOutcome::Skipped, BatchOutcome::Skipped);
    assert!(!result.valid);
    assert_eq!(
        result.errors,
        vec!["Concept set expression contains no items".to_string()]
    );
}

#[test]
fn descendants_route_by_excluded_flag_and_exclusion_dominates() {
    // One included item whose descendants are [10, 20]; concept 10 is also
    // excluded directly, so only 20 survives as an included descendant.
    let expression = ConceptSetExpression {
        items: vec![item(1, "Asthma", false, true, false), item(10, "Wheeze", true, false, false)],
    };
    let descendants = BatchOutcome::Fetched(vec![IdGroup { key: 1, ids: vec![10, 20] }]);
    let result = analyze_plain("{...}", Ok(expression), descendants, BatchOutcome::Skipped);
    assert!(result.valid);
    assert!(result.errors.is_empty());
    let summary = result.concept_summary.expect("summary expected");
    assert_eq!(summary.included_concepts, vec![1]);
    assert_eq!(summary.included_descendants, vec![20]);
    assert_eq!(summary.excluded_concepts, vec![10]);
    assert!(summary.excluded_descendants.is_empty());
}

#[test]
fn duplicate_concept_ids_warn_but_stay_valid() {
    let expression = ConceptSetExpression {
        items: vec![item(5, "Asthma", false, false, false), item(5, "Asthma", false, false, false)],
    };
    let result = analyze_plain(
        "{...}",
        Ok(expression),
        BatchOutcome::Skipped,
        BatchOutcome::Skipped,
    );
    assert!(result.valid);
    assert_eq!(
        result.warnings,
        vec!["Duplicate concept IDs found in expression: 5".to_string()]
    );
}

#[test]
fn several_duplicates_are_listed_sorted_and_once() {
    let expression = ConceptSetExpression {
        items: vec![
            item(9, "C", false, false, false),
            item(2, "A", false, false, false),
            item(9, "C", false, false, false),
            item(2, "A", false, false, false),
            item(2, "A", false, false, false),
        ],
    };
    let result = analyze_plain(
        "{...}",
        Ok(expression),
        BatchOutcome::Skipped,
        BatchOutcome::Skipped,
    );
    assert!(result.valid);
    assert_eq!(
        result.warnings,
        vec!["Duplicate concept IDs found in expression: 2, 9".to_string()]
    );
}

#[test]
fn all_excluded_expression_warns_about_missing_inclusions() {
    let expression = ConceptSetExpression { items: vec![item(7, "Asthma", true, false, false)] };
    let result = analyze_plain(
        "{...}",
        Ok(expression),
        BatchOutcome::Skipped,
        BatchOutcome::Skipped,
    );
    assert!(result.valid);
    assert_eq!(
        result.warnings,
        vec!["No concepts are included in this concept set".to_string()]
    );
}

#[test]
fn failed_expansions_downgrade_to_warnings() {
    let expression = ConceptSetExpression { items: vec![item(1, "Asthma", false, true, true)] };
    let result = analyze_plain(
        "{...}",
        Ok(expression),
        BatchOutcome::Failed("connection reset".to_string()),
        BatchOutcome::Failed("connection reset".to_string()),
    );
    assert!(result.valid);
    assert_eq!(
        result.warnings,
        vec![
            "Could not get descendants for concepts: connection reset".to_string(),
            "Could not get mapped concepts for concepts: connection reset".to_string(),
        ]
    );
    let summary = result.concept_summary.expect("summary expected");
    assert_eq!(summary.included_concepts, vec![1]);
    assert!(summary.included_descendants.is_empty());
    // The mapped seed survives even when the expansion failed.
    assert_eq!(summary.included_mapped, vec![1]);
}

#[test]
fn mapped_expansion_merges_with_seeds_sorted_and_unique() {
    let expression = ConceptSetExpression { items: vec![item(4, "Asthma", false, false, true)] };
    let mapped = BatchOutcome::Fetched(vec![IdGroup { key: 4, ids: vec![30, 2, 30] }]);
    let result = analyze_plain("{...}", Ok(expression), BatchOutcome::Skipped, mapped);
    let summary = result.concept_summary.expect("summary expected");
    assert_eq!(summary.included_mapped, vec![2, 4, 30]);
}

#[test]
fn derived_lists_are_sorted_and_duplicate_free() {
    let expression = ConceptSetExpression {
        items: vec![
            item(1, "A", false, true, false),
            item(2, "B", false, true, false),
            item(3, "C", true, true, false),
        ],
    };
    let descendants = BatchOutcome::Fetched(vec![
        IdGroup { key: 2, ids: vec![50, 40, 50, 7] },
        IdGroup { key: 1, ids: vec![40, 8] },
        IdGroup { key: 3, ids: vec![99, 98] },
    ]);
    let result = analyze_plain("{...}", Ok(expression), descendants, BatchOutcome::Skipped);
    let summary = result.concept_summary.expect("summary expected");
    assert_eq!(summary.included_descendants, vec![7, 8, 40, 50]);
    assert_eq!(summary.excluded_descendants, vec![98, 99]);
}

#[test]
fn exclusion_dominance_holds_across_every_path() {
    let expression = ConceptSetExpression {
        items: vec![
            item(1, "A", false, true, true),
            item(2, "B", true, true, true),
        ],
    };
    let descendants = BatchOutcome::Fetched(vec![
        IdGroup { key: 1, ids: vec![10, 11, 20] },
        IdGroup { key: 2, ids: vec![11, 30] },
    ]);
    let mapped = BatchOutcome::Fetched(vec![
        IdGroup { key: 1, ids: vec![20, 40] },
        IdGroup { key: 2, ids: vec![40, 1] },
    ]);
    let result = analyze_plain("{...}", Ok(expression), descendants, mapped);
    let summary = result.concept_summary.expect("summary expected");
    let mut all_excluded: Vec<i32> = Vec::new();
    all_excluded.extend(&summary.excluded_concepts);
    all_excluded.extend(&summary.excluded_descendants);
    all_excluded.extend(&summary.excluded_mapped);
    for id in &all_excluded {
        assert!(!summary.included_concepts.contains(id));
        assert!(!summary.included_descendants.contains(id));
        assert!(!summary.included_mapped.contains(id));
    }
    // Concept 1 is excluded via item 2's mapped expansion, so it leaves the
    // included direct list too.
    assert!(all_excluded.contains(&1));
    assert!(summary.included_concepts.is_empty());
}

#[test]
fn analysis_is_idempotent_on_a_normalized_expression() {
    let expression = ConceptSetExpression {
        items: vec![item(1, "A", false, true, false), item(9, "B", true, false, false)],
    };
    let descendants = BatchOutcome::Fetched(vec![IdGroup { key: 1, ids: vec![3, 4] }]);
    let run = || {
        let expr = ConceptSetExpression {
            items: vec![item(1, "A", false, true, false), item(9, "B", true, false, false)],
        };
        let desc = BatchOutcome::Fetched(vec![IdGroup { key: 1, ids: vec![3, 4] }]);
        analyze_plain("{...}", Ok(expr), desc, BatchOutcome::Skipped)
    };
    let first = analyze_plain("{...}", Ok(expression), descendants, BatchOutcome::Skipped);
    let second = run();
    let a = first.concept_summary.expect("summary expected");
    let b = second.concept_summary.expect("summary expected");
    assert_eq!(a.included_concepts, b.included_concepts);
    assert_eq!(a.included_descendants, b.included_descendants);
    assert_eq!(a.included_mapped, b.included_mapped);
    assert_eq!(a.excluded_concepts, b.excluded_concepts);
    assert_eq!(a.excluded_descendants, b.excluded_descendants);
    assert_eq!(a.excluded_mapped, b.excluded_mapped);
}

#[test]
fn gathering_result_new_is_empty() {
    let summary = ConceptGatheringResult::new();
    assert!(summary.included_concepts.is_empty());
    assert!(summary.included_descendants.is_empty());
    assert!(summary.included_mapped.is_empty());
    assert!(summary.excluded_concepts.is_empty());
    assert!(summary.excluded_descendants.is_empty());
    assert!(summary.excluded_mapped.is_empty());
}

#[test]
fn sort_and_dedup_sorts_and_removes_duplicates() {
    let mut values = vec![5, 3, 5, 1, 3, 3, 9];
    sort_and_dedup_vec(&mut values);
    assert_eq!(values, vec![1, 3, 5, 9]);
}

#[test]
fn sort_and_dedup_on_empty_vector_stays_empty() {
    let mut values: Vec<i32> = Vec::new();
    sort_and_dedup_vec(&mut values);
    assert!(values.is_empty());
}

#[test]
fn validation_result_tracks_validity() {
    let mut result = ValidationResult::new();
    assert!(result.valid);
    result.add_warning("just a note".to_string());
    assert!(result.valid);
    result.add_error("broken".to_string());
    assert!(!result.valid);
    assert_eq!(result.errors, vec!["broken".to_string()]);
    assert_eq!(result.warnings, vec!["just a note".to_string()]);
}

#[test]
fn recommendation_failure_becomes_a_warning() {
    let expression = ConceptSetExpression { items: vec![item(1, "Asthma", false, false, false)] };
    let index = ExactMatchIndex::new();
    let result = analyze_concept_set(
        "{...}",
        &Ok(expression),
        &BatchOutcome::Skipped,
        &BatchOutcome::Skipped,
        Some(&index),
        &RecommendOutcome::Errored("pool exhausted".to_string()),
    );
    assert!(result.valid);
    assert_eq!(
        result.warnings,
        vec!["Could not generate recommendations: pool exhausted".to_string()]
    );
    assert!(result.recommendations.is_none());
}
