use concept_search::{
    collect_negative_point_ids, collect_positive_point_ids, get_all_concepts_in_set,
    get_concept_recommendations, limit_point_ids, BatchOutcome, Concept, ConceptSetExpression,
    ConceptSetItem, ExactMatchIndex, IdGroup, ScoredHit,
};

fn concept(id: i32, name: &str, vocabulary: &str, domain: &str) -> Concept {
    Concept {
        concept_id: id,
        concept_name: name.to_string(),
        vocabulary_id: vocabulary.to_string(),
        domain_id: domain.to_string(),
        concept_class_id: "Clinical Finding".to_string(),
        standard_concept: Some("S".to_string()),
        standard_concept_caption: None,
        invalid_reason: None,
        invalid_reason_caption: None,
        concept_code: Some("C9".to_string()),
    }
}

fn item(id: i32, name: &str, excluded: bool, descendants: bool, mapped: bool) -> ConceptSetItem {
    ConceptSetItem {
        concept: concept(id, name, "SNOMED", "Condition"),
        is_excluded: excluded,
        include_descendants: descendants,
        include_mapped: mapped,
    }
}

#[test]
fn existing_concepts_cover_direct_and_expanded_identifiers() {
    let expression = ConceptSetExpression {
        items: vec![item(1, "Asthma", false, true, false), item(2, "Cough", true, false, true)],
    };
    let descendants = BatchOutcome::Fetched(vec![IdGroup { key: 1, ids: vec![10, 11] }]);
    let mapped = BatchOutcome::Fetched(vec![IdGroup { key: 2, ids: vec![20] }]);
    let existing = get_all_concepts_in_set(&expression, &descendants, &mapped);
    assert_eq!(existing, vec![1, 2, 10, 11, 20]);
}

#[test]
fn point_collection_uses_the_first_cached_identifier_per_concept() {
    let mut index = ExactMatchIndex::new();
    // The item names are mixed case; the index is keyed by lowercased names,
    // so real case folding is what finds them.
    index.add_entry("asthma".to_string(), vec!["a1".to_string(), "a2".to_string()]);
    index.add_entry("cough".to_string(), vec!["c1".to_string()]);
    let expression = ConceptSetExpression {
        items: vec![
            item(1, "Asthma", false, false, false),
            item(2, "Cough", true, false, false),
            item(3, "Fever", false, false, false),
        ],
    };
    let positives = collect_positive_point_ids(&expression, &index);
    assert_eq!(positives, vec!["a1".to_string()]);
    let negatives = collect_negative_point_ids(&expression, &index);
    assert_eq!(negatives, vec!["c1".to_string()]);
}

#[test]
fn limit_point_ids_caps_the_example_list() {
    let ids: Vec<String> = (0..60).map(|i| format!("p{}", i)).collect();
    let limited = limit_point_ids(ids, 50);
    assert_eq!(limited.len(), 50);
    assert_eq!(limited[0], "p0");
    assert_eq!(limited[49], "p49");
    let short = limit_point_ids(vec!["x".to_string()], 50);
    assert_eq!(short, vec!["x".to_string()]);
}

#[test]
fn no_cached_positive_example_yields_an_empty_answer() {
    let index = ExactMatchIndex::new();
    let expression = ConceptSetExpression { items: vec![item(1, "Asthma", false, false, false)] };
    let hits = vec![ScoredHit { score: 99, concepts: vec![concept(50, "Hay fever", "SNOMED", "Condition")] }];
    let recs = get_concept_recommendations(
        &expression,
        &index,
        &BatchOutcome::Skipped,
        &BatchOutcome::Skipped,
        &hits,
        50,
    );
    assert_eq!(recs.total_count, 0);
    assert!(recs.recommendations.is_empty());
    assert!(recs.used_vocabularies.is_empty());
}

#[test]
fn recommendations_filter_rank_and_attribute_to_the_first_included_item() {
    let mut index = ExactMatchIndex::new();
    index.add_entry("asthma".to_string(), vec!["a1".to_string()]);
    let expression = ConceptSetExpression {
        items: vec![item(1, "Asthma", false, true, false)],
    };
    let descendants = BatchOutcome::Fetched(vec![IdGroup { key: 1, ids: vec![10] }]);
    let hits = vec![
        ScoredHit {
            score: 60,
            concepts: vec![
                concept(10, "Child asthma", "SNOMED", "Condition"),  // already in the set
                concept(70, "Hay fever", "SNOMED", "Condition"),
            ],
        },
        ScoredHit {
            score: 80,
            concepts: vec![
                concept(71, "Wheeze", "MedDRA", "Condition"),
                concept(72, "Aspirin", "RxNorm", "Drug"),  // domain not referenced
            ],
        },
    ];
    let recs = get_concept_recommendations(
        &expression,
        &index,
        &descendants,
        &BatchOutcome::Skipped,
        &hits,
        50,
    );
    assert_eq!(recs.total_count, 2);
    assert_eq!(recs.recommendations.len(), 2);
    // Ranked by score, best first.
    assert_eq!(recs.recommendations[0].concept_id, 71);
    assert_eq!(recs.recommendations[0].similarity_score, 80);
    assert_eq!(recs.recommendations[1].concept_id, 70);
    assert_eq!(recs.recommendations[1].similarity_score, 60);
    // Attribution and vocabularies of the input expression.
    for rec in &recs.recommendations {
        assert_eq!(rec.source_concept_id, 1);
    }
    assert_eq!(recs.used_vocabularies, vec!["SNOMED".to_string()]);
    // Field carry-over, with absent options rendered empty elsewhere.
    assert_eq!(recs.recommendations[0].concept_name, "Wheeze");
    assert_eq!(recs.recommendations[0].standard_concept, "S");
    assert_eq!(recs.recommendations[0].concept_code, "C9");
}

#[test]
fn input_vocabularies_are_reported_once_each() {
    let mut index = ExactMatchIndex::new();
    index.add_entry("a".to_string(), vec!["p".to_string()]);
    let expression = ConceptSetExpression {
        items: vec![
            ConceptSetItem {
                concept: concept(1, "A", "SNOMED", "Condition"),
                is_excluded: false,
                include_descendants: false,
                include_mapped: false,
            },
            ConceptSetItem {
                concept: concept(2, "B", "MedDRA", "Condition"),
                is_excluded: false,
                include_descendants: false,
                include_mapped: false,
            },
            ConceptSetItem {
                concept: concept(3, "C", "SNOMED", "Condition"),
                is_excluded: false,
                include_descendants: false,
                include_mapped: false,
            },
        ],
    };
    let recs = get_concept_recommendations(
        &expression,
        &index,
        &BatchOutcome::Skipped,
        &BatchOutcome::Skipped,
        &Vec::new(),
        50,
    );
    let mut vocabularies = recs.used_vocabularies.clone();
    vocabularies.sort();
    assert_eq!(vocabularies, vec!["MedDRA".to_string(), "SNOMED".to_string()]);
}
