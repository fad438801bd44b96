use concept_search::{
    after_relational, expansion_results, fallback_results, fallback_search_limit, filter_concepts,
    parse_i32, resolve_candidate_names, split_filter_values, start_search, trim_text, Concept,
    ExactMatchIndex, LookupKey, NameResolution, RelationalStep, ResultGroup, SearchFilters,
    SearchStep,
};

fn concept(id: i32, name: &str, vocabulary: &str, domain: &str, standard: Option<&str>) -> Concept {
    Concept {
        concept_id: id,
        concept_name: name.to_string(),
        vocabulary_id: vocabulary.to_string(),
        domain_id: domain.to_string(),
        concept_class_id: "Clinical Finding".to_string(),
        standard_concept: standard.map(|s| s.to_string()),
        standard_concept_caption: None,
        invalid_reason: None,
        invalid_reason_caption: None,
        concept_code: None,
    }
}

fn group(name: &str, lower: &str, score: u64, concepts: Vec<Concept>) -> ResultGroup {
    ResultGroup {
        concept_name: name.to_string(),
        concept_name_lower: lower.to_string(),
        score,
        concepts,
    }
}

fn no_filters() -> SearchFilters {
    SearchFilters {
        vocabulary_id: None,
        standard_concept: None,
        domain_id: None,
        concept_class_id: None,
    }
}

#[test]
fn fallback_limit_is_three_times_capped_at_150() {
    assert_eq!(fallback_search_limit(100), 150);
    assert_eq!(fallback_search_limit(50), 150);
    assert_eq!(fallback_search_limit(49), 147);
    assert_eq!(fallback_search_limit(10), 30);
    assert_eq!(fallback_search_limit(0), 0);
}

#[test]
fn trim_removes_leading_and_trailing_whitespace() {
    assert_eq!(trim_text("  asthma \t"), "asthma");
    assert_eq!(trim_text("asthma"), "asthma");
    assert_eq!(trim_text("   "), "");
    assert_eq!(trim_text(""), "");
}

#[test]
fn parse_i32_accepts_signed_decimals() {
    assert_eq!(parse_i32("25702"), Some(25702));
    assert_eq!(parse_i32("-17"), Some(-17));
    assert_eq!(parse_i32("+17"), Some(17));
    assert_eq!(parse_i32("2147483647"), Some(2147483647));
    assert_eq!(parse_i32("-2147483648"), Some(-2147483648));
}

#[test]
fn parse_i32_rejects_garbage_and_overflow() {
    assert_eq!(parse_i32(""), None);
    assert_eq!(parse_i32("xyzabc"), None);
    assert_eq!(parse_i32("12a"), None);
    assert_eq!(parse_i32("-"), None);
    assert_eq!(parse_i32("2147483648"), None);
    assert_eq!(parse_i32("-2147483649"), None);
    assert_eq!(parse_i32("99999999999999999999"), None);
}

#[test]
fn standard_concept_empty_filter_keeps_only_absent_values() {
    let filters = SearchFilters {
        vocabulary_id: None,
        standard_concept: Some("".to_string()),
        domain_id: None,
        concept_class_id: None,
    };
    let concepts = vec![
        concept(1, "A", "SNOMED", "Condition", None),
        concept(2, "B", "SNOMED", "Condition", Some("S")),
    ];
    let kept = filter_concepts(concepts, &filters);
    assert_eq!(kept.len(), 1);
    assert_eq!(kept[0].concept_id, 1);
}

#[test]
fn vocabulary_filter_is_case_insensitive() {
    let filters = SearchFilters {
        vocabulary_id: Some(vec!["snomed".to_string()]),
        standard_concept: None,
        domain_id: None,
        concept_class_id: None,
    };
    let concepts = vec![
        concept(1, "A", "SNOMED", "Condition", None),
        concept(2, "B", "RxNorm", "Drug", None),
    ];
    let kept = filter_concepts(concepts, &filters);
    assert_eq!(kept.len(), 1);
    assert_eq!(kept[0].concept_id, 1);
}

#[test]
fn standard_concept_filter_matches_exactly() {
    let filters = SearchFilters {
        vocabulary_id: None,
        standard_concept: Some("S".to_string()),
        domain_id: None,
        concept_class_id: None,
    };
    let concepts = vec![
        concept(1, "A", "SNOMED", "Condition", Some("S")),
        concept(2, "B", "SNOMED", "Condition", Some("C")),
        concept(3, "C", "SNOMED", "Condition", None),
    ];
    let kept = filter_concepts(concepts, &filters);
    assert_eq!(kept.len(), 1);
    assert_eq!(kept[0].concept_id, 1);
}

#[test]
fn groups_with_same_lowercased_name_merge_once() {
    let groups = vec![
        group("Asthma", "asthma", 90, vec![concept(1, "Asthma", "SNOMED", "Condition", None)]),
        group("ASTHMA", "asthma", 80, vec![concept(2, "ASTHMA", "MedDRA", "Condition", None)]),
        group("Cough", "cough", 85, vec![concept(3, "Cough", "SNOMED", "Condition", None)]),
    ];
    let result = fallback_results(groups, &no_filters(), 100);
    assert_eq!(result.len(), 2);
    // No two groups share a case-insensitive name, none is empty.
    for i in 0..result.len() {
        assert!(!result[i].concepts.is_empty());
        for j in (i + 1)..result.len() {
            assert_ne!(result[i].concept_name_lower, result[j].concept_name_lower);
        }
    }
    // The merged group keeps the first-seen score and both concepts.
    let asthma = result.iter().find(|g| g.concept_name_lower == "asthma").unwrap();
    assert_eq!(asthma.score, 90);
    assert_eq!(asthma.concepts.len(), 2);
}

#[test]
fn results_are_sorted_descending_and_cut_to_the_limit() {
    let groups = vec![
        group("A", "a", 10, vec![concept(1, "A", "SNOMED", "Condition", None)]),
        group("B", "b", 90, vec![concept(2, "B", "SNOMED", "Condition", None)]),
        group("C", "c", 50, vec![concept(3, "C", "SNOMED", "Condition", None)]),
        group("D", "d", 70, vec![concept(4, "D", "SNOMED", "Condition", None)]),
    ];
    let result = fallback_results(groups, &no_filters(), 3);
    assert_eq!(result.len(), 3);
    for w in result.windows(2) {
        assert!(w[0].score >= w[1].score);
    }
    assert_eq!(result[0].concept_name_lower, "b");
}

#[test]
fn groups_emptied_by_filtering_are_dropped() {
    let filters = SearchFilters {
        vocabulary_id: Some(vec!["SNOMED".to_string()]),
        standard_concept: None,
        domain_id: None,
        concept_class_id: None,
    };
    let groups = vec![
        group("A", "a", 10, vec![concept(1, "A", "RxNorm", "Drug", None)]),
        group("B", "b", 20, vec![concept(2, "B", "SNOMED", "Condition", None)]),
    ];
    let result = fallback_results(groups, &filters, 100);
    assert_eq!(result.len(), 1);
    assert_eq!(result[0].concept_name_lower, "b");
}

#[test]
fn expansion_merges_fetched_before_neighbours() {
    let fetched = vec![
        group("Asthma", "asthma", 100, vec![concept(1, "Asthma", "SNOMED", "Condition", None)]),
    ];
    let neighbors = vec![
        group("asthma", "asthma", 60, vec![concept(2, "asthma", "MedDRA", "Condition", None)]),
        group("Cough", "cough", 70, vec![concept(3, "Cough", "SNOMED", "Condition", None)]),
    ];
    let result = expansion_results(fetched, neighbors, &no_filters(), 100);
    assert_eq!(result.len(), 2);
    let asthma = result.iter().find(|g| g.concept_name_lower == "asthma").unwrap();
    assert_eq!(asthma.score, 100);
    assert_eq!(asthma.concepts.len(), 2);
    assert_eq!(asthma.concept_name, "Asthma");
}

#[test]
fn cache_hit_goes_straight_to_expansion() {
    let mut index = ExactMatchIndex::new();
    index.add_entry("asthma".to_string(), vec!["p1".to_string(), "p2".to_string()]);
    // The query is upper case and padded: it reaches the cache only through
    // trimming and real lowercasing.
    match start_search(&index, "  Asthma ") {
        SearchStep::Expand(points) => {
            assert_eq!(points, vec!["p1".to_string(), "p2".to_string()]);
        },
        SearchStep::Relational(_) => panic!("expected a cache hit"),
    }
}

#[test]
fn numeric_cache_miss_resolves_by_identifier() {
    let mut index = ExactMatchIndex::new();
    index.add_entry("asthma".to_string(), vec!["p1".to_string(), "p2".to_string()]);
    match start_search(&index, "25702") {
        SearchStep::Relational(LookupKey::ById(x)) => assert_eq!(x, 25702),
        _ => panic!("expected a numeric relational lookup"),
    }
    // The relational store answers with the name "Asthma"; its two cached
    // point identifiers drive the expansion.
    let resolutions = resolve_candidate_names(&index, &vec!["Asthma".to_string()]);
    assert_eq!(resolutions.len(), 1);
    match &resolutions[0] {
        NameResolution::Cached(points) => {
            assert_eq!(points, &vec!["p1".to_string(), "p2".to_string()]);
        },
        NameResolution::NeedsScan(_) => panic!("expected cached point identifiers"),
    }
    let fetched = vec![
        group("Asthma", "asthma", 100, vec![concept(1, "Asthma", "SNOMED", "Condition", None)]),
    ];
    let response = expansion_results(fetched, Vec::new(), &no_filters(), 100);
    assert!(response.iter().any(|g| g.concept_name == "Asthma"));
}

#[test]
fn textual_cache_miss_resolves_by_string_and_uncached_names_need_a_scan() {
    let index = ExactMatchIndex::new();
    match start_search(&index, "xyzabc") {
        SearchStep::Relational(LookupKey::ByText(s)) => assert_eq!(s, "xyzabc"),
        _ => panic!("expected a textual relational lookup"),
    }
    let resolutions = resolve_candidate_names(&index, &vec!["Chronic Cough".to_string()]);
    match &resolutions[0] {
        NameResolution::NeedsScan(lower) => assert_eq!(lower, "chronic cough"),
        NameResolution::Cached(_) => panic!("expected a scan request"),
    }
}

#[test]
fn split_filter_values_trims_and_drops_empty_entries() {
    assert_eq!(
        split_filter_values("SNOMED, RxNorm ,,MedDRA "),
        vec!["SNOMED".to_string(), "RxNorm".to_string(), "MedDRA".to_string()]
    );
    assert_eq!(split_filter_values("one"), vec!["one".to_string()]);
    assert!(split_filter_values("").is_empty());
    assert!(split_filter_values(" , , ").is_empty());
    assert_eq!(split_filter_values(",x,"), vec!["x".to_string()]);
}

#[test]
fn no_candidate_names_short_circuit_to_the_semantic_fallback() {
    let index = ExactMatchIndex::new();
    match after_relational(&index, &Vec::new(), 100) {
        RelationalStep::Fallback { search_limit } => assert_eq!(search_limit, 150),
        RelationalStep::Resolve(_) => panic!("expected the semantic fallback"),
    }
    match after_relational(&index, &Vec::new(), 10) {
        RelationalStep::Fallback { search_limit } => assert_eq!(search_limit, 30),
        RelationalStep::Resolve(_) => panic!("expected the semantic fallback"),
    }
}

#[test]
fn candidate_names_are_resolved_instead_of_falling_back() {
    let mut index = ExactMatchIndex::new();
    index.add_entry("asthma".to_string(), vec!["p1".to_string()]);
    match after_relational(&index, &vec!["Asthma".to_string()], 100) {
        RelationalStep::Resolve(resolutions) => {
            assert_eq!(resolutions.len(), 1);
            match &resolutions[0] {
                NameResolution::Cached(points) => assert_eq!(points, &vec!["p1".to_string()]),
                NameResolution::NeedsScan(_) => panic!("expected cached identifiers"),
            }
        },
        RelationalStep::Fallback { .. } => panic!("expected name resolution"),
    }
}

#[test]
fn fetched_identity_wins_over_a_higher_scoring_neighbour() {
    let fetched = vec![
        group("Asthma", "asthma", 50, vec![concept(1, "Asthma", "SNOMED", "Condition", None)]),
    ];
    let neighbors = vec![
        group("ASTHMA", "asthma", 90, vec![concept(2, "ASTHMA", "MedDRA", "Condition", None)]),
    ];
    let result = expansion_results(fetched, neighbors, &no_filters(), 100);
    assert_eq!(result.len(), 1);
    assert_eq!(result[0].concept_name, "Asthma");
    assert_eq!(result[0].score, 50);
    assert_eq!(result[0].concepts.len(), 2);
}

#[test]
fn every_surviving_name_appears_when_the_limit_allows() {
    let groups = vec![
        group("A", "a", 10, vec![concept(1, "A", "SNOMED", "Condition", None)]),
        group("B", "b", 90, vec![concept(2, "B", "SNOMED", "Condition", None)]),
        group("C", "c", 50, vec![concept(3, "C", "SNOMED", "Condition", None)]),
    ];
    let result = fallback_results(groups, &no_filters(), 100);
    assert_eq!(result.len(), 3);
    for name in ["a", "b", "c"] {
        assert!(result.iter().any(|g| g.concept_name_lower == name));
    }
}
