//! The vocabulary data model: concepts and concept-set expressions.

use vstd::prelude::*;

verus! {

/// One vocabulary entry: identity record with its classification fields and
/// optional standard/invalid flags. Immutable once fetched.
pub struct Concept {
    pub concept_id: i32,
    pub concept_name: String,
    pub vocabulary_id: String,
    pub domain_id: String,
    pub concept_class_id: String,
    pub standard_concept: Option<String>,
    pub standard_concept_caption: Option<String>,
    pub invalid_reason: Option<String>,
    pub invalid_reason_caption: Option<String>,
    pub concept_code: Option<String>,
}

/// One line of a concept-set expression: a concept together with the flags
/// that say whether it is excluded and whether its descendants and mapped
/// concepts are pulled in.
pub struct ConceptSetItem {
    pub concept: Concept,
    pub is_excluded: bool,
    pub include_descendants: bool,
    pub include_mapped: bool,
}

/// An ordered sequence of concept-set items.
pub struct ConceptSetExpression {
    pub items: Vec<ConceptSetItem>,
}

/// A concept-set expression wrapped in outer metadata; the analysis only ever
/// looks at the inner expression.
pub struct ConceptSetWithMetadata {
    pub id: Option<i32>,
    pub name: Option<String>,
    pub expression: ConceptSetExpression,
}

} // verus!
