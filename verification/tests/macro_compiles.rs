use mqtt_typed_client::analysis::{StructAnalysisContext, StructShape};

#[test]
fn test_macro_compiles() {}

#[test]
fn test_macro_test_macro_compiles() {}

#[test]
fn macro_input_that_is_not_a_struct_is_refused() {
    let pattern = mqtt_typed_client::topic_pattern_path::TopicPatternPath::new_from_string(
        "test/topic",
        mqtt_typed_client::cache_strategy::CacheStrategy::NoCache,
    )
    .unwrap();
    assert!(StructAnalysisContext::analyze(&StructShape::Other, &pattern).is_err());
}
