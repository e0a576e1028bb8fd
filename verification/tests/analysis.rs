use mqtt_typed_client::analysis::{
    extract_available_params, is_arc_topic_match_type, AnalysisError, ArgShape, FieldShape,
    StructAnalysisContext, StructShape, TopicParam, TypeShape,
};
use mqtt_typed_client::cache_strategy::CacheStrategy;
use mqtt_typed_client::topic_pattern_path::TopicPatternPath;

fn create_topic_pattern(pattern: &str) -> TopicPatternPath {
    TopicPatternPath::new_from_string(pattern, CacheStrategy::NoCache).expect("Invalid test pattern")
}

fn path(ident: &str, arg: Option<ArgShape>) -> TypeShape {
    TypeShape::Path { last_ident: Some(ident.to_string()), first_arg: arg }
}

fn arc_topic_match() -> TypeShape {
    path("Arc", Some(ArgShape::Path { last_ident: Some("TopicMatch".to_string()) }))
}

fn field(name: &str, ty: TypeShape) -> FieldShape {
    FieldShape { name: name.to_string(), ty }
}

#[test]
fn test_extract_available_params() {
    let pattern = create_topic_pattern("sensors/{sensor_id}/+/{room}/data");
    let params = extract_available_params(&pattern);

    assert_eq!(params.len(), 2);
    assert_eq!(params[0].name, "sensor_id");
    assert_eq!(params[0].wildcard_index, 0);
    assert_eq!(params[1].name, "room");
    assert_eq!(params[1].wildcard_index, 2);
}

#[test]
fn test_extract_available_params_mixed_wildcards() {
    let pattern = create_topic_pattern("home/+/{device_id}/status/#");
    let params = extract_available_params(&pattern);

    assert_eq!(params.len(), 1);
    assert_eq!(params[0].name, "device_id");
    assert_eq!(params[0].wildcard_index, 1);
}

#[test]
fn arc_topic_match_is_recognised_by_its_last_segments() {
    assert!(is_arc_topic_match_type(&arc_topic_match()));
    assert!(!is_arc_topic_match_type(&path(
        "Arc",
        Some(ArgShape::Path { last_ident: Some("String".to_string()) })
    )));
    assert!(!is_arc_topic_match_type(&path("TopicMatch", None)));
    assert!(!is_arc_topic_match_type(&path(
        "Vec",
        Some(ArgShape::Path { last_ident: Some("TopicMatch".to_string()) })
    )));
    assert!(!is_arc_topic_match_type(&TypeShape::Other));
}

#[test]
fn a_struct_with_parameters_payload_and_topic_is_accepted() {
    let pattern = create_topic_pattern("sensors/{sensor_id}/{room}/data");
    let shape = StructShape::NamedFields(vec![
        field("sensor_id", path("u32", None)),
        field("room", path("String", None)),
        field("payload", path("Vec", None)),
        field("topic", arc_topic_match()),
    ]);
    let context = StructAnalysisContext::analyze(&shape, &pattern).unwrap();
    assert_eq!(context.param_count(), 2);
    assert!(context.has_special_fields());
    assert_eq!(context.payload_field, Some(2));
    assert!(context.has_topic_field);
    assert_eq!(context.param_names(), vec!["sensor_id", "room"]);
    assert_eq!(context.topic_params[1].wildcard_index, 1);
}

#[test]
fn unknown_fields_are_listed_with_the_parameters() {
    let pattern = create_topic_pattern("sensors/{sensor_id}/data");
    let shape = StructShape::NamedFields(vec![
        field("sensor_id", path("u32", None)),
        field("unknown_field", path("String", None)),
    ]);
    let err = StructAnalysisContext::analyze(&shape, &pattern).unwrap_err();
    let msg = err.message();
    assert!(msg.contains("Unknown fields: [unknown_field]"));
    assert!(msg.contains("sensor_id"));
    assert_eq!(
        msg,
        "Unknown fields: [unknown_field]. Allowed fields: 'payload', 'topic', and topic parameters: [sensor_id]"
    );
}

#[test]
fn a_topic_field_of_another_type_is_refused() {
    let pattern = create_topic_pattern("sensors/+/data");
    let shape = StructShape::NamedFields(vec![field("topic", path("String", None))]);
    let err = StructAnalysisContext::analyze(&shape, &pattern).unwrap_err();
    assert_eq!(err, AnalysisError::InvalidTopicFieldType);
    assert!(err.message().contains("Field 'topic' must be of type Arc<TopicMatch>"));
}

#[test]
fn only_structs_with_named_fields_are_analysed() {
    let pattern = create_topic_pattern("test/+");
    let err = StructAnalysisContext::analyze(&StructShape::Other, &pattern).unwrap_err();
    assert!(err.message().contains("can only be applied to structs with"));
    assert!(err.message().contains("named fields, not tuple structs"));
}

fn named(fields: Vec<FieldShape>) -> StructShape {
    StructShape::NamedFields(fields)
}

#[test]
fn test_is_arc_topic_match_type() {
    // Valid types: `Arc<TopicMatch>` and its fully qualified form have the
    // same last segments.
    assert!(is_arc_topic_match_type(&arc_topic_match()));
    let valid_type_full = path(
        "Arc",
        Some(ArgShape::Path { last_ident: Some("TopicMatch".to_string()) }),
    );
    assert!(is_arc_topic_match_type(&valid_type_full));
    // Invalid types
    assert!(!is_arc_topic_match_type(&path(
        "Arc",
        Some(ArgShape::Path { last_ident: Some("String".to_string()) })
    )));
    assert!(!is_arc_topic_match_type(&path("TopicMatch", None)));
    assert!(!is_arc_topic_match_type(&path(
        "Vec",
        Some(ArgShape::Path { last_ident: Some("TopicMatch".to_string()) })
    )));
}

#[test]
fn test_successful_analysis() {
    let pattern = create_topic_pattern("sensors/{sensor_id}/data");
    let shape = named(vec![field("sensor_id", path("u32", None)), field("payload", path("String", None))]);
    let context = StructAnalysisContext::analyze(&shape, &pattern).unwrap();
    assert_eq!(context.topic_params.len(), 1);
    assert_eq!(context.topic_params[0].name, "sensor_id");
    assert!(context.payload_field.is_some());
    assert!(!context.has_topic_field);
}

#[test]
fn test_unknown_field_error() {
    let pattern = create_topic_pattern("sensors/{sensor_id}/data");
    let shape = named(vec![
        field("sensor_id", path("u32", None)),
        field("unknown_field", path("String", None)),
    ]);
    let result = StructAnalysisContext::analyze(&shape, &pattern);
    assert!(result.is_err());
    let error_msg = result.unwrap_err().message();
    assert!(error_msg.contains("Unknown fields: [unknown_field]"));
    assert!(error_msg.contains("sensor_id"));
}

#[test]
fn test_invalid_topic_field_type() {
    let pattern = create_topic_pattern("sensors/+/data");
    let shape = named(vec![field("topic", path("String", None))]);
    let result = StructAnalysisContext::analyze(&shape, &pattern);
    assert!(result.is_err());
    let error_msg = result.unwrap_err().message();
    assert!(error_msg.contains("Field 'topic' must be of type Arc<TopicMatch>"));
}

#[test]
fn test_non_struct_input() {
    let pattern = create_topic_pattern("test/+");
    let result = StructAnalysisContext::analyze(&StructShape::Other, &pattern);
    assert!(result.is_err());
    let error_msg = result.unwrap_err().message();
    assert!(error_msg.contains("can only be applied to structs with"));
}

#[test]
fn test_tuple_struct() {
    let pattern = create_topic_pattern("test/+");
    let result = StructAnalysisContext::analyze(&StructShape::Other, &pattern);
    assert!(result.is_err());
    let error_msg = result.unwrap_err().message();
    assert!(error_msg.contains("named fields, not tuple structs"));
}

#[test]
fn test_helper_methods() {
    let pattern = create_topic_pattern("sensors/{sensor_id}/{room}/data");
    let shape = named(vec![
        field("sensor_id", path("u32", None)),
        field("room", path("String", None)),
        field("payload", path("Vec", Some(ArgShape::Path { last_ident: Some("u8".to_string()) }))),
        field("topic", arc_topic_match()),
    ]);
    let context = StructAnalysisContext::analyze(&shape, &pattern).unwrap();
    assert_eq!(context.param_count(), 2);
    assert!(context.has_special_fields());
    let param_names = context.param_names();
    assert_eq!(param_names.len(), 2);
    assert!(param_names.contains(&"sensor_id"));
    assert!(param_names.contains(&"room"));
}

#[test]
fn test_topic_field_validation() {
    let cases: Vec<(&str, TypeShape, bool)> = vec![
        ("simple_arc_topic_match", arc_topic_match(), true),
        (
            "fully_qualified_arc_topic_match",
            path("Arc", Some(ArgShape::Path { last_ident: Some("TopicMatch".to_string()) })),
            true,
        ),
        (
            "arc_with_wrong_inner_type",
            path("Arc", Some(ArgShape::Path { last_ident: Some("String".to_string()) })),
            false,
        ),
        ("topic_match_without_arc", path("TopicMatch", None), false),
        (
            "vec_with_topic_match",
            path("Vec", Some(ArgShape::Path { last_ident: Some("TopicMatch".to_string()) })),
            false,
        ),
        ("primitive_type", path("u32", None), false),
    ];
    for (name, ty, should_be_valid) in cases {
        let shape = named(vec![field("topic", ty)]);
        let pattern = create_topic_pattern("sensors/+/data");
        let result = StructAnalysisContext::analyze(&shape, &pattern);
        if should_be_valid {
            assert!(result.is_ok(), "Test '{}': expected success but got error: {:?}", name, result.err());
            let context = result.unwrap();
            assert!(context.has_topic_field, "Should detect topic field");
        } else {
            assert!(result.is_err(), "Test '{}': expected error but got success", name);
            let error = result.unwrap_err();
            assert!(
                error.message().contains("must be of type Arc<TopicMatch>"),
                "Test '{}': wrong error message: {}",
                name,
                error.message()
            );
        }
    }
}

enum Expected {
    Success { param_count: usize, has_payload: bool, has_topic_field: bool, param_names: Vec<&'static str> },
    Error { error_contains: &'static str },
}

fn run_analysis_case(name: &str, pattern: &str, fields: Vec<FieldShape>, expected: Expected) {
    let pattern = create_topic_pattern(pattern);
    let result = StructAnalysisContext::analyze(&named(fields), &pattern);
    match expected {
        Expected::Success { param_count, has_payload, has_topic_field, param_names } => {
            let context = result.unwrap_or_else(|_| panic!("Test '{}' should succeed but failed", name));
            assert_eq!(context.param_count(), param_count, "Test '{}': param count mismatch", name);
            assert_eq!(context.has_special_fields(), has_payload || has_topic_field);
            assert_eq!(context.payload_field.is_some(), has_payload);
            assert_eq!(context.has_topic_field, has_topic_field);
            let names = context.param_names();
            for expected_name in param_names {
                assert!(names.contains(&expected_name), "Test '{}': missing parameter '{}'", name, expected_name);
            }
        }
        Expected::Error { error_contains } => {
            let error = match result {
                Ok(_) => panic!("Test '{}' should fail but succeeded", name),
                Err(e) => e,
            };
            assert!(error.message().contains(error_contains));
        }
    }
}

#[test]
fn test_comprehensive_analysis() {
    run_analysis_case(
        "basic_sensor_reading",
        "sensors/{sensor_id}/data",
        vec![field("sensor_id", path("u32", None)), field("payload", path("String", None))],
        Expected::Success { param_count: 1, has_payload: true, has_topic_field: false, param_names: vec!["sensor_id"] },
    );
    run_analysis_case(
        "multi_param_with_topic",
        "sensors/{sensor_id}/{room}/data",
        vec![
            field("sensor_id", path("u32", None)),
            field("room", path("String", None)),
            field("payload", path("Vec", Some(ArgShape::Path { last_ident: Some("u8".to_string()) }))),
            field("topic", arc_topic_match()),
        ],
        Expected::Success {
            param_count: 2,
            has_payload: true,
            has_topic_field: true,
            param_names: vec!["sensor_id", "room"],
        },
    );
    run_analysis_case(
        "no_payload_field",
        "heartbeat/{service}",
        vec![field("service", path("String", None))],
        Expected::Success { param_count: 1, has_payload: false, has_topic_field: false, param_names: vec!["service"] },
    );
    run_analysis_case(
        "unknown_field_error",
        "sensors/{sensor_id}/data",
        vec![field("sensor_id", path("u32", None)), field("unknown_field", path("String", None))],
        Expected::Error { error_contains: "Unknown fields" },
    );
    run_analysis_case(
        "invalid_topic_field_type",
        "sensors/+/data",
        vec![field("topic", path("String", None))],
        Expected::Error { error_contains: "must be of type Arc<TopicMatch>" },
    );
}

#[test]
fn test_invalid_struct_types() {
    let pattern = create_topic_pattern("test/+");
    // An enum and a tuple struct are both not structs with named fields.
    let result = StructAnalysisContext::analyze(&StructShape::Other, &pattern);
    assert!(result.is_err());
    assert!(result.unwrap_err().message().contains("can only be applied to structs"));
    let result = StructAnalysisContext::analyze(&StructShape::Other, &pattern);
    assert!(result.is_err());
    assert!(result.unwrap_err().message().contains("named fields"));
}

#[test]
fn test_struct_analysis_context_from_components() {
    let topic_params = vec![
        TopicParam { name: "sensor_id".to_string(), wildcard_index: 0 },
        TopicParam { name: "room".to_string(), wildcard_index: 1 },
    ];
    let context = StructAnalysisContext::from_components(Some(0), true, topic_params);
    assert!(context.payload_field.is_some());
    assert!(context.has_topic_field);
    assert_eq!(context.topic_params.len(), 2);
}
