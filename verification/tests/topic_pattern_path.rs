use mqtt_typed_client::cache_strategy::CacheStrategy;
use mqtt_typed_client::topic_match::TopicPath;
use mqtt_typed_client::topic_pattern_item::{TopicPatternError, TopicPatternItem};
use mqtt_typed_client::topic_pattern_path::{TopicFormatError, TopicPatternPath};

fn str_to_topic_pattern_path(topic: &str) -> Result<TopicPatternPath, TopicPatternError> {
    TopicPatternPath::new_from_string(topic, CacheStrategy::NoCache)
}

fn s(x: &str) -> TopicPatternItem {
    TopicPatternItem::Str(x.to_string())
}

#[test]
fn test_simple_string_pattern() {
    let result = str_to_topic_pattern_path("simple/path").unwrap();
    assert_eq!(*result.segments(), vec![s("simple"), s("path")]);
}

#[test]
fn test_pattern_with_star() {
    let result = str_to_topic_pattern_path("devices/+/status").unwrap();
    assert_eq!(
        *result.segments(),
        vec![s("devices"), TopicPatternItem::Plus(None), s("status")]
    );
}

#[test]
fn test_pattern_with_hash() {
    let result = str_to_topic_pattern_path("sensors/#").unwrap();
    assert_eq!(*result.segments(), vec![s("sensors"), TopicPatternItem::Hash(None)]);
}

#[test]
fn test_pattern_with_both_wildcards() {
    let result = str_to_topic_pattern_path("home/+/device/#").unwrap();
    assert_eq!(
        *result.segments(),
        vec![
            s("home"),
            TopicPatternItem::Plus(None),
            s("device"),
            TopicPatternItem::Hash(None)
        ]
    );
}

#[test]
fn test_empty_string() {
    let result = str_to_topic_pattern_path("");
    assert!(result.is_err());
    assert_eq!(result.unwrap_err(), TopicPatternError::EmptyTopic);
}

#[test]
fn test_only_wildcards() {
    let result_star = str_to_topic_pattern_path("+").unwrap();
    assert_eq!(*result_star.segments(), vec![TopicPatternItem::Plus(None)]);

    let result_hash = str_to_topic_pattern_path("#").unwrap();
    assert_eq!(*result_hash.segments(), vec![TopicPatternItem::Hash(None)]);
}

#[test]
fn test_consecutive_separators() {
    let result = str_to_topic_pattern_path("topic//subtopic");
    assert!(result.is_ok());
    assert_eq!(*result.unwrap().segments(), vec![s("topic"), s(""), s("subtopic")]);
}

#[test]
fn test_starting_with_separator() {
    let result = str_to_topic_pattern_path("/start");
    assert!(result.is_ok());
    assert_eq!(*result.unwrap().segments(), vec![s(""), s("start")]);
}

#[test]
fn test_ending_with_separator() {
    let result = str_to_topic_pattern_path("end/");
    assert!(result.is_ok());
    assert_eq!(*result.unwrap().segments(), vec![s("end"), s("")]);
}

#[test]
fn test_invalid_hash_wildcard_position() {
    let result = str_to_topic_pattern_path("invalid/#/pattern");
    assert!(result.is_err());
    assert_eq!(
        result.unwrap_err(),
        TopicPatternError::HashPosition { pattern: "invalid/#/pattern".to_string() }
    );
}

#[test]
fn test_invalid_wildcards_format() {
    let result_double_star = str_to_topic_pattern_path("topic/++/subtopic");
    assert!(result_double_star.is_err());
    assert!(matches!(
        result_double_star.unwrap_err(),
        TopicPatternError::WildcardUsage { .. }
    ));

    let result_double_hash = str_to_topic_pattern_path("topic/##");
    assert!(result_double_hash.is_err());
    assert!(matches!(
        result_double_hash.unwrap_err(),
        TopicPatternError::WildcardUsage { .. }
    ));
}

#[test]
fn test_wildcards_with_other_characters() {
    let result_star = str_to_topic_pattern_path("topic/a+b/subtopic");
    assert!(result_star.is_err());
    assert!(matches!(result_star.unwrap_err(), TopicPatternError::WildcardUsage { .. }));

    let result_hash = str_to_topic_pattern_path("topic/a#b");
    assert!(result_hash.is_err());
    assert!(matches!(result_hash.unwrap_err(), TopicPatternError::WildcardUsage { .. }));
}

#[test]
fn test_very_long_pattern() {
    let long_pattern = "segment1/segment2/segment3/segment4/segment5/\
                        segment6/segment7/segment8/segment9/segment10";
    let result = str_to_topic_pattern_path(long_pattern).unwrap();
    assert_eq!(result.segments().len(), 10);
}

#[test]
fn test_unicode_characters() {
    let result = str_to_topic_pattern_path("пристрої/+/статус").unwrap();
    assert_eq!(
        *result.segments(),
        vec![s("пристрої"), TopicPatternItem::Plus(None), s("статус")]
    );
}

#[test]
fn test_special_characters() {
    let result = str_to_topic_pattern_path("device-123/status@home").unwrap();
    assert_eq!(*result.segments(), vec![s("device-123"), s("status@home")]);
}

#[test]
fn test_display_implementation() {
    let path = str_to_topic_pattern_path("simple/path").unwrap();
    assert_eq!(path.to_string(), "simple/path");

    let path = str_to_topic_pattern_path("devices/+/status").unwrap();
    assert_eq!(path.to_string(), "devices/+/status");

    let path = str_to_topic_pattern_path("sensors/#").unwrap();
    assert_eq!(path.to_string(), "sensors/#");

    if let Err(err) = str_to_topic_pattern_path("") {
        assert_eq!(err, TopicPatternError::EmptyTopic);
    } else {
        panic!("Expected error for empty topic pattern");
    }

    let path = str_to_topic_pattern_path("/").unwrap();
    assert_eq!(path.to_string(), "/");

    let path = str_to_topic_pattern_path("device/").unwrap();
    assert_eq!(path.to_string(), "device/");

    let path = str_to_topic_pattern_path("topic//subtopic").unwrap();
    assert_eq!(path.to_string(), "topic//subtopic");
}

#[test]
fn named_wildcards_render_as_plain_wildcards_for_the_broker() {
    let p = str_to_topic_pattern_path("sensors/{sensor_id}/data/{rest:#}").unwrap();
    assert_eq!(p.mqtt_pattern(), "sensors/+/data/#");
    assert_eq!(p.topic_pattern(), "sensors/{sensor_id}/data/{rest:#}");
    assert!(p.contains_hash());
    assert_eq!(p.len(), 4);
}

#[test]
fn duplicate_parameter_names_are_refused() {
    let r = str_to_topic_pattern_path("a/{x}/b/{x}");
    assert!(matches!(r, Err(TopicPatternError::WildcardUsage { .. })));
}

#[test]
fn format_then_match_gives_the_parameters_back() {
    let mut p = str_to_topic_pattern_path("devices/{id}/sensors/{kind}").unwrap();
    let topic = p
        .format_topic(&vec!["dev7".to_string(), "temp".to_string()])
        .unwrap();
    assert_eq!(topic, "devices/dev7/sensors/temp");
    let m = p.try_match(&TopicPath::new(&topic)).unwrap();
    assert_eq!(m.get_param(0), Some("dev7".to_string()));
    assert_eq!(m.get_param(1), Some("temp".to_string()));
    assert_eq!(m.get_named_param("kind"), Some("temp".to_string()));
    assert_eq!(m.get_param(2), None);
}

#[test]
fn format_refuses_wrong_parameter_count_and_hash() {
    let p = str_to_topic_pattern_path("a/+/b").unwrap();
    assert_eq!(
        p.format_topic(&vec![]).unwrap_err(),
        TopicFormatError::ParameterCountMismatch { expected: 1, provided: 0 }
    );
    let h = str_to_topic_pattern_path("a/#").unwrap();
    assert_eq!(
        h.format_topic(&vec!["x".to_string()]).unwrap_err(),
        TopicFormatError::HashWildcardNotSupported
    );
}

#[test]
fn hash_matches_the_rest_of_the_topic_including_nothing() {
    let mut p = str_to_topic_pattern_path("home/{rest:#}").unwrap();
    let m = p.try_match(&TopicPath::new("home/a/b")).unwrap();
    assert_eq!(m.get_named_param("rest"), Some("a/b".to_string()));
    let m0 = p.try_match(&TopicPath::new("home")).unwrap();
    assert_eq!(m0.get_param(0), Some("".to_string()));
    assert!(p.try_match(&TopicPath::new("other/a")).is_err());
}

#[test]
fn bound_parameter_fills_the_broker_pattern() {
    let p = str_to_topic_pattern_path("devices/{id}/status").unwrap();
    let bound = p.bind_parameter("id", "dev1").unwrap();
    assert_eq!(bound.mqtt_pattern(), "devices/dev1/status");
    assert!(str_to_topic_pattern_path("devices/{id}/status")
        .unwrap()
        .bind_parameter("missing", "x")
        .is_err());
}

#[test]
fn test_with_cache_strategy_keeps_pattern_and_bindings() {
    let pattern = str_to_topic_pattern_path("sensors/{id}/temp")
        .unwrap()
        .bind_parameter("id", "kitchen")
        .unwrap();
    let cached = pattern.with_cache_strategy(CacheStrategy::new(8));
    assert_eq!(cached.topic_pattern(), "sensors/{id}/temp");
    assert_eq!(cached.mqtt_pattern(), "sensors/kitchen/temp");
    assert_eq!(*cached.segments(), *pattern.segments());
    assert_eq!(cached.cache_strategy().capacity().map(|c| c.get()), Some(8));
    let uncached = cached.with_cache_strategy(CacheStrategy::NoCache);
    assert!(uncached.cache_strategy().capacity().is_none());
    assert_eq!(uncached.mqtt_pattern(), "sensors/kitchen/temp");
}

#[test]
fn lru_cached_matches_equal_fresh_matches() {
    let text = "s/{id}/+/{rest:#}";
    let mut small = TopicPatternPath::new_from_string(text, CacheStrategy::new(1)).unwrap();
    let mut large = TopicPatternPath::new_from_string(text, CacheStrategy::new(3)).unwrap();
    let mut plain = str_to_topic_pattern_path(text).unwrap();
    let topics = [
        "s/1/a", "s/1/a", "s/2/b/c", "s/1/a", "s/2/b/c", "t/1/a", "s/1", "s", "s/1/a/x/y",
        "s/3/c", "s/1/a", "s/2/b/c", "", "s//", "s/1/a", "s/3/c", "t/1/a",
    ];
    for topic in topics {
        let p = plain.try_match(&TopicPath::new(topic));
        for cached in [&mut small, &mut large] {
            let c = cached.try_match(&TopicPath::new(topic));
            match (&c, &p) {
                (Ok(c), Ok(p)) => {
                    for j in 0..4 {
                        assert_eq!(c.get_param(j), p.get_param(j));
                    }
                    for name in ["id", "rest", "other"] {
                        assert_eq!(c.get_named_param(name), p.get_named_param(name));
                    }
                    assert_eq!(c.topic().path(), topic);
                }
                (Err(ce), Err(pe)) => assert_eq!(ce, pe),
                _ => panic!("cached and uncached results differ for {topic}"),
            }
        }
    }
    assert_eq!(small.cache_strategy().capacity().map(|n| n.get()), Some(1));
}

#[test]
fn repeated_match_under_lru_returns_the_shared_result() {
    let mut p = TopicPatternPath::new_from_string("a/{x}", CacheStrategy::new(4)).unwrap();
    let first = p.try_match(&TopicPath::new("a/7")).unwrap();
    let second = p.try_match(&TopicPath::new("a/7")).unwrap();
    assert!(std::sync::Arc::ptr_eq(&first, &second));
    assert_eq!(second.get_named_param("x"), Some("7".to_string()));
}
