//! The errors of the topic layer, and the check of a concrete topic that a
//! message is published on.
use vstd::prelude::*;

use crate::text::chars_of;
use crate::topic_matcher::{MatcherErrorView, TopicMatcherError};
use crate::topic_pattern_item::{PatternErrorView, TopicPatternError};
use crate::topic_pattern_path::{FormatErrorView, TopicFormatError};
use crate::topic_router::{RouterErrorView, TopicRouterError};

verus! {

/// Abstract value of a [`TopicError`].
pub enum TopicErrorView {
    Pattern(PatternErrorView),
    Format(FormatErrorView),
    Matcher(MatcherErrorView),
    Router(RouterErrorView),
}

/// Any error of the topic layer: pattern, formatting, matching or routing.
#[derive(Debug, Clone, PartialEq, Eq)]
pub enum TopicError {
    /// A topic pattern is invalid.
    Pattern(TopicPatternError),
    /// A topic could not be formatted from a pattern.
    Format(TopicFormatError),
    /// Topic matching failed.
    Matcher(TopicMatcherError),
    /// Routing failed.
    Router(TopicRouterError),
}

impl View for TopicError {
    type V = TopicErrorView;

    open spec fn view(&self) -> TopicErrorView {
        match self {
            TopicError::Pattern(e) => TopicErrorView::Pattern(e@),
            TopicError::Format(e) => TopicErrorView::Format(e@),
            TopicError::Matcher(e) => TopicErrorView::Matcher(e@),
            TopicError::Router(e) => TopicErrorView::Router(e@),
        }
    }
}

/// The longest topic, in bytes.
pub const MAX_TOPIC_BYTES: usize = 65535;

/// The character is not allowed in a concrete topic: `#`, `+` or the null
/// character.
pub open spec fn illegal_topic_char(c: char) -> bool {
    c == '#' || c == '+' || c == '\0'
}

/// The topic holds a character that a concrete topic may not hold.
pub open spec fn has_illegal_char(s: Seq<char>) -> bool {
    exists|i: int| 0 <= i < s.len() && illegal_topic_char(#[trigger] s[i])
}

/// Checks a topic that a message is to be published on: it must not be
/// empty, must fit in 65535 bytes, and must hold no wildcard and no null
/// character.
pub fn validate_mqtt_topic(topic_str: &str) -> (r: Result<(), TopicError>)
    ensures
        (topic_str@.len() == 0 || topic_str.len() > MAX_TOPIC_BYTES) ==> (r matches Err(e)
            && e@ == TopicErrorView::Router(
            RouterErrorView::InvalidRoutingTopic(topic_str@, "Topic is empty or too long"@),
        )),
        !(topic_str@.len() == 0 || topic_str.len() > MAX_TOPIC_BYTES) && has_illegal_char(
            topic_str@,
        ) ==> (r matches Err(e) && e@ == TopicErrorView::Router(
            RouterErrorView::InvalidRoutingTopic(
                topic_str@,
                "Topic contains illegal characters ('#', '+', or null byte)"@,
            ),
        )),
        r is Ok <==> !(topic_str@.len() == 0 || topic_str.len() > MAX_TOPIC_BYTES)
            && !has_illegal_char(topic_str@),
{
    if topic_str.is_empty() || topic_str.len() > MAX_TOPIC_BYTES {
        return Err(
            TopicError::Router(
                TopicRouterError::invalid_routing_topic(topic_str, "Topic is empty or too long"),
            ),
        );
    }
    let cs = chars_of(topic_str);
    let mut i: usize = 0;
    while i < cs.len()
        invariant
            0 <= i <= cs@.len(),
            cs@ == topic_str@,
            !(topic_str@.len() == 0 || topic_str.len() > MAX_TOPIC_BYTES),
            forall|k: int| 0 <= k < i ==> !illegal_topic_char(#[trigger] cs@[k]),
        decreases cs@.len() - i,
    {
        let c = cs[i];
        if c == '#' || c == '+' || c == '\0' {
            return Err(
                TopicError::Router(
                    TopicRouterError::invalid_routing_topic(
                        topic_str,
                        "Topic contains illegal characters ('#', '+', or null byte)",
                    ),
                ),
            );
        }
        i = i + 1;
    }
    Ok(())
}

} // verus!
