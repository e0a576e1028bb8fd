//! Building structured messages from a topic match: the text of each topic
//! parameter, found by its wildcard position.
use vstd::prelude::*;

use crate::topic_match::{TopicMatch, range_text};

verus! {

/// A topic parameter that the match does not hold.
#[derive(Debug, Clone, PartialEq, Eq)]
pub struct TopicParameterMissing {
    /// The parameter's name.
    pub param: String,
    /// Its position among the wildcards.
    pub position: usize,
}

impl TopicParameterMissing {
    /// `Missing required parameter '<param>' at position <position>`, as the
    /// error is shown.
    pub fn message(&self) -> (r: String)
        ensures
            r@ == "Missing required parameter '"@ + self.param@ + "' at position "@
                + crate::topic_match::decimal(self.position as nat),
    {
        let mut r = String::new();
        crate::text::append_str(&mut r, "Missing required parameter '");
        crate::text::append_str(&mut r, self.param.as_str());
        crate::text::append_str(&mut r, "' at position ");
        let digits = crate::topic_match::usize_text(self.position);
        crate::text::append_str(&mut r, digits.as_str());
        r
    }
}

/// The text of the topic parameter at wildcard position `index`, to be
/// parsed into the field `param_name`; fails when the match has no such
/// wildcard.
pub fn topic_parameter_text(topic: &TopicMatch, index: usize, param_name: &str) -> (r: Result<
    String,
    TopicParameterMissing,
>)
    ensures
        index < topic.spec_params().len() ==> (r matches Ok(s) && s@ == range_text(
            topic.spec_levels(),
            topic.spec_params()[index as int],
        )),
        index >= topic.spec_params().len() ==> (r matches Err(e) && e.param@ == param_name@
            && e.position == index),
{
    match topic.get_param(index) {
        Some(p) => Ok(p),
        None => Err(TopicParameterMissing { param: param_name.to_owned(), position: index }),
    }
}

} // verus!
