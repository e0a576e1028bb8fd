//! Concrete topics and the result of matching one against a pattern.
use vstd::prelude::*;

use crate::text::{append_str, chars_of, join_levels, push_char, same_text, split_levels, split_topic};

verus! {

/// A concrete topic with its levels.
#[derive(Debug)]
pub struct TopicPath {
    /// The full topic text.
    path: String,
    /// The levels of the topic, split on `/`.
    segments: Vec<String>,
}

/// The views of a vector of strings.
pub open spec fn strings_view(v: Seq<String>) -> Seq<Seq<char>> {
    Seq::new(v.len(), |i: int| v[i]@)
}

impl TopicPath {
    /// The levels are the split of the path.
    #[verifier::type_invariant]
    spec fn wf(&self) -> bool {
        strings_view(self.segments@) == split_levels(self.path@)
    }

    /// The full topic text.
    pub closed spec fn text(&self) -> Seq<char> {
        self.path@
    }

    /// The levels of the topic.
    pub closed spec fn levels(&self) -> Seq<Seq<char>> {
        strings_view(self.segments@)
    }

    /// The levels of a topic are the split of its text.
    pub fn levels_of_text(&self)
        ensures
            self.levels() == split_levels(self.text()),
    {
        proof {
            use_type_invariant(self);
        }
    }

    /// The levels of the topic, each as a string.
    pub fn segments(&self) -> (r: &Vec<String>)
        ensures
            strings_view(r@) == self.levels(),
            r@.len() == self.levels().len(),
            self.levels() == split_levels(self.text()),
    {
        proof {
            use_type_invariant(self);
        }
        &self.segments
    }

    /// The full topic text.
    pub fn path_str(&self) -> (r: &str)
        ensures
            r@ == self.text(),
    {
        self.path.as_str()
    }

    /// Splits a topic into its levels.
    pub fn new(path: &str) -> (r: Self)
        ensures
            r.text() == path@,
            r.levels() == split_levels(path@),
    {
        let cs = chars_of(path);
        let segments = split_topic(&cs);
        let mut p = String::new();
        append_str(&mut p, path);
        assert(p@ =~= path@);
        assert(strings_view(segments@) =~= split_levels(path@));
        TopicPath { path: p, segments }
    }

    /// The full topic text.
    pub fn path(&self) -> (r: String)
        ensures
            r@ == self.text(),
    {
        self.path.clone()
    }

    /// A copy with the same text and levels.
    pub fn duplicate(&self) -> (r: Self)
        ensures
            r.text() == self.text(),
            r.levels() == self.levels(),
    {
        proof {
            use_type_invariant(self);
        }
        let segments = clone_strings(&self.segments);
        assert(strings_view(segments@) =~= strings_view(self.segments@));
        TopicPath { path: self.path.clone(), segments }
    }

    /// The text shown for the topic: its path.
    pub fn to_display_string(&self) -> (r: String)
        ensures
            r@ == self.text(),
    {
        self.path.clone()
    }
}

/// A copy of a vector of strings.
pub fn clone_strings(v: &Vec<String>) -> (r: Vec<String>)
    ensures
        strings_view(r@) == strings_view(v@),
{
    let mut r: Vec<String> = Vec::new();
    let mut i: usize = 0;
    while i < v.len()
        invariant
            0 <= i <= v.len(),
            r@.len() == i,
            forall|k: int| 0 <= k < i ==> (#[trigger] r@[k])@ == v@[k]@,
        decreases v.len() - i,
    {
        r.push(v[i].clone());
        i = i + 1;
    }
    assert(strings_view(r@) =~= strings_view(v@));
    r
}

/// Abstract value of a [`TopicMatchError`].
pub enum MatchErrorView {
    UnexpectedEndOfPattern,
    UnexpectedEndOfTopic,
    UnexpectedHashSegment,
    SegmentMismatch(Seq<char>, Seq<char>, usize),
    DuplicateParameterName,
}

/// Why a topic does not match a pattern.
#[derive(Debug, Clone, PartialEq, Eq)]
pub enum TopicMatchError {
    /// The topic has levels left after the pattern ended.
    UnexpectedEndOfPattern,
    /// The topic ended while the pattern expected another level.
    UnexpectedEndOfTopic,
    /// A `#` stood before the last level of the pattern.
    UnexpectedHashSegment,
    /// A literal level differs.
    SegmentMismatch { expected: String, found: String, position: usize },
    /// Two wildcards carry the same name.
    DuplicateParameterName,
}

impl View for TopicMatchError {
    type V = MatchErrorView;

    open spec fn view(&self) -> MatchErrorView {
        match self {
            TopicMatchError::UnexpectedEndOfPattern => MatchErrorView::UnexpectedEndOfPattern,
            TopicMatchError::UnexpectedEndOfTopic => MatchErrorView::UnexpectedEndOfTopic,
            TopicMatchError::UnexpectedHashSegment => MatchErrorView::UnexpectedHashSegment,
            TopicMatchError::SegmentMismatch { expected, found, position } =>
                MatchErrorView::SegmentMismatch(expected@, found@, *position),
            TopicMatchError::DuplicateParameterName => MatchErrorView::DuplicateParameterName,
        }
    }
}

/// A range of topic levels `start..end`.
pub type LevelRange = (usize, usize);

/// The views of named ranges.
pub open spec fn named_view(v: Seq<(String, LevelRange)>) -> Seq<(Seq<char>, LevelRange)> {
    Seq::new(v.len(), |i: int| (v[i].0@, v[i].1))
}

/// The text of the levels `start..end` of a topic, joined by `/`; empty for
/// an empty range.
pub open spec fn range_text(levels: Seq<Seq<char>>, r: LevelRange) -> Seq<char> {
    join_levels(levels.subrange(r.0 as int, r.1 as int))
}

/// A range lies within `n` levels.
pub open spec fn range_ok(r: LevelRange, n: nat) -> bool {
    r.0 <= r.1 <= n
}

/// The result of matching a topic against a pattern: the topic and the
/// levels each wildcard covered.
#[derive(Debug)]
pub struct TopicMatch {
    topic: TopicPath,
    params: Vec<LevelRange>,
    named_params: Vec<(String, LevelRange)>,
}

impl TopicMatch {
    /// Every range lies within the topic.
    #[verifier::type_invariant]
    spec fn ranges_fit(self) -> bool {
        &&& forall|i: int|
            0 <= i < self.params@.len() ==> range_ok(
                #[trigger] self.params@[i],
                self.topic.levels().len(),
            )
        &&& forall|i: int|
            0 <= i < self.named_params@.len() ==> range_ok(
                (#[trigger] self.named_params@[i]).1,
                self.topic.levels().len(),
            )
    }

    /// The matched topic.
    pub closed spec fn spec_topic(&self) -> TopicPath {
        self.topic
    }

    /// The ranges of all wildcards, in pattern order.
    pub closed spec fn spec_params(&self) -> Seq<LevelRange> {
        self.params@
    }

    /// The names and ranges of the named wildcards, in pattern order.
    pub closed spec fn spec_named(&self) -> Seq<(Seq<char>, LevelRange)> {
        named_view(self.named_params@)
    }

    /// The levels of the matched topic.
    pub open spec fn spec_levels(&self) -> Seq<Seq<char>> {
        self.spec_topic().levels()
    }

    /// Builds a match from its parts.
    pub fn from_match_result(
        topic: TopicPath,
        params: Vec<LevelRange>,
        named_params: Vec<(String, LevelRange)>,
    ) -> (r: Self)
        requires
            forall|i: int|
                0 <= i < params@.len() ==> range_ok(#[trigger] params@[i], topic.levels().len()),
            forall|i: int|
                0 <= i < named_params@.len() ==> range_ok(
                    (#[trigger] named_params@[i]).1,
                    topic.levels().len(),
                ),
        ensures
            r.spec_topic() == topic,
            r.spec_params() == params@,
            r.spec_named() == named_view(named_params@),
    {
        TopicMatch { topic, params, named_params }
    }

    /// A copy of the match.
    pub fn duplicate(&self) -> (r: Self)
        ensures
            r.spec_topic().text() == self.spec_topic().text(),
            r.spec_levels() == self.spec_levels(),
            r.spec_params() == self.spec_params(),
            r.spec_named() == self.spec_named(),
    {
        proof {
            use_type_invariant(self);
        }
        let topic = self.topic.duplicate();
        let params = copy_ranges(&self.params);
        let mut named: Vec<(String, LevelRange)> = Vec::new();
        let mut i: usize = 0;
        while i < self.named_params.len()
            invariant
                0 <= i <= self.named_params@.len(),
                named@.len() == i,
                forall|k: int|
                    0 <= k < i ==> (#[trigger] named@[k]).0@ == self.named_params@[k].0@
                        && named@[k].1 == self.named_params@[k].1,
            decreases self.named_params@.len() - i,
        {
            named.push((self.named_params[i].0.clone(), self.named_params[i].1));
            i = i + 1;
        }
        assert(params@ =~= self.params@);
        assert(named_view(named@) =~= named_view(self.named_params@));
        TopicMatch { topic, params, named_params: named }
    }

    /// The levels of the matched topic.
    pub fn path_segments(&self) -> (r: &Vec<String>)
        ensures
            strings_view(r@) == self.spec_levels(),
    {
        &self.topic.segments
    }

    /// The matched topic.
    pub fn topic(&self) -> (r: &TopicPath)
        ensures
            *r == self.spec_topic(),
    {
        &self.topic
    }

    /// The text of the levels in `range`, joined by `/`.
    fn get_param_range(&self, range: LevelRange) -> (r: String)
        requires
            range_ok(range, self.spec_topic().levels().len()),
        ensures
            r@ == range_text(self.spec_levels(), range),
    {
        join_range(&self.topic.segments, range.0, range.1)
    }

    /// The text covered by the `index`-th wildcard, if there is one.
    pub fn get_param(&self, index: usize) -> (r: Option<String>)
        ensures
            index < self.spec_params().len() ==> (r matches Some(s) && s@ == range_text(
                self.spec_levels(),
                self.spec_params()[index as int],
            )),
            index >= self.spec_params().len() ==> r is None,
    {
        proof {
            use_type_invariant(self);
        }
        if index < self.params.len() {
            let range = self.params[index];
            assert(range_ok(self.params@[index as int], self.topic.levels().len()));
            Some(self.get_param_range(range))
        } else {
            None
        }
    }

    /// The text covered by the first wildcard named `name`, if there is one.
    pub fn get_named_param(&self, name: &str) -> (r: Option<String>)
        ensures
            match r {
                Some(s) => exists|i: int|
                    0 <= i < self.spec_named().len() && (#[trigger] self.spec_named()[i]).0
                        == name@ && (forall|j: int|
                        0 <= j < i ==> self.spec_named()[j].0 != name@) && s@ == range_text(
                        self.spec_levels(),
                        self.spec_named()[i].1,
                    ),
                None => forall|i: int|
                    0 <= i < self.spec_named().len() ==> (#[trigger] self.spec_named()[i]).0
                        != name@,
            },
    {
        proof {
            use_type_invariant(self);
        }
        let mut wanted = String::new();
        append_str(&mut wanted, name);
        let mut i: usize = 0;
        while i < self.named_params.len()
            invariant
                0 <= i <= self.named_params@.len(),
                wanted@ == name@,
                forall|j: int| 0 <= j < i ==> self.spec_named()[j].0 != name@,
            decreases self.named_params@.len() - i,
        {
            proof {
                use_type_invariant(self);
            }
            if same_text(&self.named_params[i].0, &wanted) {
                let range = self.named_params[i].1;
                assert(range_ok(self.named_params@[i as int].1, self.topic.levels().len()));
                let s = self.get_param_range(range);
                assert(self.spec_named()[i as int].0 == name@);
                return Some(s);
            }
            i = i + 1;
        }
        None
    }

    /// `Match(<topic>)`, followed by ` with <n> params` when wildcards matched.
    pub fn to_display_string(&self) -> (r: String)
        ensures
            self.spec_params().len() == 0 ==> r@ == "Match("@ + self.spec_topic().text() + ")"@,
            self.spec_params().len() > 0 ==> r@ == "Match("@ + self.spec_topic().text() + ")"@
                + " with "@ + decimal(self.spec_params().len()) + " params"@,
    {
        let mut r = String::new();
        append_str(&mut r, "Match(");
        append_str(&mut r, self.topic.path.as_str());
        append_str(&mut r, ")");
        if self.params.len() > 0 {
            append_str(&mut r, " with ");
            append_str(&mut r, usize_text(self.params.len()).as_str());
            append_str(&mut r, " params");
        }
        r
    }
}

/// A copy of a vector of ranges.
pub fn copy_ranges(v: &Vec<LevelRange>) -> (r: Vec<LevelRange>)
    ensures
        r@ == v@,
{
    let mut r: Vec<LevelRange> = Vec::new();
    let mut i: usize = 0;
    while i < v.len()
        invariant
            0 <= i <= v.len(),
            r@ == v@.take(i as int),
        decreases v.len() - i,
    {
        r.push(v[i]);
        i = i + 1;
        assert(r@ =~= v@.take(i as int));
    }
    assert(v@.take(v.len() as int) =~= v@);
    r
}

/// The decimal digits of a number.
pub open spec fn decimal(n: nat) -> Seq<char>
    decreases n,
{
    if n < 10 {
        seq![digit_char(n)]
    } else {
        decimal(n / 10).push(digit_char(n % 10))
    }
}

/// The character of a decimal digit.
pub open spec fn digit_char(d: nat) -> char {
    if d == 0 {
        '0'
    } else if d == 1 {
        '1'
    } else if d == 2 {
        '2'
    } else if d == 3 {
        '3'
    } else if d == 4 {
        '4'
    } else if d == 5 {
        '5'
    } else if d == 6 {
        '6'
    } else if d == 7 {
        '7'
    } else if d == 8 {
        '8'
    } else {
        '9'
    }
}

fn digit(d: usize) -> (c: char)
    requires
        d < 10,
    ensures
        c == digit_char(d as nat),
{
    if d == 0 {
        '0'
    } else if d == 1 {
        '1'
    } else if d == 2 {
        '2'
    } else if d == 3 {
        '3'
    } else if d == 4 {
        '4'
    } else if d == 5 {
        '5'
    } else if d == 6 {
        '6'
    } else if d == 7 {
        '7'
    } else if d == 8 {
        '8'
    } else {
        '9'
    }
}

/// The decimal text of a number.
pub fn usize_text(n: usize) -> (r: String)
    ensures
        r@ == decimal(n as nat),
    decreases n,
{
    if n < 10 {
        let mut r = String::new();
        push_char(&mut r, digit(n));
        assert(r@ =~= seq![digit_char(n as nat)]);
        r
    } else {
        let mut r = usize_text(n / 10);
        push_char(&mut r, digit(n % 10));
        r
    }
}

/// The levels `from..to` joined by `/`.
pub fn join_range(levels: &Vec<String>, from: usize, to: usize) -> (r: String)
    requires
        from <= to <= levels@.len(),
    ensures
        r@ == join_levels(strings_view(levels@).subrange(from as int, to as int)),
{
    let ghost all = strings_view(levels@);
    let mut r = String::new();
    let mut i = from;
    while i < to
        invariant
            from <= i <= to <= levels@.len(),
            all == strings_view(levels@),
            r@ == join_levels(all.subrange(from as int, i as int)),
        decreases to - i,
    {
        if i > from {
            push_char(&mut r, '/');
        }
        append_str(&mut r, levels[i].as_str());
        proof {
            let next = all.subrange(from as int, i + 1);
            assert(next.drop_last() =~= all.subrange(from as int, i as int));
            assert(next.last() == levels@[i as int]@);
            if i == from {
                assert(next.len() == 1);
            }
        }
        i = i + 1;
    }
    r
}

} // verus!
