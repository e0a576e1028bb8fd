//! Parsed MQTT topic patterns: validation, rendering, parameter binding,
//! formatting and matching.
use std::sync::Arc;

use vstd::prelude::*;

use crate::cache_strategy::CacheStrategy;
use crate::match_cache::{MatchCache, cache_get, cache_put, cached_matches, new_match_cache};
use crate::text::{all_white, append_str, chars_of, is_white, join_levels, push_char, same_text, split_levels, lemma_split_nonempty, lemma_split_join, levels_free_of_slash, slash};
use crate::topic_match::{
    LevelRange, MatchErrorView, TopicMatch, TopicMatchError, TopicPath, decimal, named_view, range_ok,
    range_text, strings_view, usize_text,
};
use crate::topic_pattern_item::{
    ItemView, PatternErrorView, TopicPatternError, TopicPatternItem, item_is_wildcard,
    item_mqtt_text, item_name, item_template_text, opt_view, parse_level, spec_parse_item,
};

verus! {

/// The views of a vector of items.
pub open spec fn items_view(v: Seq<TopicPatternItem>) -> Seq<ItemView> {
    Seq::new(v.len(), |i: int| v[i]@)
}

/// Parses every level in order; the first failing level gives the error.
pub open spec fn parse_levels(segs: Seq<Seq<char>>) -> Result<Seq<ItemView>, PatternErrorView>
    decreases segs.len(),
{
    if segs.len() == 0 {
        Ok(Seq::<ItemView>::empty())
    } else {
        match parse_levels(segs.drop_last()) {
            Err(e) => Err(e),
            Ok(prev) => match spec_parse_item(segs.last()) {
                Err(e) => Err(e),
                Ok(it) => Ok(prev.push(it)),
            },
        }
    }
}

/// Some item of `items` is a wildcard named `n`.
pub open spec fn has_name(items: Seq<ItemView>, n: Seq<char>) -> bool {
    exists|i: int| 0 <= i < items.len() && item_name(#[trigger] items[i]) == Some(n)
}

/// The index of the first named wildcard whose name appeared before it.
pub open spec fn first_duplicate_name(items: Seq<ItemView>) -> Option<int>
    decreases items.len(),
{
    if items.len() == 0 {
        None
    } else {
        match first_duplicate_name(items.drop_last()) {
            Some(j) => Some(j),
            None => match item_name(items.last()) {
                Some(n) => if has_name(items.drop_last(), n) {
                    Some(items.len() - 1)
                } else {
                    None
                },
                None => None,
            },
        }
    }
}

/// `#` occurs at most as the last item.
pub open spec fn hash_only_last(items: Seq<ItemView>) -> bool {
    forall|i: int| 0 <= i < items.len() - 1 ==> !((#[trigger] items[i]) is Hash)
}

/// What parsing a whole pattern gives: the items, or the first error in the
/// order empty text, level syntax, repeated name, misplaced `#`.
pub open spec fn spec_parse_pattern(s: Seq<char>) -> Result<Seq<ItemView>, PatternErrorView> {
    if s.len() == 0 || all_white(s) {
        Err(PatternErrorView::EmptyTopic)
    } else {
        match parse_levels(split_levels(s)) {
            Err(e) => Err(e),
            Ok(items) => match first_duplicate_name(items) {
                Some(j) => Err(PatternErrorView::WildcardUsage(item_mqtt_text(items[j]))),
                None => if hash_only_last(items) {
                    Ok(items)
                } else {
                    Err(PatternErrorView::HashPosition(s))
                },
            },
        }
    }
}

/// The pattern as the broker sees it: `+` and `#` for every wildcard.
pub open spec fn mqtt_text_of(items: Seq<ItemView>) -> Seq<char> {
    join_levels(Seq::new(items.len(), |i: int| item_mqtt_text(items[i])))
}

/// The pattern in template form: named wildcards in braces.
pub open spec fn template_text_of(items: Seq<ItemView>) -> Seq<char> {
    join_levels(Seq::new(items.len(), |i: int| item_template_text(items[i])))
}

/// A binding of a parameter name to a value.
pub type Binding = (String, String);

/// The views of bindings.
pub open spec fn bindings_view(v: Seq<Binding>) -> Seq<(Seq<char>, Seq<char>)> {
    Seq::new(v.len(), |i: int| (v[i].0@, v[i].1@))
}

/// Every bound name is the name of some `{name}` item, and no name is bound
/// twice.
pub open spec fn bindings_ok(items: Seq<ItemView>, bs: Seq<(Seq<char>, Seq<char>)>) -> bool {
    &&& forall|k: int|
        0 <= k < bs.len() ==> has_plus_named(items, (#[trigger] bs[k]).0)
    &&& forall|k: int, l: int| 0 <= k < l < bs.len() ==> (#[trigger] bs[k]).0 != (#[trigger] bs[l]).0
}

/// Some item is `{n}` (a named single-level wildcard).
pub open spec fn has_plus_named(items: Seq<ItemView>, n: Seq<char>) -> bool {
    exists|i: int| 0 <= i < items.len() && #[trigger] items[i] == ItemView::Plus(Some(n))
}

/// The index of the first `{n}` item, or -1.
pub open spec fn first_plus_named(items: Seq<ItemView>, n: Seq<char>) -> int
    decreases items.len(),
{
    if items.len() == 0 {
        -1
    } else {
        let p = first_plus_named(items.drop_last(), n);
        if p >= 0 {
            p
        } else if items.last() == ItemView::Plus(Some(n)) {
            items.len() - 1
        } else {
            -1
        }
    }
}

/// The items with the first `{n}` replaced by the literal `v`.
pub open spec fn replace_first_plus(items: Seq<ItemView>, n: Seq<char>, v: Seq<char>) -> Seq<
    ItemView,
> {
    let p = first_plus_named(items, n);
    if p >= 0 {
        items.update(p, ItemView::Str(v))
    } else {
        items
    }
}

/// The items with every binding applied in order.
pub open spec fn apply_bindings(items: Seq<ItemView>, bs: Seq<(Seq<char>, Seq<char>)>) -> Seq<
    ItemView,
>
    decreases bs.len(),
{
    if bs.len() == 0 {
        items
    } else {
        let prev = apply_bindings(items, bs.drop_last());
        replace_first_plus(prev, bs.last().0, bs.last().1)
    }
}

/// The bindings after binding `n` to `v`: the value of an existing binding
/// of `n` is replaced, otherwise the binding is appended.
pub open spec fn rebind(bs: Seq<(Seq<char>, Seq<char>)>, n: Seq<char>, v: Seq<char>) -> Seq<
    (Seq<char>, Seq<char>),
> {
    if exists|k: int| 0 <= k < bs.len() && (#[trigger] bs[k]).0 == n {
        let k = choose|k: int| 0 <= k < bs.len() && (#[trigger] bs[k]).0 == n;
        bs.update(k, (n, v))
    } else {
        bs.push((n, v))
    }
}

/// The number of wildcards among the items.
pub open spec fn wildcard_count(items: Seq<ItemView>) -> nat
    decreases items.len(),
{
    if items.len() == 0 {
        0
    } else {
        wildcard_count(items.drop_last()) + if item_is_wildcard(items.last()) {
            1nat
        } else {
            0nat
        }
    }
}

/// The wildcards among the items, in order.
pub open spec fn wildcards_of(items: Seq<ItemView>) -> Seq<ItemView>
    decreases items.len(),
{
    if items.len() == 0 {
        Seq::<ItemView>::empty()
    } else {
        let prev = wildcards_of(items.drop_last());
        if item_is_wildcard(items.last()) {
            prev.push(items.last())
        } else {
            prev
        }
    }
}

/// The levels of a topic formatted from the items: literals stay, and the
/// `k`-th wildcard becomes `params[k]`.
pub open spec fn formatted_levels(items: Seq<ItemView>, params: Seq<Seq<char>>) -> Seq<Seq<char>>
    decreases items.len(),
{
    if items.len() == 0 {
        Seq::<Seq<char>>::empty()
    } else {
        let prev = formatted_levels(items.drop_last(), params);
        match items.last() {
            ItemView::Str(s) => prev.push(s),
            _ => prev.push(params[wildcard_count(items.drop_last()) as int]),
        }
    }
}

/// The outcome of a match: wildcard ranges and named ranges, or an error.
pub type MatchOutcome = Result<(Seq<LevelRange>, Seq<(Seq<char>, LevelRange)>), MatchErrorView>;

/// Matching `items[i..]` against the topic levels from level `i` on: a
/// literal must equal the level, `+` takes one level, `#` takes the rest;
/// the first failure gives the error.
pub open spec fn match_from(items: Seq<ItemView>, levels: Seq<Seq<char>>, i: nat) -> MatchOutcome
    decreases items.len() - i,
{
    if i >= items.len() {
        if i < levels.len() {
            Err(MatchErrorView::UnexpectedEndOfPattern)
        } else {
            Ok((Seq::<LevelRange>::empty(), Seq::<(Seq<char>, LevelRange)>::empty()))
        }
    } else {
        match items[i as int] {
            ItemView::Str(s) => if i >= levels.len() {
                Err(MatchErrorView::UnexpectedEndOfTopic)
            } else if levels[i as int] != s {
                Err(MatchErrorView::SegmentMismatch(s, levels[i as int], i as usize))
            } else {
                match_from(items, levels, i + 1)
            },
            ItemView::Plus(n) => if i >= levels.len() {
                Err(MatchErrorView::UnexpectedEndOfTopic)
            } else {
                prefixed(
                    seq![(i as usize, (i + 1) as usize)],
                    named_range(n, (i as usize, (i + 1) as usize)),
                    match_from(items, levels, i + 1),
                )
            },
            ItemView::Hash(n) => if i < items.len() - 1 {
                Err(MatchErrorView::UnexpectedHashSegment)
            } else {
                Ok(
                    (
                        seq![(i as usize, levels.len() as usize)],
                        named_range(n, (i as usize, levels.len() as usize)),
                    ),
                )
            },
        }
    }
}

/// The named range of a wildcard, if it is named.
pub open spec fn named_range(n: Option<Seq<char>>, r: LevelRange) -> Seq<(Seq<char>, LevelRange)> {
    match n {
        Some(name) => seq![(name, r)],
        None => Seq::<(Seq<char>, LevelRange)>::empty(),
    }
}

/// An outcome with ranges put in front of those it found.
pub open spec fn prefixed(
    p: Seq<LevelRange>,
    n: Seq<(Seq<char>, LevelRange)>,
    o: MatchOutcome,
) -> MatchOutcome {
    match o {
        Ok((p2, n2)) => Ok((p + p2, n + n2)),
        Err(e) => Err(e),
    }
}

/// The MQTT matching relation: a literal matches the equal level, `+` any one
/// level, `#` the rest of the topic (zero or more levels).
pub open spec fn topic_matches(items: Seq<ItemView>, levels: Seq<Seq<char>>) -> bool
    decreases items.len(),
{
    if items.len() == 0 {
        levels.len() == 0
    } else {
        match items[0] {
            ItemView::Str(s) => levels.len() > 0 && levels[0] == s && topic_matches(
                items.drop_first(),
                levels.drop_first(),
            ),
            ItemView::Plus(_) => levels.len() > 0 && topic_matches(
                items.drop_first(),
                levels.drop_first(),
            ),
            ItemView::Hash(_) => true,
        }
    }
}

/// Abstract value of a [`TopicFormatError`].
pub enum FormatErrorView {
    HashWildcardNotSupported,
    ParameterCountMismatch(usize, usize),
    FormatError,
}

/// Error types for formatting topics with parameters
#[derive(Debug, Clone, PartialEq, Eq)]
pub enum TopicFormatError {
    /// Attempted to format a topic with a hash wildcard (#) which is not allowed
    HashWildcardNotSupported,
    /// Parameter count mismatch when formatting a topic
    ParameterCountMismatch {
        /// Expected number of parameters
        expected: usize,
        /// Number of parameters actually provided
        provided: usize,
    },
    /// Error during formatting of a parameter
    FormatError,
}

impl View for TopicFormatError {
    type V = FormatErrorView;

    open spec fn view(&self) -> FormatErrorView {
        match self {
            TopicFormatError::HashWildcardNotSupported => FormatErrorView::HashWildcardNotSupported,
            TopicFormatError::ParameterCountMismatch { expected, provided } =>
                FormatErrorView::ParameterCountMismatch(*expected, *provided),
            TopicFormatError::FormatError => FormatErrorView::FormatError,
        }
    }
}

/// The message shown for a formatting error.
pub open spec fn format_error_text(e: FormatErrorView) -> Seq<char> {
    match e {
        FormatErrorView::HashWildcardNotSupported => "Cannot format topic with # wildcard for publishing"@,
        FormatErrorView::ParameterCountMismatch(expected, provided) => "Parameter count mismatch: expected "@
            + decimal(expected as nat) + ", provided "@ + decimal(provided as nat),
        FormatErrorView::FormatError => "Error formatting topic"@,
    }
}

impl TopicFormatError {
    /// The message shown for the error.
    pub fn message(&self) -> (r: String)
        ensures
            r@ == format_error_text(self@),
    {
        let mut r = String::new();
        match self {
            TopicFormatError::HashWildcardNotSupported => {
                append_str(&mut r, "Cannot format topic with # wildcard for publishing");
            },
            TopicFormatError::ParameterCountMismatch { expected, provided } => {
                append_str(&mut r, "Parameter count mismatch: expected ");
                let e = usize_text(*expected);
                append_str(&mut r, e.as_str());
                append_str(&mut r, ", provided ");
                let p = usize_text(*provided);
                append_str(&mut r, p.as_str());
            },
            TopicFormatError::FormatError => {
                append_str(&mut r, "Error formatting topic");
            },
        }
        proof {
            assert(r@ =~= format_error_text(self@));
        }
        r
    }
}

/// A copy of an item.
pub fn copy_item(it: &TopicPatternItem) -> (r: TopicPatternItem)
    ensures
        r@ == it@,
{
    match it {
        TopicPatternItem::Str(s) => TopicPatternItem::Str(s.clone()),
        TopicPatternItem::Plus(None) => TopicPatternItem::Plus(None),
        TopicPatternItem::Plus(Some(n)) => TopicPatternItem::Plus(Some(n.clone())),
        TopicPatternItem::Hash(None) => TopicPatternItem::Hash(None),
        TopicPatternItem::Hash(Some(n)) => TopicPatternItem::Hash(Some(n.clone())),
    }
}

/// A copy of a vector of items.
pub fn copy_items(v: &Vec<TopicPatternItem>) -> (r: Vec<TopicPatternItem>)
    ensures
        items_view(r@) == items_view(v@),
{
    let mut r: Vec<TopicPatternItem> = Vec::new();
    let mut i: usize = 0;
    while i < v.len()
        invariant
            0 <= i <= v.len(),
            r@.len() == i,
            forall|k: int| 0 <= k < i ==> (#[trigger] r@[k])@ == v@[k]@,
        decreases v.len() - i,
    {
        r.push(copy_item(&v[i]));
        i = i + 1;
    }
    assert(items_view(r@) =~= items_view(v@));
    r
}

/// Two items are the same (kind, literal and name).
pub fn same_item(a: &TopicPatternItem, b: &TopicPatternItem) -> (r: bool)
    ensures
        r == (a@ == b@),
{
    match (a, b) {
        (TopicPatternItem::Str(x), TopicPatternItem::Str(y)) => same_text(x, y),
        (TopicPatternItem::Plus(None), TopicPatternItem::Plus(None)) => true,
        (TopicPatternItem::Hash(None), TopicPatternItem::Hash(None)) => true,
        (TopicPatternItem::Plus(Some(x)), TopicPatternItem::Plus(Some(y))) => same_text(x, y),
        (TopicPatternItem::Hash(Some(x)), TopicPatternItem::Hash(Some(y))) => same_text(x, y),
        _ => false,
    }
}

/// A copy of a vector of bindings.
fn copy_bindings(v: &Vec<Binding>) -> (r: Vec<Binding>)
    ensures
        bindings_view(r@) == bindings_view(v@),
{
    let mut r: Vec<Binding> = Vec::new();
    let mut i: usize = 0;
    while i < v.len()
        invariant
            0 <= i <= v.len(),
            r@.len() == i,
            forall|k: int|
                0 <= k < i ==> (#[trigger] r@[k]).0@ == v@[k].0@ && r@[k].1@ == v@[k].1@,
        decreases v.len() - i,
    {
        r.push((v[i].0.clone(), v[i].1.clone()));
        i = i + 1;
    }
    assert(bindings_view(r@) =~= bindings_view(v@));
    r
}

/// Joining the texts of one more item.
proof fn lemma_join_push(parts: Seq<Seq<char>>, p: Seq<char>)
    ensures
        join_levels(parts.push(p)) == if parts.len() == 0 {
            p
        } else {
            join_levels(parts).push('/') + p
        },
{
    assert(parts.push(p).drop_last() =~= parts);
}

/// Parsing one more level.
proof fn lemma_parse_levels_push(segs: Seq<Seq<char>>, s: Seq<char>)
    ensures
        parse_levels(segs.push(s)) == match parse_levels(segs) {
            Err(e) => Err(e),
            Ok(prev) => match spec_parse_item(s) {
                Err(e) => Err(e),
                Ok(it) => Ok(prev.push(it)),
            },
        },
{
    assert(segs.push(s).drop_last() =~= segs);
}

/// The texts of the items joined, built item by item.
fn join_item_texts(items: &Vec<TopicPatternItem>, template: bool) -> (r: String)
    ensures
        template ==> r@ == template_text_of(items_view(items@)),
        !template ==> r@ == mqtt_text_of(items_view(items@)),
{
    let ghost iv = items_view(items@);
    let ghost texts = if template {
        Seq::new(iv.len(), |i: int| item_template_text(iv[i]))
    } else {
        Seq::new(iv.len(), |i: int| item_mqtt_text(iv[i]))
    };
    let mut r = String::new();
    let mut i: usize = 0;
    while i < items.len()
        invariant
            0 <= i <= items@.len(),
            iv == items_view(items@),
            texts.len() == iv.len(),
            forall|k: int|
                0 <= k < iv.len() ==> #[trigger] texts[k] == if template {
                    item_template_text(iv[k])
                } else {
                    item_mqtt_text(iv[k])
                },
            r@ == join_levels(texts.take(i as int)),
        decreases items@.len() - i,
    {
        if i > 0 {
            push_char(&mut r, '/');
        }
        if template {
            let w = items[i].as_wildcard();
            append_str(&mut r, w.as_str());
        } else {
            append_str(&mut r, items[i].as_str());
        }
        proof {
            lemma_join_push(texts.take(i as int), texts[i as int]);
            assert(texts.take(i + 1) =~= texts.take(i as int).push(texts[i as int]));
        }
        i = i + 1;
    }
    assert(texts.take(items@.len() as int) =~= texts);
    r
}

/// What matching `topic` against `items` gives: the wildcard ranges of the
/// match over the topic's levels, or the error it stops on.
pub open spec fn match_outcome(
    items: Seq<ItemView>,
    topic: TopicPath,
    r: Result<Arc<TopicMatch>, TopicMatchError>,
) -> bool {
    match r {
        Ok(m) => {
            &&& match_from(items, topic.levels(), 0) == Ok::<
                (Seq<LevelRange>, Seq<(Seq<char>, LevelRange)>),
                MatchErrorView,
            >(((*m).spec_params(), (*m).spec_named()))
            &&& (*m).spec_topic().text() == topic.text()
            &&& (*m).spec_levels() == topic.levels()
        },
        Err(e) => match_from(items, topic.levels(), 0) == Err::<
            (Seq<LevelRange>, Seq<(Seq<char>, LevelRange)>),
            MatchErrorView,
        >(e@),
    }
}

/// Every match in the cache is the match of the topic whose text it is
/// stored under.
pub open spec fn cache_agrees(items: Seq<ItemView>, m: Map<Seq<char>, TopicMatch>) -> bool {
    forall|k: Seq<char>|
        #[trigger] m.dom().contains(k) ==> {
            &&& m[k].spec_topic().text() == k
            &&& m[k].spec_levels() == split_levels(k)
            &&& match_from(items, split_levels(k), 0) == Ok::<
                (Seq<LevelRange>, Seq<(Seq<char>, LevelRange)>),
                MatchErrorView,
            >((m[k].spec_params(), m[k].spec_named()))
        }
}

/// A fresh match cache for the strategy: an empty LRU cache of its
/// capacity, or none.
fn cache_for(strategy: CacheStrategy) -> (r: Option<MatchCache>)
    ensures
        r is Some <==> strategy is Lru,
        r matches Some(c) ==> cached_matches(c) =~= Map::<Seq<char>, TopicMatch>::empty(),
{
    match strategy {
        CacheStrategy::Lru(n) => Some(new_match_cache(n.get())),
        CacheStrategy::NoCache => None,
    }
}

/// Looks a topic text up in the cache, if there is one; the entries stay.
fn lookup_cached(cache: &mut Option<MatchCache>, key: &str) -> (r: Option<Arc<TopicMatch>>)
    ensures
        (*final(cache)) is Some <==> (*old(cache)) is Some,
        (*old(cache)) is None ==> r is None,
        *old(cache) matches Some(c) ==> {
            &&& *final(cache) matches Some(c2) && cached_matches(c2) == cached_matches(c)
            &&& r is Some <==> cached_matches(c).dom().contains(key@)
            &&& r matches Some(m) ==> *m == cached_matches(c)[key@]
        },
    no_unwind
{
    match cache {
        Some(c) => cache_get(c, key),
        None => None,
    }
}

/// Stores a match in the cache, if there is one.
fn store_cached(cache: &mut Option<MatchCache>, key: String, value: Arc<TopicMatch>)
    ensures
        (*final(cache)) is Some <==> (*old(cache)) is Some,
        *old(cache) matches Some(c) ==> (*final(cache) matches Some(c2) && {
            &&& cached_matches(c2).dom().contains(key@)
            &&& cached_matches(c2)[key@] == *value
            &&& forall|k: Seq<char>|
                #[trigger] cached_matches(c2).dom().contains(k) && k != key@ ==> cached_matches(c).dom().contains(k) && cached_matches(c2)[k] == cached_matches(c)[k]
        }),
    no_unwind
{
    match cache {
        Some(c) => cache_put(c, key, value),
        None => {},
    }
}

/// Parsed MQTT topic pattern with wildcard support
#[derive(Debug)]
pub struct TopicPatternPath {
    template_pattern: String,
    mqtt_topic_subscription: String,
    segments: Vec<TopicPatternItem>,
    cache_strategy: CacheStrategy,
    parameter_bindings: Option<Vec<Binding>>,
    match_cache: Option<MatchCache>,
}

impl TopicPatternPath {
    /// `#` only at the end, the broker pattern is the rendering of the
    /// items, bindings name existing `{name}` items once each, and there is
    /// a match cache exactly under the LRU strategy, holding only true
    /// matches.
    #[verifier::type_invariant]
    pub(crate) closed spec fn wf(self) -> bool {
        &&& (self.match_cache is Some <==> self.cache_strategy is Lru)
        &&& (self.match_cache matches Some(c) ==> cache_agrees(
            items_view(self.segments@),
            cached_matches(c),
        ))
        &&& hash_only_last(items_view(self.segments@))
        &&& self.mqtt_topic_subscription@ == mqtt_text_of(items_view(self.segments@))
        &&& match self.parameter_bindings {
            Some(b) => bindings_ok(items_view(self.segments@), bindings_view(b@)),
            None => true,
        }
    }

    /// The pattern text as given (named parameters in braces).
    pub closed spec fn spec_template(&self) -> Seq<char> {
        self.template_pattern@
    }

    /// The items of the pattern.
    pub closed spec fn spec_items(&self) -> Seq<ItemView> {
        items_view(self.segments@)
    }

    /// The bound parameter values, if any were bound.
    pub closed spec fn spec_bindings(&self) -> Option<Seq<(Seq<char>, Seq<char>)>> {
        match self.parameter_bindings {
            Some(b) => Some(bindings_view(b@)),
            None => None,
        }
    }

    /// The configured cache strategy.
    pub closed spec fn spec_cache(&self) -> CacheStrategy {
        self.cache_strategy
    }

    /// The pattern text parses to exactly these items.
    pub open spec fn from_text(&self) -> bool {
        spec_parse_pattern(self.spec_template()) == Ok::<Seq<ItemView>, PatternErrorView>(
            self.spec_items(),
        )
    }

    /// Creates a topic pattern from string with the given caching.
    pub fn new_from_string(topic_pattern: &str, cache_strategy: CacheStrategy) -> (r: Result<
        Self,
        TopicPatternError,
    >)
        ensures
            match r {
                Ok(p) => {
                    &&& spec_parse_pattern(topic_pattern@) == Ok::<
                        Seq<ItemView>,
                        PatternErrorView,
                    >(p.spec_items())
                    &&& p.spec_template() == topic_pattern@
                    &&& p.spec_bindings() is None
                    &&& p.spec_cache() == cache_strategy
                },
                Err(e) => spec_parse_pattern(topic_pattern@) == Err::<
                    Seq<ItemView>,
                    PatternErrorView,
                >(e@),
            },
    {
        let cs = chars_of(topic_pattern);
        let ghost s = cs@;
        // Empty or blank text.
        let mut blank = true;
        let mut i: usize = 0;
        while i < cs.len()
            invariant
                0 <= i <= cs.len(),
                s == cs@,
                blank == all_white(s.take(i as int)),
            decreases cs.len() - i,
        {
            let c = cs[i];
            let w = is_white_char(c);
            proof {
                assert(s.take(i + 1).drop_last() =~= s.take(i as int));
                if !w {
                    assert(s.take(i + 1)[i as int] == c);
                }
                if blank && w {
                    assert forall|k: int| 0 <= k < i + 1 implies is_white(
                        #[trigger] s.take(i + 1)[k],
                    ) by {
                        if k < i {
                            assert(s.take(i + 1)[k] == s.take(i as int)[k]);
                        }
                    }
                }
                if !blank {
                    let k = choose|k: int| 0 <= k < i && !is_white(#[trigger] s.take(i as int)[k]);
                    assert(s.take(i + 1)[k] == s.take(i as int)[k]);
                }
            }
            blank = blank && w;
            i = i + 1;
        }
        assert(s.take(cs.len() as int) =~= s);
        if cs.len() == 0 || blank {
            return Err(TopicPatternError::EmptyTopic);
        }
        // Parse each level.
        let mut segments: Vec<TopicPatternItem> = Vec::new();
        assert(s.take(0) =~= Seq::<char>::empty());
        assert(split_levels(s.take(0)).drop_last() =~= Seq::<Seq<char>>::empty());
        assert(items_view(segments@) =~= Seq::<ItemView>::empty());
        assert(s.subrange(0, 0) =~= Seq::<char>::empty());
        let mut start: usize = 0;
        let mut j: usize = 0;
        while j < cs.len()
            invariant
                0 <= start <= j <= cs.len(),
                s == cs@,
                parse_levels(split_levels(s.take(j as int)).drop_last()) == Ok::<
                    Seq<ItemView>,
                    PatternErrorView,
                >(items_view(segments@)),
                split_levels(s.take(j as int)).last() == s.subrange(start as int, j as int),
                split_levels(s.take(j as int)).len() >= 1,
                s == topic_pattern@,
                !(s.len() == 0 || all_white(s)),
            decreases cs.len() - j,
        {
            let ghost prev = split_levels(s.take(j as int));
            proof {
                assert(s.take(j + 1).drop_last() =~= s.take(j as int));
                assert(s.take(j + 1).last() == cs@[j as int]);
            }
            if cs[j] == '/' {
                let r = parse_level(&cs, start, j);
                proof {
                    let next = split_levels(s.take(j + 1));
                    assert(next == prev.push(Seq::<char>::empty()));
                    assert(next.drop_last() =~= prev);
                    assert(prev =~= prev.drop_last().push(prev.last()));
                    lemma_parse_levels_push(prev.drop_last(), prev.last());
                    assert(s.subrange(j + 1, j + 1) =~= Seq::<char>::empty());
                }
                match r {
                    Err(e) => {
                        proof {
                            assert(s.take(j + 1).take(j as int) =~= s.take(j as int));
                            lemma_split_nonempty(s.take(j + 1));
                            lemma_parse_errors_persist(s, j as int + 1, e@);
                        }
                        return Err(e);
                    },
                    Ok(it) => {
                        let ghost before = items_view(segments@);
                        segments.push(it);
                        assert(items_view(segments@) =~= before.push(it@));
                        assert(parse_levels(prev) == Ok::<Seq<ItemView>, PatternErrorView>(
                            before.push(it@),
                        ));
                    },
                }
                start = j + 1;
            } else {
                proof {
                    let next = split_levels(s.take(j + 1));
                    let upd = prev.update(prev.len() - 1, prev.last().push(cs@[j as int]));
                    assert(next == upd);
                    assert(upd.drop_last() =~= prev.drop_last());
                    assert(s.subrange(start as int, j + 1) =~= s.subrange(
                        start as int,
                        j as int,
                    ).push(cs@[j as int]));
                }
            }
            j = j + 1;
        }
        let last = parse_level(&cs, start, cs.len());
        let ghost all = split_levels(s);
        proof {
            assert(all =~= all.drop_last().push(all.last()));
            lemma_parse_levels_push(all.drop_last(), all.last());
        }
        match last {
            Err(e) => {
                return Err(e);
            },
            Ok(it) => {
                let ghost before = items_view(segments@);
                segments.push(it);
                assert(items_view(segments@) =~= before.push(it@));
            },
        }
        let ghost items = items_view(segments@);
        assert(parse_levels(all) == Ok::<Seq<ItemView>, PatternErrorView>(items));
        // Repeated names.
        let dup = find_duplicate_name(&segments);
        match dup {
            Some(k) => {
                let usage = segments[k].as_str();
                return Err(TopicPatternError::wildcard_usage(usage));
            },
            None => {},
        }
        // Position of `#`.
        assert(spec_parse_pattern(topic_pattern@) == if hash_only_last(items) {
            Ok::<Seq<ItemView>, PatternErrorView>(items)
        } else {
            Err::<Seq<ItemView>, PatternErrorView>(PatternErrorView::HashPosition(topic_pattern@))
        });
        let mut h: usize = 0;
        while h < segments.len()
            invariant
                0 <= h <= segments@.len(),
                items == items_view(segments@),
                spec_parse_pattern(topic_pattern@) == if hash_only_last(items) {
                    Ok::<Seq<ItemView>, PatternErrorView>(items)
                } else {
                    Err::<Seq<ItemView>, PatternErrorView>(PatternErrorView::HashPosition(topic_pattern@))
                },
                forall|k: int| 0 <= k < h && k < items.len() - 1 ==> !((#[trigger] items[k]) is Hash),
            decreases segments@.len() - h,
        {
            if segments[h].is_hash() && h != segments.len() - 1 {
                assert(items[h as int] is Hash);
                return Err(TopicPatternError::hash_position(topic_pattern));
            }
            h = h + 1;
        }
        let mqtt = join_item_texts(&segments, false);
        let mut template = String::new();
        append_str(&mut template, topic_pattern);
        assert(template@ =~= topic_pattern@);
        Ok(TopicPatternPath {
            template_pattern: template,
            mqtt_topic_subscription: mqtt,
            segments,
            cache_strategy,
            parameter_bindings: None,
            match_cache: cache_for(cache_strategy),
        })
    }

    /// Get the cache strategy of this topic pattern.
    pub fn cache_strategy(&self) -> (r: CacheStrategy)
        ensures
            r == self.spec_cache(),
    {
        self.cache_strategy
    }

    /// Creates a topic pattern from segments directly; fails when `#` is not
    /// last.
    pub fn new_from_segments(segments: &Vec<TopicPatternItem>) -> (r: Result<
        Self,
        TopicPatternError,
    >)
        ensures
            match r {
                Ok(p) => {
                    &&& hash_only_last(items_view(segments@))
                    &&& p.spec_items() == items_view(segments@)
                    &&& p.spec_template() == template_text_of(items_view(segments@))
                    &&& p.spec_bindings() is None
                    &&& p.spec_cache() == CacheStrategy::NoCache
                },
                Err(e) => {
                    &&& !hash_only_last(items_view(segments@))
                    &&& e@ == PatternErrorView::HashPosition(
                        template_text_of(items_view(segments@)),
                    )
                },
            },
    {
        let ghost items = items_view(segments@);
        let template = join_item_texts(segments, true);
        let mut h: usize = 0;
        while h < segments.len()
            invariant
                0 <= h <= segments@.len(),
                items == items_view(segments@),
                template@ == template_text_of(items),
                forall|k: int| 0 <= k < h && k < items.len() - 1 ==> !((#[trigger] items[k]) is Hash),
            decreases segments@.len() - h,
        {
            if segments[h].is_hash() && h != segments.len() - 1 {
                assert(items[h as int] is Hash);
                return Err(TopicPatternError::hash_position(template.as_str()));
            }
            h = h + 1;
        }
        let mqtt = join_item_texts(segments, false);
        Ok(TopicPatternPath {
            template_pattern: template,
            mqtt_topic_subscription: mqtt,
            segments: copy_items(segments),
            cache_strategy: CacheStrategy::NoCache,
            parameter_bindings: None,
            match_cache: None,
        })
    }

    /// The broker pattern: the items with the bound parameters filled in,
    /// wildcards written as `+` and `#`.
    pub open spec fn spec_mqtt(&self) -> Seq<char> {
        match self.spec_bindings() {
            Some(b) => mqtt_text_of(apply_bindings(self.spec_items(), b)),
            None => mqtt_text_of(self.spec_items()),
        }
    }

    /// Returns MQTT pattern with wildcards for broker subscription, with the
    /// bound parameters filled in.
    pub fn mqtt_pattern(&self) -> (r: String)
        ensures
            r@ == self.spec_mqtt(),
    {
        proof {
            use_type_invariant(self);
        }
        match &self.parameter_bindings {
            Some(bindings) => self.generate_concrete_mqtt_pattern(bindings),
            None => self.mqtt_topic_subscription.clone(),
        }
    }

    /// The broker pattern with the bindings applied.
    fn generate_concrete_mqtt_pattern(&self, bindings: &Vec<Binding>) -> (r: String)
        requires
            bindings_ok(self.spec_items(), bindings_view(bindings@)),
        ensures
            r@ == mqtt_text_of(apply_bindings(self.spec_items(), bindings_view(bindings@))),
    {
        proof {
            use_type_invariant(self);
        }
        if bindings.len() == 0 {
            return self.mqtt_topic_subscription.clone();
        }
        let ghost bs = bindings_view(bindings@);
        let mut new_segments = copy_items(&self.segments);
        let mut i: usize = 0;
        while i < bindings.len()
            invariant
                0 <= i <= bindings@.len(),
                bs == bindings_view(bindings@),
                bindings_ok(self.spec_items(), bs),
                items_view(new_segments@) == apply_bindings(self.spec_items(), bs.take(i as int)),
            decreases bindings@.len() - i,
        {
            let ghost cur = items_view(new_segments@);
            proof {
                assert(bs.take(i + 1).drop_last() =~= bs.take(i as int));
                lemma_binding_present(self.spec_items(), bs, i as int);
            }
            let pos = find_first_plus(&new_segments, &bindings[i].0);
            proof {
                lemma_first_plus_found(cur, bs[i as int].0);
            }
            let v = bindings[i].1.clone();
            new_segments.set(pos, TopicPatternItem::Str(v));
            proof {
                assert(items_view(new_segments@) =~= cur.update(
                    pos as int,
                    ItemView::Str(bs[i as int].1),
                ));
            }
            i = i + 1;
        }
        assert(bs.take(bindings@.len() as int) =~= bs);
        join_item_texts(&new_segments, false)
    }

    /// Returns the pattern text as given, with named parameters.
    pub fn topic_pattern(&self) -> (r: String)
        ensures
            r@ == self.spec_template(),
    {
        self.template_pattern.clone()
    }

    /// Returns true if pattern has no segments.
    pub fn is_empty(&self) -> (r: bool)
        ensures
            r == (self.spec_items().len() == 0),
    {
        self.segments.len() == 0
    }

    /// Returns true if pattern contains multi-level wildcard (#), which can
    /// only stand last.
    pub fn contains_hash(&self) -> (r: bool)
        ensures
            r == (self.spec_items().len() > 0 && self.spec_items().last() is Hash),
    {
        if self.segments.len() == 0 {
            false
        } else {
            self.segments[self.segments.len() - 1].is_hash()
        }
    }

    /// Returns number of segments in pattern (`#` can only stand last).
    pub fn len(&self) -> (r: usize)
        ensures
            r == self.spec_items().len(),
            hash_only_last(self.spec_items()),
    {
        proof {
            use_type_invariant(self);
        }
        self.segments.len()
    }

    /// A pattern that meets its invariant has `#` at most at its end.
    pub(crate) proof fn lemma_hash_only_last(&self)
        requires
            self.wf(),
        ensures
            hash_only_last(self.spec_items()),
    {
    }

    /// Returns pattern segments as slice.
    pub fn slice(&self) -> (r: &[TopicPatternItem])
        ensures
            items_view(r@) == self.spec_items(),
            hash_only_last(self.spec_items()),
    {
        proof {
            use_type_invariant(self);
        }
        self.segments.as_slice()
    }

    /// A copy of the pattern: same text, items, bindings and caching.
    pub fn duplicate(&self) -> (r: Self)
        ensures
            r.spec_items() == self.spec_items(),
            r.spec_template() == self.spec_template(),
            r.spec_bindings() == self.spec_bindings(),
            r.spec_cache() == self.spec_cache(),
    {
        proof {
            use_type_invariant(self);
        }
        let r = TopicPatternPath {
            template_pattern: self.template_pattern.clone(),
            mqtt_topic_subscription: self.mqtt_topic_subscription.clone(),
            segments: copy_items(&self.segments),
            cache_strategy: self.cache_strategy,
            parameter_bindings: match &self.parameter_bindings {
                Some(b) => Some(copy_bindings(b)),
                None => None,
            },
            match_cache: cache_for(self.cache_strategy),
        };
        r
    }

    /// The pattern's items, in order.
    pub fn iter(&self) -> (r: Vec<&TopicPatternItem>)
        ensures
            r@.len() == self.spec_items().len(),
            forall|i: int| 0 <= i < r@.len() ==> (#[trigger] r@[i])@ == self.spec_items()[i],
    {
        let mut r: Vec<&TopicPatternItem> = Vec::new();
        let mut i: usize = 0;
        while i < self.segments.len()
            invariant
                0 <= i <= self.segments@.len(),
                r@.len() == i,
                forall|k: int| 0 <= k < i ==> (#[trigger] r@[k])@ == self.segments@[k]@,
            decreases self.segments@.len() - i,
        {
            r.push(&self.segments[i]);
            i = i + 1;
        }
        r
    }

    /// Returns pattern segments.
    pub fn segments(&self) -> (r: &Vec<TopicPatternItem>)
        ensures
            items_view(r@) == self.spec_items(),
            hash_only_last(self.spec_items()),
    {
        proof {
            use_type_invariant(self);
        }
        &self.segments
    }

    /// The pattern text, as `Display` shows it.
    pub fn to_string(&self) -> (r: String)
        ensures
            r@ == self.spec_template(),
    {
        self.template_pattern.clone()
    }

    /// Formats a topic by substituting the wildcards, in order, with the
    /// given (already rendered) parameters.
    pub fn format_topic(&self, params: &Vec<String>) -> (r: Result<String, TopicFormatError>)
        ensures
            params@.len() != wildcard_count(self.spec_items()) ==> (r matches Err(e) && e@
                == FormatErrorView::ParameterCountMismatch(
                wildcard_count(self.spec_items()) as usize,
                params@.len() as usize,
            )),
            params@.len() == wildcard_count(self.spec_items()) && has_hash(self.spec_items())
                ==> (r matches Err(e) && e@ == FormatErrorView::HashWildcardNotSupported),
            params@.len() == wildcard_count(self.spec_items()) && !has_hash(self.spec_items())
                ==> (r matches Ok(s) && s@ == join_levels(
                formatted_levels(self.spec_items(), strings_view(params@)),
            )),
    {
        proof {
            use_type_invariant(self);
        }
        let ghost items = self.spec_items();
        let ghost ps = strings_view(params@);
        let expected = count_wildcards(&self.segments);
        if params.len() != expected {
            return Err(
                TopicFormatError::ParameterCountMismatch {
                    expected,
                    provided: params.len(),
                },
            );
        }
        let mut result = String::new();
        let mut param_index: usize = 0;
        let mut i: usize = 0;
        while i < self.segments.len()
            invariant
                0 <= i <= self.segments@.len(),
                items == items_view(self.segments@),
                ps == strings_view(params@),
                params@.len() == wildcard_count(items),
                param_index == wildcard_count(items.take(i as int)),
                forall|k: int| 0 <= k < i ==> !((#[trigger] items[k]) is Hash),
                result@ == join_levels(formatted_levels(items.take(i as int), ps)),
            decreases self.segments@.len() - i,
        {
            proof {
                assert(items.take(i + 1).drop_last() =~= items.take(i as int));
                assert(items.take(i + 1).last() == items[i as int]);
                lemma_wildcard_count_prefix(items, i as int + 1);
                lemma_formatted_len(items.take(i as int), ps);
                lemma_join_push(
                    formatted_levels(items.take(i as int), ps),
                    formatted_levels(items.take(i + 1), ps).last(),
                );
                assert(formatted_levels(items.take(i + 1), ps) =~= formatted_levels(
                    items.take(i as int),
                    ps,
                ).push(formatted_levels(items.take(i + 1), ps).last()));
            }
            if i > 0 {
                push_char(&mut result, '/');
            }
            match &self.segments[i] {
                TopicPatternItem::Str(s) => {
                    append_str(&mut result, s.as_str());
                },
                TopicPatternItem::Plus(_) => {
                    proof {
                        assert(items[i as int] == self.segments@[i as int]@);
                        assert(item_is_wildcard(items[i as int]));
                        lemma_wildcard_count_mono(items, i as int + 1);
                        lemma_wildcard_count_prefix(items, i as int + 1);
                        lemma_wildcard_count_bound(items.take(i as int));
                        assert(param_index <= i);
                    }
                    append_str(&mut result, params[param_index].as_str());
                    param_index = param_index + 1;
                },
                TopicPatternItem::Hash(_) => {
                    proof {
                        assert(has_hash(items));
                    }
                    return Err(TopicFormatError::HashWildcardNotSupported);
                },
            }
            i = i + 1;
        }
        assert(items.take(self.segments@.len() as int) =~= items);
        proof {
            if has_hash(items) {
                let k = choose|k: int| 0 <= k < items.len() && (#[trigger] items[k]) is Hash;
                assert(!(items[k] is Hash));
            }
        }
        Ok(result)
    }

    /// Checks if the provided pattern is compatible with this one: static
    /// segments can differ, but the wildcards must be identical in kind,
    /// order and name. Gives back the candidate when they are.
    pub fn check_pattern_compatibility(&self, candidate: TopicPatternPath) -> (r: Result<
        TopicPatternPath,
        TopicPatternError,
    >)
        ensures
            wildcards_of(self.spec_items()) == wildcards_of(candidate.spec_items()) ==> (r
                matches Ok(p) && p == candidate),
            wildcards_of(self.spec_items()) != wildcards_of(candidate.spec_items()) ==> (r
                matches Err(e) && e@ == PatternErrorView::PatternStructureMismatch(
                self.spec_template(),
                candidate.spec_template(),
            )),
    {
        let a = wildcard_positions(&self.segments);
        let b = wildcard_positions(&candidate.segments);
        let ghost wa = wildcards_of(self.spec_items());
        let ghost wb = wildcards_of(candidate.spec_items());
        let mut same = a.len() == b.len();
        if same {
            let mut k: usize = 0;
            while k < a.len() && same_item(&self.segments[a[k]], &candidate.segments[b[k]])
                invariant
                    a@.len() == b@.len(),
                    a@.len() == wa.len(),
                    b@.len() == wb.len(),
                    0 <= k <= a@.len(),
                    forall|m: int|
                        0 <= m < a@.len() ==> #[trigger] a@[m] < self.segments@.len()
                            && self.segments@[a@[m] as int]@ == wa[m],
                    forall|m: int|
                        0 <= m < b@.len() ==> #[trigger] b@[m] < candidate.segments@.len()
                            && candidate.segments@[b@[m] as int]@ == wb[m],
                    forall|m: int| 0 <= m < k ==> wa[m] == wb[m],
                decreases a@.len() - k,
            {
                k = k + 1;
            }
            same = k == a.len();
            proof {
                if same {
                    assert(wa =~= wb);
                } else {
                    assert(a@[k as int] < self.segments@.len());
                    assert(b@[k as int] < candidate.segments@.len());
                    assert(wa[k as int] != wb[k as int]);
                }
            }
        }
        if same {
            Ok(candidate)
        } else {
            Err(
                TopicPatternError::pattern_mismatch(
                    self.template_pattern.as_str(),
                    candidate.template_pattern.as_str(),
                ),
            )
        }
    }

    /// Create new pattern with different cache strategy: the pattern text is
    /// parsed again and the bindings are kept. The text must parse; for a
    /// pattern that was itself parsed from its text, the items stay the same.
    pub fn with_cache_strategy(&self, new_cache: CacheStrategy) -> (r: Self)
        requires
            spec_parse_pattern(self.spec_template()) is Ok,
            self.spec_bindings() matches Some(b) ==> bindings_ok(
                spec_parse_pattern(self.spec_template())->Ok_0,
                b,
            ),
        ensures
            spec_parse_pattern(self.spec_template()) == Ok::<Seq<ItemView>, PatternErrorView>(
                r.spec_items(),
            ),
            self.from_text() ==> r.spec_items() == self.spec_items(),
            r.spec_template() == self.spec_template(),
            r.spec_bindings() == self.spec_bindings(),
            r.spec_cache() == new_cache,
            r.from_text(),
    {
        proof {
            use_type_invariant(self);
        }
        let parsed = TopicPatternPath::new_from_string(self.template_pattern.as_str(), new_cache);
        match parsed {
            Ok(mut p) => {
                proof {
                    use_type_invariant(&p);
                }
                p.parameter_bindings = match &self.parameter_bindings {
                    Some(b) => Some(copy_bindings(b)),
                    None => None,
                };
                p
            },
            Err(_) => {
                proof {
                    assert(false);
                }
                TopicPatternPath::new_from_string(self.template_pattern.as_str(), new_cache).unwrap()
            },
        }
    }

    /// Binds a value to the `{name}` wildcard: an existing binding of the name
    /// is replaced, otherwise one is added. Fails when no `{name}` item exists.
    pub fn bind_parameter(self, param_name: &str, value: &str) -> (r: Result<Self, TopicPatternError>)
        ensures
            has_plus_named(self.spec_items(), param_name@) ==> (r matches Ok(p) && {
                &&& p.spec_items() == self.spec_items()
                &&& p.spec_template() == self.spec_template()
                &&& p.spec_cache() == self.spec_cache()
                &&& p.spec_bindings() == Some(
                    rebind(
                        match self.spec_bindings() {
                            Some(b) => b,
                            None => Seq::empty(),
                        },
                        param_name@,
                        value@,
                    ),
                )
            }),
            !has_plus_named(self.spec_items(), param_name@) ==> (r matches Err(e) && e@
                == PatternErrorView::WildcardUsage(
                "Parameter '"@ + param_name@ + "' not found in pattern '"@ + self.spec_template()
                    + "'"@,
            )),
    {
        proof {
            use_type_invariant(&self);
        }
        let mut name = String::new();
        append_str(&mut name, param_name);
        let mut val = String::new();
        append_str(&mut val, value);
        let exists = find_first_plus(&self.segments, &name);
        proof {
            lemma_first_plus_found(self.spec_items(), param_name@);
        }
        if exists == self.segments.len() {
            let mut msg = String::new();
            append_str(&mut msg, "Parameter '");
            append_str(&mut msg, param_name);
            append_str(&mut msg, "' not found in pattern '");
            append_str(&mut msg, self.template_pattern.as_str());
            append_str(&mut msg, "'");
            return Err(TopicPatternError::WildcardUsage { usage: msg });
        }
        let TopicPatternPath {
            template_pattern,
            mqtt_topic_subscription,
            segments,
            cache_strategy,
            parameter_bindings,
            match_cache,
        } = self;
        let mut bindings = match parameter_bindings {
            Some(b) => b,
            None => Vec::new(),
        };
        let ghost old_b = bindings_view(bindings@);
        let ghost items = items_view(segments@);
        assert(bindings_ok(items, old_b));
        let mut k: usize = 0;
        while k < bindings.len() && !same_text(&bindings[k].0, &name)
            invariant
                0 <= k <= bindings@.len(),
                old_b == bindings_view(bindings@),
                forall|m: int| 0 <= m < k ==> old_b[m].0 != name@,
            decreases bindings@.len() - k,
        {
            k = k + 1;
        }
        let found = k < bindings.len();
        if found {
            let v2 = val;
            let n2 = name;
            bindings.set(k, (n2, v2));
            proof {
                assert(old_b[k as int].0 == param_name@);
                assert forall|kk: int| 0 <= kk < old_b.len() && (#[trigger] old_b[kk]).0 == param_name@ implies kk == k by {
                    if kk > k {
                        assert(old_b[k as int].0 != old_b[kk].0);
                    }
                }
                assert(bindings_view(bindings@) =~= old_b.update(k as int, (param_name@, value@)));
                assert(bindings_ok(items, bindings_view(bindings@))) by {
                    let nb = bindings_view(bindings@);
                    assert forall|a: int, c: int| 0 <= a < c < nb.len() implies (#[trigger] nb[a]).0 != (#[trigger] nb[c]).0 by {
                        assert(nb[a].0 == old_b[a].0);
                        assert(nb[c].0 == old_b[c].0);
                    }
                    assert forall|a: int| 0 <= a < nb.len() implies has_plus_named(items, (#[trigger] nb[a]).0) by {
                        assert(nb[a].0 == old_b[a].0);
                    }
                }
            }
        } else {
            bindings.push((name, val));
            proof {
                assert(!(exists|kk: int| 0 <= kk < old_b.len() && (#[trigger] old_b[kk]).0 == param_name@));
                assert(bindings_view(bindings@) =~= old_b.push((param_name@, value@)));
                assert(bindings_ok(items, bindings_view(bindings@))) by {
                    let nb = bindings_view(bindings@);
                    assert forall|a: int, c: int| 0 <= a < c < nb.len() implies (#[trigger] nb[a]).0 != (#[trigger] nb[c]).0 by {
                        if c < old_b.len() {
                            assert(nb[a].0 == old_b[a].0);
                            assert(nb[c].0 == old_b[c].0);
                        } else {
                            assert(nb[a].0 == old_b[a].0);
                        }
                    }
                    assert forall|a: int| 0 <= a < nb.len() implies has_plus_named(items, (#[trigger] nb[a]).0) by {
                        if a < old_b.len() {
                            assert(nb[a].0 == old_b[a].0);
                        }
                    }
                }
            }
        }
        Ok(TopicPatternPath {
            template_pattern,
            mqtt_topic_subscription,
            segments,
            cache_strategy,
            parameter_bindings: Some(bindings),
            match_cache,
        })
    }

    /// Matches a topic against this pattern, giving the levels covered by
    /// each wildcard. Under the LRU strategy a match found before for the
    /// same topic text is taken from the cache, and a new match is stored
    /// there; the result is the same either way.
    pub fn try_match(&mut self, topic: &TopicPath) -> (r: Result<Arc<TopicMatch>, TopicMatchError>)
        ensures
            match_outcome(old(self).spec_items(), *topic, r),
            final(self).spec_items() == old(self).spec_items(),
            final(self).spec_template() == old(self).spec_template(),
            final(self).spec_bindings() == old(self).spec_bindings(),
            final(self).spec_cache() == old(self).spec_cache(),
    {
        proof {
            use_type_invariant(&*self);
        }
        let ghost items = self.spec_items();
        topic.levels_of_text();
        let key = topic.path_str();
        let hit = lookup_cached(&mut self.match_cache, key);
        match hit {
            Some(m) => {
                return Ok(m);
            },
            None => {},
        }
        let res = self.try_match_internal(topic);
        match res {
            Ok(m) => {
                let shared = Arc::new(m);
                store_cached(&mut self.match_cache, topic.path(), shared.clone());
                Ok(shared)
            },
            Err(e) => Err(e),
        }
    }

    /// The matching itself, without the cache.
    pub fn try_match_internal(&self, topic: &TopicPath) -> (r: Result<TopicMatch, TopicMatchError>)
        ensures
            match r {
                Ok(m) => {
                    &&& match_from(self.spec_items(), topic.levels(), 0) == Ok::<
                        (Seq<LevelRange>, Seq<(Seq<char>, LevelRange)>),
                        MatchErrorView,
                    >((m.spec_params(), m.spec_named()))
                    &&& m.spec_topic().text() == topic.text()
                    &&& m.spec_levels() == topic.levels()
                },
                Err(e) => match_from(self.spec_items(), topic.levels(), 0) == Err::<
                    (Seq<LevelRange>, Seq<(Seq<char>, LevelRange)>),
                    MatchErrorView,
                >(e@),
            },
    {
        let ghost items = self.spec_items();
        let ghost levels = topic.levels();
        let tsegs = topic.segments();
        let n = tsegs.len();
        let mut params: Vec<LevelRange> = Vec::new();
        let mut named_params: Vec<(String, LevelRange)> = Vec::new();
        let mut i: usize = 0;
        while i < self.segments.len()
            invariant
                0 <= i <= self.segments@.len(),
                i <= n,
                n == tsegs@.len(),
                strings_view(tsegs@) == levels,
                items == items_view(self.segments@),
                levels == topic.levels(),
                levels.len() == n,
                match_from(items, levels, 0) == prefixed(
                    params@,
                    named_view(named_params@),
                    match_from(items, levels, i as nat),
                ),
                forall|k: int| 0 <= k < params@.len() ==> range_ok(#[trigger] params@[k], n as nat),
                forall|k: int|
                    0 <= k < named_params@.len() ==> range_ok(
                        (#[trigger] named_params@[k]).1,
                        n as nat,
                    ),
            decreases self.segments@.len() - i,
        {
            match &self.segments[i] {
                TopicPatternItem::Str(expected) => {
                    if i >= n {
                        return Err(TopicMatchError::UnexpectedEndOfTopic);
                    }
                    if !same_text(&tsegs[i], expected) {
                        return Err(
                            TopicMatchError::SegmentMismatch {
                                expected: expected.clone(),
                                found: tsegs[i].clone(),
                                position: i,
                            },
                        );
                    }
                    i = i + 1;
                },
                TopicPatternItem::Plus(opt_name) => {
                    if i >= n {
                        return Err(TopicMatchError::UnexpectedEndOfTopic);
                    }
                    let range = (i, i + 1);
                    let ghost p0 = params@;
                    let ghost n0 = named_view(named_params@);
                    params.push(range);
                    match opt_name {
                        Some(name) => {
                            named_params.push((name.clone(), range));
                        },
                        None => {},
                    }
                    proof {
                        assert(named_view(named_params@) =~= n0 + named_range(
                            opt_view(*opt_name),
                            range,
                        ));
                        assert(params@ =~= p0 + seq![range]);
                        lemma_prefixed_assoc(
                            p0,
                            n0,
                            seq![range],
                            named_range(opt_view(*opt_name), range),
                            match_from(items, levels, (i + 1) as nat),
                        );
                    }
                    i = i + 1;
                },
                TopicPatternItem::Hash(opt_name) => {
                    let range = (i, n);
                    let ghost p0 = params@;
                    let ghost n0 = named_view(named_params@);
                    params.push(range);
                    match opt_name {
                        Some(name) => {
                            named_params.push((name.clone(), range));
                        },
                        None => {},
                    }
                    if i < self.segments.len() - 1 {
                        return Err(TopicMatchError::UnexpectedHashSegment);
                    }
                    proof {
                        assert(named_view(named_params@) =~= n0 + named_range(
                            opt_view(*opt_name),
                            range,
                        ));
                        assert(params@ =~= p0 + seq![range]);
                    }
                    let t = topic.duplicate();
                    return Ok(TopicMatch::from_match_result(t, params, named_params));
                },
            }
        }
        if i < n {
            return Err(TopicMatchError::UnexpectedEndOfPattern);
        }
        proof {
            assert(params@ =~= params@ + Seq::<LevelRange>::empty());
            assert(named_view(named_params@) =~= named_view(named_params@) + Seq::<
                (Seq<char>, LevelRange),
            >::empty());
        }
        let t = topic.duplicate();
        Ok(TopicMatch::from_match_result(t, params, named_params))
    }

    /// Converts segments to the broker form: `sensors/+/data`.
    pub fn to_mqtt_subscription_pattern(segments: &Vec<TopicPatternItem>) -> (r: String)
        ensures
            r@ == mqtt_text_of(items_view(segments@)),
    {
        join_item_texts(segments, false)
    }

    /// Converts segments to the template form: `sensors/{sensor_id}/data`.
    pub fn to_template_pattern(segments: &Vec<TopicPatternItem>) -> (r: String)
        ensures
            r@ == template_text_of(items_view(segments@)),
    {
        join_item_texts(segments, true)
    }
}

/// Some item is `#`.
pub open spec fn has_hash(items: Seq<ItemView>) -> bool {
    exists|k: int| 0 <= k < items.len() && (#[trigger] items[k]) is Hash
}

/// Whether a character is white space (`char::is_whitespace`).
pub fn is_white_char(c: char) -> (r: bool)
    ensures
        r == is_white(c),
{
    ('\u{9}' <= c && c <= '\u{d}') || c == ' ' || c == '\u{85}' || c == '\u{a0}' || c
        == '\u{1680}' || ('\u{2000}' <= c && c <= '\u{200a}') || c == '\u{2028}' || c
        == '\u{2029}' || c == '\u{202f}' || c == '\u{205f}' || c == '\u{3000}'
}

/// Putting more ranges in front of a prefixed outcome.
proof fn lemma_prefixed_assoc(
    p0: Seq<LevelRange>,
    n0: Seq<(Seq<char>, LevelRange)>,
    p1: Seq<LevelRange>,
    n1: Seq<(Seq<char>, LevelRange)>,
    o: MatchOutcome,
)
    ensures
        prefixed(p0, n0, prefixed(p1, n1, o)) == prefixed(p0 + p1, n0 + n1, o),
{
    match o {
        Ok((p2, n2)) => {
            assert(p0 + (p1 + p2) =~= (p0 + p1) + p2);
            assert(n0 + (n1 + n2) =~= (n0 + n1) + n2);
        },
        Err(_) => {},
    }
}

/// Once a completed level (one followed by `/`) fails to parse, its error
/// is the error of the whole split.
proof fn lemma_parse_errors_persist(s: Seq<char>, j: int, e: PatternErrorView)
    requires
        0 <= j <= s.len(),
        split_levels(s.take(j)).len() >= 1,
        parse_levels(split_levels(s.take(j)).drop_last()) == Err::<Seq<ItemView>, PatternErrorView>(e),
    ensures
        parse_levels(split_levels(s)) == Err::<Seq<ItemView>, PatternErrorView>(e),
    decreases s.len() - j,
{
    if j < s.len() {
        let t = s.take(j + 1);
        assert(t.drop_last() =~= s.take(j));
        let prev = split_levels(s.take(j));
        if t.last() == '/' {
            assert(split_levels(t) == prev.push(Seq::<char>::empty()));
            assert(prev.push(Seq::<char>::empty()).drop_last() =~= prev);
        } else {
            let upd = prev.update(prev.len() - 1, prev.last().push(t.last()));
            assert(split_levels(t) == upd);
            assert(upd.drop_last() =~= prev.drop_last());
        }
        assert(s.take(j + 1) == t);
        lemma_parse_errors_persist(s, j + 1, e);
    } else {
        assert(s.take(j) =~= s);
    }
}

/// The count of wildcards in one more item.
proof fn lemma_wildcard_count_prefix(items: Seq<ItemView>, j: int)
    requires
        1 <= j <= items.len(),
    ensures
        wildcard_count(items.take(j)) == wildcard_count(items.take(j - 1)) + if item_is_wildcard(
            items[j - 1],
        ) {
            1nat
        } else {
            0nat
        },
{
    assert(items.take(j).drop_last() =~= items.take(j - 1));
}

/// A prefix has no more wildcards than the whole.
proof fn lemma_wildcard_count_mono(items: Seq<ItemView>, j: int)
    requires
        0 <= j <= items.len(),
    ensures
        wildcard_count(items.take(j)) <= wildcard_count(items),
    decreases items.len() - j,
{
    if j < items.len() {
        lemma_wildcard_count_prefix(items, j + 1);
        lemma_wildcard_count_mono(items, j + 1);
    } else {
        assert(items.take(j) =~= items);
    }
}

/// There is one formatted level per item.
proof fn lemma_formatted_len(items: Seq<ItemView>, ps: Seq<Seq<char>>)
    ensures
        formatted_levels(items, ps).len() == items.len(),
    decreases items.len(),
{
    if items.len() > 0 {
        lemma_formatted_len(items.drop_last(), ps);
    }
}

/// The count of wildcards never exceeds the number of items.
proof fn lemma_wildcard_count_bound(items: Seq<ItemView>)
    ensures
        wildcard_count(items) <= items.len(),
    decreases items.len(),
{
    if items.len() > 0 {
        lemma_wildcard_count_bound(items.drop_last());
    }
}

/// The number of wildcards in the items.
fn count_wildcards(segments: &Vec<TopicPatternItem>) -> (r: usize)
    ensures
        r == wildcard_count(items_view(segments@)),
{
    let ghost items = items_view(segments@);
    let mut count: usize = 0;
    let mut i: usize = 0;
    while i < segments.len()
        invariant
            0 <= i <= segments@.len(),
            items == items_view(segments@),
            count == wildcard_count(items.take(i as int)),
            count <= i,
        decreases segments@.len() - i,
    {
        proof {
            lemma_wildcard_count_prefix(items, i as int + 1);
        }
        if segments[i].is_wildcard() {
            count = count + 1;
        }
        i = i + 1;
    }
    assert(items.take(segments@.len() as int) =~= items);
    count
}

/// The positions of the wildcards, in order.
fn wildcard_positions(segments: &Vec<TopicPatternItem>) -> (r: Vec<usize>)
    ensures
        r@.len() == wildcards_of(items_view(segments@)).len(),
        forall|m: int|
            0 <= m < r@.len() ==> #[trigger] r@[m] < segments@.len() && segments@[r@[m] as int]@
                == wildcards_of(items_view(segments@))[m],
{
    let ghost items = items_view(segments@);
    let mut r: Vec<usize> = Vec::new();
    let mut i: usize = 0;
    while i < segments.len()
        invariant
            0 <= i <= segments@.len(),
            items == items_view(segments@),
            r@.len() == wildcards_of(items.take(i as int)).len(),
            forall|m: int|
                0 <= m < r@.len() ==> #[trigger] r@[m] < i && segments@[r@[m] as int]@
                    == wildcards_of(items.take(i as int))[m],
        decreases segments@.len() - i,
    {
        proof {
            assert(items.take(i + 1).drop_last() =~= items.take(i as int));
            assert(items.take(i + 1).last() == items[i as int]);
        }
        let ghost prev = wildcards_of(items.take(i as int));
        let ghost old_r = r@;
        assert(items[i as int] == segments@[i as int]@);
        if segments[i].is_wildcard() {
            r.push(i);
            assert(wildcards_of(items.take(i + 1)) == prev.push(items[i as int]));
            assert forall|m: int| 0 <= m < r@.len() implies r@[m] < i + 1 && segments@[r@[m] as int]@ == wildcards_of(
                items.take(i + 1),
            )[m] by {
                if m < old_r.len() {
                    assert(r@[m] == old_r[m]);
                }
            }
        } else {
            assert(wildcards_of(items.take(i + 1)) == prev);
        }
        i = i + 1;
    }
    assert(items.take(segments@.len() as int) =~= items);
    r
}

/// The index of the first `{name}` item, or the number of items when there
/// is none.
fn find_first_plus(segments: &Vec<TopicPatternItem>, name: &String) -> (r: usize)
    ensures
        r <= segments@.len(),
        r < segments@.len() ==> r == first_plus_named(items_view(segments@), name@),
        r == segments@.len() ==> first_plus_named(items_view(segments@), name@) == -1,
{
    let ghost items = items_view(segments@);
    let mut i: usize = 0;
    while i < segments.len()
        invariant
            0 <= i <= segments@.len(),
            items == items_view(segments@),
            first_plus_named(items.take(i as int), name@) == -1,
        decreases segments@.len() - i,
    {
        proof {
            assert(items.take(i + 1).drop_last() =~= items.take(i as int));
            assert(items.take(i + 1).last() == items[i as int]);
        }
        let hit = match &segments[i] {
            TopicPatternItem::Plus(Some(n)) => same_text(n, name),
            _ => false,
        };
        if hit {
            proof {
                lemma_first_plus_prefix(items, i as int + 1, name@);
            }
            return i;
        }
        i = i + 1;
    }
    assert(items.take(segments@.len() as int) =~= items);
    segments.len()
}

/// The first `{n}` of a prefix that has one is the first of the whole.
proof fn lemma_first_plus_prefix(items: Seq<ItemView>, j: int, n: Seq<char>)
    requires
        0 <= j <= items.len(),
        first_plus_named(items.take(j), n) >= 0,
    ensures
        first_plus_named(items, n) == first_plus_named(items.take(j), n),
    decreases items.len() - j,
{
    if j < items.len() {
        assert(items.take(j + 1).drop_last() =~= items.take(j));
        lemma_first_plus_prefix(items, j + 1, n);
    } else {
        assert(items.take(j) =~= items);
    }
}

/// `first_plus_named` finds a `{n}` item exactly when one exists.
proof fn lemma_first_plus_found(items: Seq<ItemView>, n: Seq<char>)
    ensures
        has_plus_named(items, n) <==> first_plus_named(items, n) >= 0,
        first_plus_named(items, n) >= 0 ==> first_plus_named(items, n) < items.len()
            && items[first_plus_named(items, n)] == ItemView::Plus(Some(n)),
        first_plus_named(items, n) >= -1,
    decreases items.len(),
{
    if items.len() > 0 {
        let p = items.drop_last();
        lemma_first_plus_found(p, n);
        if has_plus_named(items, n) {
            let i = choose|i: int| 0 <= i < items.len() && #[trigger] items[i] == ItemView::Plus(
                Some(n),
            );
            if i < items.len() - 1 {
                assert(p[i] == items[i]);
            }
        }
        if has_plus_named(p, n) {
            let i = choose|i: int| 0 <= i < p.len() && #[trigger] p[i] == ItemView::Plus(Some(n));
            assert(items[i] == p[i]);
        }
    }
}

/// Applying the bindings before binding `k` leaves the `{name}` item of
/// binding `k` in place.
proof fn lemma_binding_present(items: Seq<ItemView>, bs: Seq<(Seq<char>, Seq<char>)>, k: int)
    requires
        bindings_ok(items, bs),
        0 <= k < bs.len(),
    ensures
        has_plus_named(apply_bindings(items, bs.take(k)), bs[k].0),
        apply_bindings(items, bs.take(k)).len() == items.len(),
    decreases k,
{
    let n = bs[k].0;
    if k == 0 {
        assert(bs.take(0) =~= Seq::<(Seq<char>, Seq<char>)>::empty());
        assert(has_plus_named(items, bs[k].0));
    } else {
        lemma_binding_present(items, bs, k - 1);
        let prev = apply_bindings(items, bs.take(k - 1));
        assert(bs.take(k).drop_last() =~= bs.take(k - 1));
        assert(bs.take(k).last() == bs[k - 1]);
        let m = bs[k - 1].0;
        assert(m != n);
        // `n` was present in `items`; show it is still present in `prev`.
        lemma_binding_present_any(items, bs, k - 1, n);
        lemma_first_plus_found(prev, m);
        let cur = replace_first_plus(prev, m, bs[k - 1].1);
        assert(has_plus_named(prev, n));
        let i = choose|i: int| 0 <= i < prev.len() && #[trigger] prev[i] == ItemView::Plus(Some(n));
        let p = first_plus_named(prev, m);
        if p >= 0 {
            assert(p != i);
            assert(cur[i] == prev[i]);
        }
        assert(cur[i] == ItemView::Plus(Some(n)));
    }
}

/// A `{n}` item whose name is not bound by the first `k` bindings survives
/// them.
proof fn lemma_binding_present_any(
    items: Seq<ItemView>,
    bs: Seq<(Seq<char>, Seq<char>)>,
    k: int,
    n: Seq<char>,
)
    requires
        bindings_ok(items, bs),
        0 <= k <= bs.len(),
        has_plus_named(items, n),
        forall|j: int| 0 <= j < k ==> (#[trigger] bs[j]).0 != n,
    ensures
        has_plus_named(apply_bindings(items, bs.take(k)), n),
        apply_bindings(items, bs.take(k)).len() == items.len(),
    decreases k,
{
    if k == 0 {
        assert(bs.take(0) =~= Seq::<(Seq<char>, Seq<char>)>::empty());
    } else {
        lemma_binding_present_any(items, bs, k - 1, n);
        let prev = apply_bindings(items, bs.take(k - 1));
        assert(bs.take(k).drop_last() =~= bs.take(k - 1));
        assert(bs.take(k).last() == bs[k - 1]);
        let m = bs[k - 1].0;
        lemma_first_plus_found(prev, m);
        let cur = replace_first_plus(prev, m, bs[k - 1].1);
        let i = choose|i: int| 0 <= i < prev.len() && #[trigger] prev[i] == ItemView::Plus(Some(n));
        let p = first_plus_named(prev, m);
        if p >= 0 {
            assert(p != i);
            assert(cur[i] == prev[i]);
        }
        assert(cur[i] == ItemView::Plus(Some(n)));
    }
}

/// The index of the first named wildcard whose name occurred before it.
fn find_duplicate_name(segments: &Vec<TopicPatternItem>) -> (r: Option<usize>)
    ensures
        match r {
            Some(k) => k < segments@.len() && first_duplicate_name(items_view(segments@)) == Some(
                k as int,
            ),
            None => first_duplicate_name(items_view(segments@)) is None,
        },
{
    let ghost items = items_view(segments@);
    let mut j: usize = 0;
    while j < segments.len()
        invariant
            0 <= j <= segments@.len(),
            items == items_view(segments@),
            first_duplicate_name(items.take(j as int)) is None,
        decreases segments@.len() - j,
    {
        proof {
            assert(items.take(j + 1).drop_last() =~= items.take(j as int));
            assert(items.take(j + 1).last() == items[j as int]);
        }
        let name = segments[j].param_name();
        assert(opt_view(name) == item_name(items[j as int]));
        match name {
            Some(n) => {
                assert(item_name(items[j as int]) == Some(n@));
                let mut i: usize = 0;
                while i < j
                    invariant
                        0 <= i <= j < segments@.len(),
                        items == items_view(segments@),
                        first_duplicate_name(items.take(j as int)) is None,
                        item_name(items[j as int]) == Some(n@),
                        forall|m: int| 0 <= m < i ==> item_name(#[trigger] items[m]) != Some(n@),
                    decreases j - i,
                {
                    let other = segments[i].param_name();
                    assert(opt_view(other) == item_name(items[i as int]));
                    let hit = match &other {
                        Some(o) => same_text(o, &n),
                        None => false,
                    };
                    if hit {
                        proof {
                            assert(items.take(j + 1).drop_last() =~= items.take(j as int));
                            assert(items.take(j + 1).last() == items[j as int]);
                            assert(item_name(items[i as int]) == opt_view(other));
                            assert(items.take(j as int)[i as int] == items[i as int]);
                            assert(has_name(items.take(j as int), n@));
                            assert(first_duplicate_name(items.take(j + 1)) == Some(j as int));
                            lemma_first_dup_prefix(items, j as int + 1);
                        }
                        return Some(j);
                    }
                    i = i + 1;
                }
                proof {
                    if has_name(items.take(j as int), n@) {
                        let m = choose|m: int| 0 <= m < j && item_name(#[trigger] items.take(j as int)[m]) == Some(n@);
                        assert(items.take(j as int)[m] == items[m]);
                    }
                    assert(first_duplicate_name(items.take(j + 1)) is None);
                }
            },
            None => {
                assert(first_duplicate_name(items.take(j + 1)) is None);
            },
        }
        j = j + 1;
    }
    assert(items.take(segments@.len() as int) =~= items);
    None
}

/// A duplicate found in a prefix is the first duplicate of the whole.
proof fn lemma_first_dup_prefix(items: Seq<ItemView>, j: int)
    requires
        0 <= j <= items.len(),
        first_duplicate_name(items.take(j)) is Some,
    ensures
        first_duplicate_name(items) == first_duplicate_name(items.take(j)),
    decreases items.len() - j,
{
    if j < items.len() {
        assert(items.take(j + 1).drop_last() =~= items.take(j));
        lemma_first_dup_prefix(items, j + 1);
    } else {
        assert(items.take(j) =~= items);
    }
}

/// Matching from level `i` on succeeds exactly when the remaining items
/// match the remaining levels by the MQTT rules.
proof fn lemma_match_from_ok(items: Seq<ItemView>, levels: Seq<Seq<char>>, i: nat)
    requires
        hash_only_last(items),
        i <= items.len(),
        i <= levels.len(),
    ensures
        (match_from(items, levels, i) is Ok) == topic_matches(
            items.skip(i as int),
            levels.skip(i as int),
        ),
    decreases items.len() - i,
{
    let is = items.skip(i as int);
    let ls = levels.skip(i as int);
    if i < items.len() {
        assert(is[0] == items[i as int]);
        if i < levels.len() {
            assert(ls[0] == levels[i as int]);
            assert(is.drop_first() =~= items.skip(i as int + 1));
            assert(ls.drop_first() =~= levels.skip(i as int + 1));
            match items[i as int] {
                ItemView::Hash(_) => {},
                _ => {
                    lemma_match_from_ok(items, levels, i + 1);
                },
            }
        }
    }
}

/// A pattern accepts a topic exactly when the MQTT wildcard rules say it
/// matches: a literal level must be equal, `+` takes any one level, and `#`
/// takes the rest of the topic, none included.
pub proof fn law_match_is_mqtt_matching(items: Seq<ItemView>, levels: Seq<Seq<char>>)
    requires
        hash_only_last(items),
    ensures
        (match_from(items, levels, 0) is Ok) == topic_matches(items, levels),
{
    lemma_match_from_ok(items, levels, 0);
    assert(items.skip(0) =~= items);
    assert(levels.skip(0) =~= levels);
}


/// The level at position `i` of a formatted topic: the literal, or the
/// parameter of that wildcard.
proof fn lemma_formatted_at(items: Seq<ItemView>, params: Seq<Seq<char>>, i: int)
    requires
        0 <= i < items.len(),
    ensures
        formatted_levels(items, params)[i] == match items[i] {
            ItemView::Str(s) => s,
            _ => params[wildcard_count(items.take(i)) as int],
        },
    decreases items.len(),
{
    lemma_formatted_len(items.drop_last(), params);
    if i < items.len() - 1 {
        lemma_formatted_at(items.drop_last(), params, i);
        assert(items.drop_last().take(i) =~= items.take(i));
        assert(items.drop_last()[i] == items[i]);
    } else {
        assert(items.take(i) =~= items.drop_last());
    }
}

/// Counting the wildcards of one more item.
proof fn lemma_wildcard_count_step(items: Seq<ItemView>, i: int)
    requires
        0 <= i < items.len(),
    ensures
        wildcard_count(items.take(i + 1)) == wildcard_count(items.take(i)) + if item_is_wildcard(
            items[i],
        ) {
            1nat
        } else {
            0nat
        },
{
    assert(items.take(i + 1).drop_last() =~= items.take(i));
    assert(items.take(i + 1).last() == items[i]);
}

/// Matching a formatted topic from item `i` on succeeds, and the wildcard
/// ranges cover the parameters from the `i`-th item's wildcard on.
proof fn lemma_match_formatted(items: Seq<ItemView>, params: Seq<Seq<char>>, i: nat)
    requires
        !has_hash(items),
        params.len() == wildcard_count(items),
        i <= items.len(),
        items.len() < usize::MAX,
    ensures
        match_from(items, formatted_levels(items, params), i) matches Ok((ranges, named)) && ranges.len()
            + wildcard_count(items.take(i as int)) == wildcard_count(items) && forall|j: int|
            0 <= j < ranges.len() ==> range_text(formatted_levels(items, params), #[trigger] ranges[j])
                == params[wildcard_count(items.take(i as int)) + j],
    decreases items.len() - i,
{
    let levels = formatted_levels(items, params);
    lemma_formatted_len(items, params);
    if i == items.len() {
        assert(items.take(i as int) =~= items);
    } else {
        lemma_match_formatted(items, params, i + 1);
        lemma_wildcard_count_step(items, i as int);
        lemma_formatted_at(items, params, i as int);
        lemma_wildcard_count_mono(items, i as int + 1);
        match items[i as int] {
            ItemView::Str(_) => {},
            ItemView::Plus(n) => {
                let rest = match_from(items, levels, i + 1)->Ok_0;
                let r = (i as usize, (i + 1) as usize);
                assert(levels.subrange(i as int, i as int + 1) =~= seq![levels[i as int]]);
                let ranges = seq![r] + rest.0;
                assert forall|j: int| 0 <= j < ranges.len() implies range_text(levels, #[trigger] ranges[j])
                    == params[wildcard_count(items.take(i as int)) + j] by {
                    if j > 0 {
                        assert(ranges[j] == rest.0[j - 1]);
                    }
                }
            },
            ItemView::Hash(_) => {
                assert(has_hash(items));
            },
        }
    }
}

/// Formatting a pattern without `#` with parameters that hold no `/`, then
/// splitting the topic and matching it against the pattern, succeeds and
/// gives the parameters back, in order, one per wildcard.
pub proof fn law_format_then_match(items: Seq<ItemView>, params: Seq<Seq<char>>)
    requires
        items.len() > 0,
        items.len() < usize::MAX,
        !has_hash(items),
        forall|i: int| 0 <= i < items.len() ==> (#[trigger] items[i] matches ItemView::Str(s) ==> !s.contains(slash())),
        params.len() == wildcard_count(items),
        levels_free_of_slash(params),
    ensures
        split_levels(join_levels(formatted_levels(items, params))) == formatted_levels(items, params),
        match_from(items, formatted_levels(items, params), 0) matches Ok((ranges, named)) && ranges.len()
            == params.len() && forall|j: int|
            0 <= j < ranges.len() ==> range_text(formatted_levels(items, params), #[trigger] ranges[j])
                == params[j],
{
    let levels = formatted_levels(items, params);
    lemma_formatted_len(items, params);
    assert forall|i: int| 0 <= i < levels.len() implies !(#[trigger] levels[i]).contains(slash()) by {
        lemma_formatted_at(items, params, i);
        match items[i] {
            ItemView::Str(_) => {},
            _ => {
                lemma_wildcard_count_mono(items, i);
                lemma_wildcard_count_step(items, i);
                lemma_wildcard_count_mono(items, i + 1);
                assert(!params[wildcard_count(items.take(i)) as int].contains(slash()));
            },
        }
    }
    lemma_split_join(levels);
    lemma_match_formatted(items, params, 0);
    assert(items.take(0) =~= Seq::<ItemView>::empty());
}

/// The cache never changes what a match gives: two patterns parsed from
/// the same text, whatever their cache strategies and whatever their caches
/// hold, match a topic alike: both succeed with the same wildcard ranges,
/// or both fail with the same error.
pub proof fn law_cache_does_not_change_matches(
    text: Seq<char>,
    p1: TopicPatternPath,
    p2: TopicPatternPath,
    topic: TopicPath,
    r1: Result<Arc<TopicMatch>, TopicMatchError>,
    r2: Result<Arc<TopicMatch>, TopicMatchError>,
)
    requires
        spec_parse_pattern(text) == Ok::<Seq<ItemView>, PatternErrorView>(p1.spec_items()),
        spec_parse_pattern(text) == Ok::<Seq<ItemView>, PatternErrorView>(p2.spec_items()),
        match_outcome(p1.spec_items(), topic, r1),
        match_outcome(p2.spec_items(), topic, r2),
    ensures
        r1 is Ok <==> r2 is Ok,
        r1 matches Ok(m1) ==> (r2 matches Ok(m2) && {
            &&& (*m1).spec_params() == (*m2).spec_params()
            &&& (*m1).spec_named() == (*m2).spec_named()
            &&& (*m1).spec_levels() == (*m2).spec_levels()
            &&& (*m1).spec_topic().text() == (*m2).spec_topic().text()
        }),
        r1 matches Err(e1) ==> (r2 matches Err(e2) && e1@ == e2@),
{
}

/// Matching from item `i` on, with the last item a `#` at or after `i`:
/// the last range found is the `#`'s, from its own position to the end of
/// the topic, and a named `#` records that same range under its name.
proof fn lemma_hash_range_is_last(items: Seq<ItemView>, levels: Seq<Seq<char>>, i: nat)
    requires
        items.len() > 0,
        items.last() is Hash,
        i <= items.len() - 1,
        match_from(items, levels, i) is Ok,
    ensures
        ({
            let (params, named) = match_from(items, levels, i)->Ok_0;
            &&& params.len() > 0
            &&& params.last() == ((items.len() - 1) as usize, levels.len() as usize)
            &&& items.last()->Hash_0 matches Some(name) ==> named.len() > 0 && named.last() == (
                name,
                params.last(),
            )
        }),
    decreases items.len() - i,
{
    let last = (items.len() - 1) as int;
    if i < last {
        assert(!(items[i as int] is Hash));
        lemma_hash_range_is_last(items, levels, i + 1);
        let (p2, n2) = match_from(items, levels, i + 1)->Ok_0;
        match items[i as int] {
            ItemView::Plus(n) => {
                let p = seq![(i as usize, (i + 1) as usize)] + p2;
                let nm = named_range(n, (i as usize, (i + 1) as usize)) + n2;
                assert(p.last() == p2.last());
                match items.last()->Hash_0 {
                    Some(name) => {
                        assert(nm.last() == n2.last());
                    },
                    None => {},
                }
            },
            _ => {},
        }
    }
}

/// A `#` wildcard covers the rest of the topic: when a pattern ends in `#`
/// at position `k` and a topic of `n` levels matches it, the last wildcard
/// range is `(k, n)`, so its text is all the topic's levels from `k` on
/// joined by `/`; a named `#` gives the same range under its name. This is
/// what `try_match` and `try_match_internal` give for such a topic.
pub proof fn law_hash_covers_rest_of_topic(
    items: Seq<ItemView>,
    levels: Seq<Seq<char>>,
    params: Seq<LevelRange>,
    named: Seq<(Seq<char>, LevelRange)>,
)
    requires
        items.len() > 0,
        items.last() is Hash,
        levels.len() <= usize::MAX,
        match_from(items, levels, 0) == Ok::<
            (Seq<LevelRange>, Seq<(Seq<char>, LevelRange)>),
            MatchErrorView,
        >((params, named)),
    ensures
        params.len() > 0,
        params.last() == ((items.len() - 1) as usize, levels.len() as usize),
        items.len() - 1 <= levels.len(),
        range_text(levels, params.last()) == join_levels(
            levels.subrange(items.len() - 1, levels.len() as int),
        ),
        items.last()->Hash_0 matches Some(name) ==> named.len() > 0 && named.last() == (
            name,
            params.last(),
        ),
{
    lemma_hash_range_is_last(items, levels, 0);
    lemma_match_consumes_prefix(items, levels, 0);
}

/// A successful match from item `i` on has a topic level for every item
/// before the last one.
proof fn lemma_match_consumes_prefix(items: Seq<ItemView>, levels: Seq<Seq<char>>, i: nat)
    requires
        items.len() > 0,
        items.last() is Hash,
        i <= items.len() - 1,
        i <= levels.len(),
        match_from(items, levels, i) is Ok,
    ensures
        items.len() - 1 <= levels.len(),
    decreases items.len() - i,
{
    if i < items.len() - 1 {
        assert(!(items[i as int] is Hash));
        assert(i < levels.len());
        lemma_match_consumes_prefix(items, levels, i + 1);
    }
}

/// No parameter name is used twice in a pattern that parses: named `+` and
/// named `#` wildcards alike carry pairwise different names.
pub proof fn law_parsed_names_distinct(text: Seq<char>, items: Seq<ItemView>)
    requires
        spec_parse_pattern(text) == Ok::<Seq<ItemView>, PatternErrorView>(items),
    ensures
        forall|i: int, j: int|
            0 <= i < j < items.len() && (#[trigger] item_name(items[i])) is Some ==> #[trigger] item_name(
                items[j],
            ) != item_name(items[i]),
{
    lemma_no_duplicate_distinct(items);
}

/// Without a repeated name found, the names are pairwise different.
proof fn lemma_no_duplicate_distinct(items: Seq<ItemView>)
    requires
        first_duplicate_name(items) is None,
    ensures
        forall|i: int, j: int|
            0 <= i < j < items.len() && (#[trigger] item_name(items[i])) is Some ==> #[trigger] item_name(
                items[j],
            ) != item_name(items[i]),
    decreases items.len(),
{
    if items.len() > 0 {
        let d = items.drop_last();
        lemma_no_duplicate_distinct(d);
        assert forall|i: int, j: int|
            0 <= i < j < items.len() && (#[trigger] item_name(items[i])) is Some implies #[trigger] item_name(
                items[j],
            ) != item_name(items[i]) by {
            if j < items.len() - 1 {
                assert(items[i] == d[i]);
                assert(items[j] == d[j]);
            } else {
                let n = item_name(items[i])->Some_0;
                if item_name(items[j]) == Some(n) {
                    assert(items[j] == items.last());
                    assert(d[i] == items[i]);
                    assert(has_name(d, n));
                }
            }
        }
    }
}

/// The levels a wildcard at position `k` covers: its own level for `+`,
/// every level from `k` on for `#`.
pub open spec fn wildcard_range(items: Seq<ItemView>, levels: Seq<Seq<char>>, k: int) -> LevelRange {
    if items[k] is Hash {
        (k as usize, levels.len() as usize)
    } else {
        (k as usize, (k + 1) as usize)
    }
}

/// The ranges `p` and named ranges `nm` found from item `i` on are those
/// of the wildcards from `i` on, in order.
spec fn ranges_per_wildcard(
    items: Seq<ItemView>,
    levels: Seq<Seq<char>>,
    i: int,
    p: Seq<LevelRange>,
    nm: Seq<(Seq<char>, LevelRange)>,
) -> bool {
    &&& forall|j: int|
        0 <= j < p.len() ==> {
            &&& i <= (#[trigger] p[j]).0 < items.len()
            &&& item_is_wildcard(items[p[j].0 as int])
            &&& p[j] == wildcard_range(items, levels, p[j].0 as int)
        }
    &&& forall|k: int|
        i <= k < items.len() && item_is_wildcard(#[trigger] items[k]) ==> exists|j: int|
            0 <= j < p.len() && (#[trigger] p[j]).0 == k
    &&& forall|a: int, b: int| 0 <= a < b < p.len() ==> (#[trigger] p[a]).0 < (#[trigger] p[b]).0
    &&& forall|j: int|
        0 <= j < nm.len() ==> {
            &&& i <= (#[trigger] nm[j]).1.0 < items.len()
            &&& item_name(items[nm[j].1.0 as int]) == Some(nm[j].0)
            &&& nm[j].1 == wildcard_range(items, levels, nm[j].1.0 as int)
        }
    &&& forall|k: int|
        i <= k < items.len() && (#[trigger] item_name(items[k])) is Some ==> exists|j: int|
            0 <= j < nm.len() && (#[trigger] nm[j]) == (
                item_name(items[k])->Some_0,
                wildcard_range(items, levels, k),
            )
}

/// What a successful match from item `i` on gives, wildcard by wildcard.
proof fn lemma_match_ranges(items: Seq<ItemView>, levels: Seq<Seq<char>>, i: nat)
    requires
        levels.len() <= usize::MAX,
        i <= levels.len(),
        match_from(items, levels, i) is Ok,
    ensures
        ranges_per_wildcard(
            items,
            levels,
            i as int,
            match_from(items, levels, i)->Ok_0.0,
            match_from(items, levels, i)->Ok_0.1,
        ),
    decreases items.len() - i,
{
    if i < items.len() {
        match items[i as int] {
            ItemView::Str(_) => {
                assert(match_from(items, levels, i) == match_from(items, levels, i + 1));
                lemma_match_ranges(items, levels, i + 1);
                let (p, nm) = match_from(items, levels, i + 1)->Ok_0;
                assert forall|k: int|
                    i <= k < items.len() && item_is_wildcard(#[trigger] items[k]) implies exists|j: int|
                        0 <= j < p.len() && (#[trigger] p[j]).0 == k by {
                    assert(k != i);
                }
                assert forall|k: int|
                    i <= k < items.len() && (#[trigger] item_name(items[k])) is Some implies exists|j: int|
                        0 <= j < nm.len() && (#[trigger] nm[j]) == (
                            item_name(items[k])->Some_0,
                            wildcard_range(items, levels, k),
                        ) by {
                    assert(k != i);
                }
                assert(ranges_per_wildcard(items, levels, i as int, p, nm));
            },
            ItemView::Plus(n) => {
                lemma_match_ranges(items, levels, i + 1);
                let (p2, n2) = match_from(items, levels, i + 1)->Ok_0;
                let r = (i as usize, (i + 1) as usize);
                let p = seq![r] + p2;
                let nm = named_range(n, r) + n2;
                assert(match_from(items, levels, i)->Ok_0 == (p, nm));
                assert(r == wildcard_range(items, levels, i as int));
                assert forall|j: int| 0 <= j < p.len() implies {
                    &&& i <= (#[trigger] p[j]).0 < items.len()
                    &&& item_is_wildcard(items[p[j].0 as int])
                    &&& p[j] == wildcard_range(items, levels, p[j].0 as int)
                } by {
                    if j > 0 {
                        assert(p[j] == p2[j - 1]);
                    }
                }
                assert forall|k: int|
                    i <= k < items.len() && item_is_wildcard(#[trigger] items[k]) implies exists|j: int|
                        0 <= j < p.len() && (#[trigger] p[j]).0 == k by {
                    if k == i {
                        assert(p[0].0 == k);
                    } else {
                        let j2 = choose|j2: int| 0 <= j2 < p2.len() && (#[trigger] p2[j2]).0 == k;
                        assert(p[j2 + 1] == p2[j2]);
                    }
                }
                assert forall|a: int, b: int| 0 <= a < b < p.len() implies (#[trigger] p[a]).0 < (#[trigger] p[b]).0 by {
                    assert(p[b] == p2[b - 1]);
                    if a > 0 {
                        assert(p[a] == p2[a - 1]);
                    }
                }
                let m0 = named_range(n, r).len() as int;
                assert forall|j: int| 0 <= j < nm.len() implies {
                    &&& i <= (#[trigger] nm[j]).1.0 < items.len()
                    &&& item_name(items[nm[j].1.0 as int]) == Some(nm[j].0)
                    &&& nm[j].1 == wildcard_range(items, levels, nm[j].1.0 as int)
                } by {
                    if j >= m0 {
                        assert(nm[j] == n2[j - m0]);
                    }
                }
                assert forall|k: int|
                    i <= k < items.len() && (#[trigger] item_name(items[k])) is Some implies exists|j: int|
                        0 <= j < nm.len() && (#[trigger] nm[j]) == (
                            item_name(items[k])->Some_0,
                            wildcard_range(items, levels, k),
                        ) by {
                    if k == i {
                        assert(nm[0] == (n->Some_0, r));
                    } else {
                        let j2 = choose|j2: int|
                            0 <= j2 < n2.len() && (#[trigger] n2[j2]) == (
                                item_name(items[k])->Some_0,
                                wildcard_range(items, levels, k),
                            );
                        assert(nm[j2 + m0] == n2[j2]);
                    }
                }
                assert(ranges_per_wildcard(items, levels, i as int, p, nm));
            },
            ItemView::Hash(n) => {
                let r = (i as usize, levels.len() as usize);
                assert(r == wildcard_range(items, levels, i as int));
                let p = seq![r];
                let nm = named_range(n, r);
                assert(match_from(items, levels, i)->Ok_0 == (p, nm));
                assert(p[0].0 == i);
                assert(items[p[0].0 as int] == items[i as int]);
                assert forall|j: int| 0 <= j < nm.len() implies {
                    &&& i <= (#[trigger] nm[j]).1.0 < items.len()
                    &&& item_name(items[nm[j].1.0 as int]) == Some(nm[j].0)
                    &&& nm[j].1 == wildcard_range(items, levels, nm[j].1.0 as int)
                } by {
                    assert(j == 0);
                    assert(nm[0] == (n->Some_0, r));
                }
                assert forall|k: int|
                    i <= k < items.len() && item_is_wildcard(#[trigger] items[k]) implies exists|j: int|
                        0 <= j < p.len() && (#[trigger] p[j]).0 == k by {
                    assert(k == i);
                    assert(p[0].0 == k);
                }
                assert forall|k: int|
                    i <= k < items.len() && (#[trigger] item_name(items[k])) is Some implies exists|j: int|
                        0 <= j < nm.len() && (#[trigger] nm[j]) == (
                            item_name(items[k])->Some_0,
                            wildcard_range(items, levels, k),
                        ) by {
                    assert(k == i);
                    assert(nm[0] == (n->Some_0, r));
                }
                assert(ranges_per_wildcard(items, levels, i as int, p, nm));
            },
        }
    }
}

/// What a match gives, wildcard by wildcard: one range per wildcard of the
/// pattern, in pattern order, each covering its own level for `+` and every
/// level from its position on for `#`; and one named range per named
/// wildcard, the same range under the wildcard's name.
pub proof fn law_match_ranges_per_wildcard(
    items: Seq<ItemView>,
    levels: Seq<Seq<char>>,
    params: Seq<LevelRange>,
    named: Seq<(Seq<char>, LevelRange)>,
)
    requires
        levels.len() <= usize::MAX,
        match_from(items, levels, 0) == Ok::<
            (Seq<LevelRange>, Seq<(Seq<char>, LevelRange)>),
            MatchErrorView,
        >((params, named)),
    ensures
        forall|j: int|
            0 <= j < params.len() ==> {
                &&& (#[trigger] params[j]).0 < items.len()
                &&& item_is_wildcard(items[params[j].0 as int])
                &&& params[j] == wildcard_range(items, levels, params[j].0 as int)
            },
        forall|k: int|
            0 <= k < items.len() && item_is_wildcard(#[trigger] items[k]) ==> exists|j: int|
                0 <= j < params.len() && (#[trigger] params[j]).0 == k,
        forall|a: int, b: int| 0 <= a < b < params.len() ==> (#[trigger] params[a]).0 < (#[trigger] params[b]).0,
        forall|j: int|
            0 <= j < named.len() ==> {
                &&& (#[trigger] named[j]).1.0 < items.len()
                &&& item_name(items[named[j].1.0 as int]) == Some(named[j].0)
                &&& named[j].1 == wildcard_range(items, levels, named[j].1.0 as int)
            },
        forall|k: int|
            0 <= k < items.len() && (#[trigger] item_name(items[k])) is Some ==> exists|j: int|
                0 <= j < named.len() && (#[trigger] named[j]) == (
                    item_name(items[k])->Some_0,
                    wildcard_range(items, levels, k),
                ),
{
    lemma_match_ranges(items, levels, 0);
    assert(ranges_per_wildcard(items, levels, 0, params, named));
}

} // verus!
